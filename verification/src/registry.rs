//! A table of live sessions keyed by their string id.
use vstd::prelude::*;

verus! {

/// The map that a list of `(key, value)` entries spells, later entries winning.
pub open spec fn entries_map<V>(e: Seq<(String, V)>) -> Map<Seq<char>, V>
    decreases e.len(),
{
    if e.len() == 0 {
        Map::empty()
    } else {
        entries_map(e.drop_last()).insert(e.last().0@, e.last().1)
    }
}

/// No key occurs twice.
pub open spec fn distinct_keys<V>(e: Seq<(String, V)>) -> bool {
    forall|i: int, j: int| 0 <= i < j < e.len() ==> (#[trigger] e[i]).0@ != (#[trigger] e[j]).0@
}

proof fn lemma_has_key<V>(e: Seq<(String, V)>, k: Seq<char>)
    ensures
        entries_map(e).dom().contains(k) <==> exists|i: int| 0 <= i < e.len() && (#[trigger] e[i]).0@ == k,
    decreases e.len(),
{
    if e.len() > 0 {
        lemma_has_key(e.drop_last(), k);
        if entries_map(e.drop_last()).dom().contains(k) {
            let i = choose|i: int| 0 <= i < e.drop_last().len() && (#[trigger] e.drop_last()[i]).0@ == k;
            assert(e[i] == e.drop_last()[i]);
        }
        if exists|i: int| 0 <= i < e.len() && (#[trigger] e[i]).0@ == k {
            let i = choose|i: int| 0 <= i < e.len() && (#[trigger] e[i]).0@ == k;
            if i < e.len() - 1 {
                assert(e.drop_last()[i] == e[i]);
            }
        }
    }
}

proof fn lemma_value_at<V>(e: Seq<(String, V)>, i: int)
    requires
        distinct_keys(e),
        0 <= i < e.len(),
    ensures
        entries_map(e).dom().contains(e[i].0@),
        entries_map(e)[e[i].0@] == e[i].1,
    decreases e.len(),
{
    if i < e.len() - 1 {
        assert(e.drop_last()[i] == e[i]);
        assert(distinct_keys(e.drop_last()));
        lemma_value_at(e.drop_last(), i);
        assert(e[i].0@ != e[e.len() - 1].0@);
    }
}

proof fn lemma_remove<V>(e: Seq<(String, V)>, i: int)
    requires
        distinct_keys(e),
        0 <= i < e.len(),
    ensures
        distinct_keys(e.remove(i)),
        entries_map(e.remove(i)) == entries_map(e).remove(e[i].0@),
{
    let r = e.remove(i);
    assert forall|a: int, b: int| 0 <= a < b < r.len() implies (#[trigger] r[a]).0@ != (#[trigger] r[b]).0@ by {
        let a2 = if a < i { a } else { a + 1 };
        let b2 = if b < i { b } else { b + 1 };
        assert(r[a] == e[a2] && r[b] == e[b2]);
    }
    let m1 = entries_map(r);
    let m2 = entries_map(e).remove(e[i].0@);
    assert forall|k: Seq<char>| m1.dom().contains(k) <==> m2.dom().contains(k) by {
        lemma_has_key(r, k);
        lemma_has_key(e, k);
        if m1.dom().contains(k) {
            let a = choose|a: int| 0 <= a < r.len() && (#[trigger] r[a]).0@ == k;
            let a2 = if a < i { a } else { a + 1 };
            assert(e[a2] == r[a]);
        }
        if m2.dom().contains(k) {
            let a = choose|a: int| 0 <= a < e.len() && (#[trigger] e[a]).0@ == k;
            assert(a != i);
            if a < i {
                assert(r[a] == e[a]);
            } else {
                assert(r[a - 1] == e[a]);
            }
        }
    }
    assert forall|k: Seq<char>| m1.dom().contains(k) implies m1[k] == m2[k] by {
        lemma_has_key(r, k);
        let a = choose|a: int| 0 <= a < r.len() && (#[trigger] r[a]).0@ == k;
        let a2 = if a < i { a } else { a + 1 };
        assert(e[a2] == r[a]);
        lemma_value_at(r, a);
        lemma_value_at(e, a2);
    }
    assert(m1 =~= m2);
}

/// Values kept under string ids, as a map from id to value.
pub struct Registry<V> {
    entries: Vec<(String, V)>,
}

impl<V> Registry<V> {
    /// The value under each id.
    pub closed spec fn map(&self) -> Map<Seq<char>, V> {
        entries_map(self.entries@)
    }

    /// No id is kept twice.
    pub closed spec fn wf(&self) -> bool {
        distinct_keys(self.entries@)
    }

    pub fn new() -> (r: Self)
        ensures
            r.wf(),
            r.map() == Map::<Seq<char>, V>::empty(),
    {
        Registry { entries: Vec::new() }
    }

    fn position(&self, key: &String) -> (r: Option<usize>)
        requires
            self.wf(),
        ensures
            r matches Some(i) ==> i < self.entries@.len() && self.entries@[i as int].0@ == key@,
            r is None ==> !self.map().dom().contains(key@),
    {
        let mut i: usize = 0;
        while i < self.entries.len()
            invariant
                0 <= i <= self.entries@.len(),
                forall|j: int| 0 <= j < i ==> (#[trigger] self.entries@[j]).0@ != key@,
            decreases self.entries@.len() - i,
        {
            if self.entries[i].0 == *key {
                return Some(i);
            }
            i = i + 1;
        }
        proof {
            lemma_has_key(self.entries@, key@);
        }
        None
    }

    /// The value under `key`, if there is one.
    pub fn get(&self, key: &str) -> (r: Option<&V>)
        requires
            self.wf(),
        ensures
            r matches Some(v) ==> self.map().dom().contains(key@) && *v == self.map()[key@],
            r is None ==> !self.map().dom().contains(key@),
    {
        let k = String::from_str(key);
        match self.position(&k) {
            Some(i) => {
                proof {
                    lemma_value_at(self.entries@, i as int);
                }
                Some(&self.entries[i].1)
            },
            None => None,
        }
    }

    /// Keeps `value` under `key`, in place of any value that was there.
    pub fn insert(&mut self, key: String, value: V)
        requires
            old(self).wf(),
        ensures
            final(self).wf(),
            final(self).map() == old(self).map().insert(key@, value),
    {
        match self.position(&key) {
            Some(i) => {
                proof {
                    lemma_remove(self.entries@, i as int);
                }
                let ghost m = entries_map(self.entries@);
                let _ = self.entries.remove(i);
                assert(m.remove(key@).insert(key@, value) =~= m.insert(key@, value));
            },
            None => {},
        }
        let ghost before = self.entries@;
        proof {
            lemma_has_key(before, key@);
        }
        self.entries.push((key, value));
        assert(self.entries@.drop_last() == before);
        assert forall|a: int, b: int| 0 <= a < b < self.entries@.len()
            implies (#[trigger] self.entries@[a]).0@ != (#[trigger] self.entries@[b]).0@ by {
            if b == self.entries@.len() - 1 {
                assert(self.entries@[a] == before[a]);
            } else {
                assert(self.entries@[a] == before[a] && self.entries@[b] == before[b]);
            }
        }
    }

    /// Takes the value under `key` out of the table, if there is one.
    pub fn remove(&mut self, key: &str) -> (r: Option<V>)
        requires
            old(self).wf(),
        ensures
            final(self).wf(),
            final(self).map() == old(self).map().remove(key@),
            r matches Some(v) ==> old(self).map().dom().contains(key@) && v == old(self).map()[key@],
            r is None ==> !old(self).map().dom().contains(key@),
    {
        let k = String::from_str(key);
        match self.position(&k) {
            Some(i) => {
                proof {
                    lemma_remove(self.entries@, i as int);
                    lemma_value_at(self.entries@, i as int);
                }
                let (_, v) = self.entries.remove(i);
                Some(v)
            },
            None => {
                assert(old(self).map().remove(key@) =~= old(self).map());
                None
            },
        }
    }
}

} // verus!
