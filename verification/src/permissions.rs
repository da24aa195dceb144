//! The permission groups that gate the agent's operations.
use vstd::prelude::*;
use crate::error::{AgentException, error3};
use crate::text::{
    Sep, chars_of, chars_less, join, join_strings, lemma_lt_asymmetric, lemma_lt_irreflexive,
    lemma_lt_total, lemma_lt_transitive, lemma_split_after_sep, lemma_split_whole,
    lemma_trim_after_space, lemma_trim_fixed, range_equals, seq_lt, split_by, split_ranges,
    str_lowercase, string_of_range, to_lowercase, trim, trim_range, views,
};

verus! {

/// The groups that `*` grants, in the order they are listed.
pub open spec fn all_group_names() -> Seq<Seq<char>> {
    seq!["fs"@, "process"@, "http"@, "websocket"@, "userinfo"@, "stat"@]
}

/// Every two entries stand in code-point order, so none occurs twice.
pub open spec fn strictly_sorted(s: Seq<Seq<char>>) -> bool {
    forall|i: int, j: int| 0 <= i < j < s.len() ==> seq_lt(#[trigger] s[i], #[trigger] s[j])
}

/// The group name a piece of the list asks for: the piece trimmed and lower-cased, or
/// nothing when it is blank.
pub open spec fn token_of(piece: Seq<char>) -> Seq<char> {
    if trim(piece).len() == 0 { Seq::empty() } else { str_lowercase(trim(piece)) }
}

/// The group names a comma-separated list asks for, one per piece.
pub open spec fn group_tokens(input: Seq<char>) -> Seq<Seq<char>> {
    split_by(trim(input), Sep::Char(',')).map_values(|p: Seq<char>| token_of(p))
}

/// Whether the permission text `input` names the group `g`.
pub open spec fn requests(input: Seq<char>, g: Seq<char>) -> bool {
    g.len() > 0 && group_tokens(input).contains(g)
}

/// The set of permitted groups, or all of them.
pub struct Permissions {
    all: bool,
    groups: Vec<String>,
}

impl Permissions {
    /// Whether every group is permitted.
    pub closed spec fn allows_all(&self) -> bool {
        self.all
    }

    /// The groups permitted one by one, in code-point order.
    pub closed spec fn granted(&self) -> Seq<Seq<char>> {
        views(self.groups@)
    }

    #[verifier::type_invariant]
    spec fn well_formed(&self) -> bool {
        &&& strictly_sorted(views(self.groups@))
        &&& self.all ==> self.groups@.len() == 0
    }

    /// Whether an operation of group `g` may run.
    pub open spec fn permits(&self, g: Seq<char>) -> bool {
        self.allows_all() || self.granted().contains(g)
    }

    /// The groups that `to_list` and `display` report.
    pub open spec fn listed(&self) -> Seq<Seq<char>> {
        if self.allows_all() { all_group_names() } else { self.granted() }
    }

    /// What `parse` gives for `input`: all groups for `*`, else exactly the groups the
    /// list names, in code-point order, each once.
    pub open spec fn parsed_from(&self, input: Seq<char>) -> bool {
        &&& self.allows_all() == (trim(input) == "*"@)
        &&& self.allows_all() ==> self.granted().len() == 0
        &&& !self.allows_all() ==> forall|g: Seq<char>| #[trigger] self.granted().contains(g) <==> requests(input, g)
        &&& strictly_sorted(self.granted())
    }

    /// Reads a `--permissions` value: `*` for all groups, else a comma-separated list
    /// of group names, each trimmed and lower-cased, empty ones left out.
    pub fn parse(input: &str) -> (p: Self)
        ensures
            p.parsed_from(input@),
    {
        let v = chars_of(input);
        assert(v@.subrange(0, v@.len() as int) =~= v@);
        let (a, b) = trim_range(&v, 0, v.len());
        let star = chars_of("*");
        if range_equals(&v, a, b, &star) {
            let p = Permissions { all: true, groups: Vec::new() };
            assert(views(p.groups@) =~= Seq::<Seq<char>>::empty());
            return p;
        }
        let ghost t = v@.subrange(a as int, b as int);
        let pieces = split_ranges(&v, a, b, Sep::Char(','));
        let ghost toks = group_tokens(input@);
        assert(toks.len() == pieces@.len());
        let mut groups: Vec<String> = Vec::new();
        let mut k: usize = 0;
        while k < pieces.len()
            invariant
                a <= b <= v@.len(),
                t == v@.subrange(a as int, b as int),
                t == trim(input@),
                toks == group_tokens(input@),
                crate::text::ranges_are(v@, pieces@, split_by(t, Sep::Char(',')), a as int, b as int),
                toks.len() == pieces@.len(),
                0 <= k <= pieces@.len(),
                strictly_sorted(views(groups@)),
                forall|g: Seq<char>| #[trigger] views(groups@).contains(g) <==>
                    (g.len() > 0 && toks.take(k as int).contains(g)),
            decreases pieces@.len() - k,
        {
            let (x, y) = pieces[k];
            assert(a <= pieces@[k as int].0 <= pieces@[k as int].1 <= b);
            let (c, d) = trim_range(&v, x, y);
            let low = if c < d {
                let tok = string_of_range(&v, c, d);
                to_lowercase(tok.as_str())
            } else {
                String::new()
            };
            assert(low@ == toks[k as int]);
            assert(toks.take(k + 1) =~= toks.take(k as int).push(toks[k as int]));
            let ghost before = views(groups@);
            if !low.as_str().is_empty() {
                insert_sorted(&mut groups, low);
            }
            proof {
                assert forall|g: Seq<char>| #[trigger] views(groups@).contains(g) <==>
                    (g.len() > 0 && toks.take(k + 1).contains(g)) by {
                    if toks.take(k + 1).contains(g) && !toks.take(k as int).contains(g) {
                        let w = choose|w: int| 0 <= w < k + 1 && #[trigger] toks.take(k + 1)[w] == g;
                        if w < k {
                            assert(toks.take(k as int)[w] == g);
                        }
                    }
                    if toks.take(k as int).contains(g) {
                        let w = choose|w: int| 0 <= w < k && #[trigger] toks.take(k as int)[w] == g;
                        assert(toks.take(k + 1)[w] == g);
                    }
                    if g == toks[k as int] {
                        assert(toks.take(k + 1)[k as int] == g);
                    }
                }
            }
            k = k + 1;
        }
        assert(toks.take(pieces@.len() as int) =~= toks);
        Permissions { all: false, groups }
    }

    /// Allows an operation of `group`, or refuses it with the message the agent sends.
    pub fn check(&self, group: &str) -> (r: Result<(), AgentException>)
        ensures
            r is Ok <==> self.permits(group@),
            r matches Err(e) ==> e.message@ == "Permission denied: '"@ + group@ + "' not in --permissions"@,
    {
        proof { use_type_invariant(self); }
        if self.all {
            return Ok(());
        }
        let g = String::from_str(group);
        let mut i: usize = 0;
        while i < self.groups.len()
            invariant
                0 <= i <= self.groups@.len(),
                g@ == group@,
                forall|j: int| 0 <= j < i ==> self.groups@[j]@ != group@,
            decreases self.groups@.len() - i,
        {
            if self.groups[i] == g {
                assert(self.granted()[i as int] == group@);
                return Ok(());
            }
            i = i + 1;
        }
        assert(!self.granted().contains(group@));
        Err(error3("Permission denied: '", group, "' not in --permissions"))
    }

    /// The permitted groups, joined with `, `.
    pub fn display(&self) -> (r: String)
        ensures
            r@ == join(self.listed(), ", "@),
            !self.allows_all() ==> strictly_sorted(self.listed()),
    {
        proof { use_type_invariant(self); }
        let list = self.to_list();
        join_strings(&list, ", ")
    }

    /// The permitted groups: all of them in their listed order for `*`, else in code-point order.
    pub fn to_list(&self) -> (r: Vec<String>)
        ensures
            views(r@) == self.listed(),
            !self.allows_all() ==> strictly_sorted(views(r@)),
    {
        proof { use_type_invariant(self); }
        if self.all {
            let mut r: Vec<String> = Vec::new();
            r.push(String::from_str("fs"));
            r.push(String::from_str("process"));
            r.push(String::from_str("http"));
            r.push(String::from_str("websocket"));
            r.push(String::from_str("userinfo"));
            r.push(String::from_str("stat"));
            assert(views(r@) =~= all_group_names());
            r
        } else {
            let mut r: Vec<String> = Vec::new();
            let mut i: usize = 0;
            while i < self.groups.len()
                invariant
                    0 <= i <= self.groups@.len(),
                    views(r@) == views(self.groups@).take(i as int),
                decreases self.groups@.len() - i,
            {
                let c = self.groups[i].clone();
                assert(c@ == views(self.groups@)[i as int]);
                let ghost old_r = r@;
                r.push(c);
                assert(views(r@) =~= views(old_r).push(c@));
                assert(views(r@) =~= views(self.groups@).take(i + 1));
                i = i + 1;
            }
            assert(views(self.groups@).take(i as int) =~= views(self.groups@));
            r
        }
    }
}

fn entry_before(groups: &Vec<String>, i: usize, g: &Vec<char>) -> (r: bool)
    requires
        i < groups@.len(),
    ensures
        r == seq_lt(groups@[i as int]@, g@),
{
    let ci = chars_of(groups[i].as_str());
    chars_less(&ci, g)
}

/// Adds `g` to a strictly sorted list, where it is not there yet.
fn insert_sorted(groups: &mut Vec<String>, g: String)
    requires
        strictly_sorted(views(old(groups)@)),
    ensures
        strictly_sorted(views(final(groups)@)),
        forall|x: Seq<char>| #[trigger] views(final(groups)@).contains(x) <==>
            (views(old(groups)@).contains(x) || x == g@),
{
    let gc = chars_of(g.as_str());
    let mut i: usize = 0;
    while i < groups.len() && entry_before(groups, i, &gc)
        invariant
            groups@ == old(groups)@,
            strictly_sorted(views(groups@)),
            gc@ == g@,
            0 <= i <= groups@.len(),
            forall|j: int| 0 <= j < i ==> seq_lt(#[trigger] groups@[j]@, g@),
        decreases groups@.len() - i,
    {
        i = i + 1;
    }
    let ghost old_v = views(groups@);
    if i < groups.len() {
        let ci = chars_of(groups[i].as_str());
        if !chars_less(&gc, &ci) {
            proof {
                if ci@ != gc@ {
                    lemma_lt_total(ci@, gc@);
                }
                assert(old_v[i as int] == groups@[i as int]@);
                assert(old_v[i as int] == g@);
                assert(views(groups@).contains(g@));
            }
            return;
        }
    }
    groups.insert(i, g);
    proof {
        let nv = views(groups@);
        assert(nv =~= old_v.insert(i as int, g@));
        assert forall|a: int, b: int| 0 <= a < b < nv.len() implies seq_lt(#[trigger] nv[a], #[trigger] nv[b]) by {
            if b < i {
            } else if b == i {
                assert(seq_lt(old_v[a], g@));
            } else if a < i {
                assert(seq_lt(old_v[a], g@));
                if b - 1 > i {
                    assert(seq_lt(old_v[i as int], old_v[b - 1]));
                    lemma_lt_transitive(g@, old_v[i as int], old_v[b - 1]);
                }
                lemma_lt_transitive(old_v[a], g@, old_v[b - 1]);
            } else if a == i {
                if b - 1 > i {
                    assert(seq_lt(old_v[i as int], old_v[b - 1]));
                    lemma_lt_transitive(g@, old_v[i as int], old_v[b - 1]);
                }
            } else {
                assert(seq_lt(old_v[a - 1], old_v[b - 1]));
            }
        }
        assert forall|x: Seq<char>| #[trigger] nv.contains(x) <==> (old_v.contains(x) || x == g@) by {
            if nv.contains(x) {
                let w = choose|w: int| 0 <= w < nv.len() && #[trigger] nv[w] == x;
                if w < i {
                    assert(old_v[w] == x);
                } else if w > i {
                    assert(old_v[w - 1] == x);
                }
            }
            if old_v.contains(x) {
                let w = choose|w: int| 0 <= w < old_v.len() && #[trigger] old_v[w] == x;
                if w < i {
                    assert(nv[w] == x);
                } else {
                    assert(nv[w + 1] == x);
                }
            }
            if x == g@ {
                assert(nv[i as int] == x);
            }
        }
    }
}

/// Two lists in code-point order with the same entries are the same list.
pub proof fn lemma_sorted_unique(a: Seq<Seq<char>>, b: Seq<Seq<char>>)
    requires
        strictly_sorted(a),
        strictly_sorted(b),
        forall|x: Seq<char>| a.contains(x) <==> b.contains(x),
    ensures
        a == b,
    decreases a.len() + b.len(),
{
    if a.len() == 0 || b.len() == 0 {
        if a.len() > 0 {
            assert(a.contains(a[0]));
        }
        if b.len() > 0 {
            assert(b.contains(b[0]));
        }
        assert(a =~= b);
    } else {
        // The first entries are each the least of the same set, so they agree.
        assert(a.contains(a[0]) && b.contains(b[0]));
        let i = choose|i: int| 0 <= i < b.len() && b[i] == a[0];
        let j = choose|j: int| 0 <= j < a.len() && a[j] == b[0];
        if i > 0 {
            if j > 0 {
                assert(seq_lt(b[0], b[i]));
                assert(seq_lt(a[0], a[j]));
                lemma_lt_asymmetric(a[0], b[0]);
            } else {
                lemma_lt_irreflexive(b[0]);
            }
        }
        assert(a[0] == b[0]);
        let ra = a.drop_first();
        let rb = b.drop_first();
        assert forall|x: Seq<char>| ra.contains(x) <==> rb.contains(x) by {
            if ra.contains(x) {
                let k = choose|k: int| 0 <= k < ra.len() && ra[k] == x;
                assert(seq_lt(a[0], a[k + 1]));
                assert(a.contains(x));
                let m = choose|m: int| 0 <= m < b.len() && b[m] == x;
                if m == 0 {
                    lemma_lt_irreflexive(a[0]);
                }
                assert(rb[m - 1] == x);
            }
            if rb.contains(x) {
                let k = choose|k: int| 0 <= k < rb.len() && rb[k] == x;
                assert(seq_lt(b[0], b[k + 1]));
                assert(b.contains(x));
                let m = choose|m: int| 0 <= m < a.len() && a[m] == x;
                if m == 0 {
                    lemma_lt_irreflexive(b[0]);
                }
                assert(ra[m - 1] == x);
            }
        }
        lemma_sorted_unique(ra, rb);
        assert(a =~= seq![a[0]] + ra);
        assert(b =~= seq![b[0]] + rb);
    }
}

/// An operation of group `g` may run exactly when the permission text is `*` or names
/// `g` (after trimming and lower-casing).
pub proof fn law_check_follows_text(p: Permissions, input: Seq<char>, g: Seq<char>)
    requires
        p.parsed_from(input),
    ensures
        p.permits(g) <==> (trim(input) == "*"@ || requests(input, g)),
{
}

/// The listing does not depend on how the groups were written: two permission texts
/// that name the same groups list them alike, whatever their order, case or repetition.
pub proof fn law_listing_is_canonical(p: Permissions, q: Permissions, a: Seq<char>, b: Seq<char>)
    requires
        p.parsed_from(a),
        q.parsed_from(b),
        p.allows_all() == q.allows_all(),
        forall|g: Seq<char>| requests(a, g) <==> requests(b, g),
    ensures
        p.listed() == q.listed(),
{
    if !p.allows_all() {
        assert forall|x: Seq<char>| p.granted().contains(x) <==> q.granted().contains(x) by {}
        lemma_sorted_unique(p.granted(), q.granted());
    }
}

/// The pieces `join(gs, ", ")` falls into at its commas: the first name, then each
/// further one after its space.
pub open spec fn spaced(gs: Seq<Seq<char>>) -> Seq<Seq<char>> {
    Seq::new(gs.len(), |k: int| if k == 0 { gs[0] } else { seq![' '] + gs[k] })
}

proof fn lemma_split_join(gs: Seq<Seq<char>>)
    requires
        gs.len() > 0,
        forall|k: int| 0 <= k < gs.len() ==> !(#[trigger] gs[k]).contains(','),
    ensures
        split_by(join(gs, ", "@), Sep::Char(',')) == spaced(gs),
    decreases gs.len(),
{
    reveal_strlit(", ");
    if gs.len() == 1 {
        lemma_split_whole(gs[0], ',');
        assert(spaced(gs) =~= seq![gs[0]]);
    } else {
        let init = gs.drop_last();
        assert forall|k: int| 0 <= k < init.len() implies !(#[trigger] init[k]).contains(',') by {
            assert(init[k] == gs[k]);
        }
        lemma_split_join(init);
        let last = gs[gs.len() - 1];
        let t = seq![' '] + last;
        assert(!t.contains(',')) by {
            assert(!last.contains(','));
            if t.contains(',') {
                let w = choose|w: int| 0 <= w < t.len() && t[w] == ',';
                assert(w > 0);
                assert(last[w - 1] == ',');
            }
        }
        lemma_split_after_sep(join(init, ", "@), ',', t);
        assert(join(gs, ", "@) =~= join(init, ", "@) + seq![','] + t);
        assert(spaced(init).push(t) =~= spaced(gs));
    }
}

proof fn lemma_join_ends(gs: Seq<Seq<char>>)
    requires
        gs.len() > 0,
        forall|k: int| 0 <= k < gs.len() ==> (#[trigger] gs[k]).len() > 0,
    ensures
        join(gs, ", "@).len() >= gs[0].len(),
        gs.len() > 1 ==> join(gs, ", "@).len() >= 2,
        join(gs, ", "@)[0] == gs[0][0],
        join(gs, ", "@).last() == gs[gs.len() - 1].last(),
    decreases gs.len(),
{
    reveal_strlit(", ");
    if gs.len() > 1 {
        let init = gs.drop_last();
        assert forall|k: int| 0 <= k < init.len() implies (#[trigger] init[k]).len() > 0 by {
            assert(init[k] == gs[k]);
        }
        lemma_join_ends(init);
        let j = join(gs, ", "@);
        assert(j == join(init, ", "@) + ", "@ + gs.last());
        assert(j[0] == join(init, ", "@)[0]);
        assert(gs.last() == gs[gs.len() - 1]);
    }
}

/// The names that `parse` keeps: as `str::to_lowercase` leaves them, with no comma and no
/// whitespace at either end.
pub open spec fn kept_form(g: Seq<char>) -> bool {
    &&& str_lowercase(g) == g
    &&& trim(g) == g
    &&& !g.contains(',')
}

/// Reading back what `display` writes gives the same permissions: a list of groups parsed
/// from some text, written out and parsed again, grants the same groups. It fails for the
/// list of the one group `*`, which reads back as all groups. Every name that `parse`
/// grants is in the form `kept_form` describes, but what this library states of
/// `str::to_lowercase` does not say that it leaves its own output, whitespace and commas
/// as they were; so the law takes that of the listed names.
pub proof fn law_display_reads_back(p: Permissions, input: Seq<char>, q: Permissions)
    requires
        p.parsed_from(input),
        !p.allows_all(),
        p.granted() != seq!["*"@],
        forall|k: int| 0 <= k < p.granted().len() ==> kept_form(#[trigger] p.granted()[k]),
        q.parsed_from(join(p.listed(), ", "@)),
    ensures
        !q.allows_all(),
        q.granted() == p.granted(),
{
    let gs = p.granted();
    let j = join(gs, ", "@);
    reveal_strlit("*");
    if gs.len() == 0 {
        assert(j == Seq::<char>::empty());
        assert(trim(j) =~= Seq::<char>::empty());
        assert(split_by(trim(j), Sep::Char(',')) =~= seq![Seq::<char>::empty()]);
        let toks = group_tokens(j);
        assert(toks =~= seq![Seq::<char>::empty()]);
        assert forall|x: Seq<char>| q.granted().contains(x) <==> gs.contains(x) by {
            if toks.contains(x) {
                let w = choose|w: int| 0 <= w < toks.len() && toks[w] == x;
                assert(x.len() == 0);
            }
        }
        lemma_sorted_unique(q.granted(), gs);
    } else {
        assert forall|k: int| 0 <= k < gs.len() implies (#[trigger] gs[k]).len() > 0 by {
            assert(gs.contains(gs[k]));
        }
        assert forall|k: int| 0 <= k < gs.len() implies !(#[trigger] gs[k]).contains(',') by {
            assert(kept_form(gs[k]));
        }
        lemma_join_ends(gs);
        let first = gs[0];
        let last = gs[gs.len() - 1];
        assert(kept_form(first));
        assert(kept_form(last));
        lemma_trim_fixed(first);
        lemma_trim_fixed(last);
        lemma_trim_fixed(j);
        assert(trim(j) == j);
        if gs.len() == 1 {
            assert(j == first);
            if j == "*"@ {
                assert(gs =~= seq!["*"@]);
            }
        }
        assert(trim(j) != "*"@);
        lemma_split_join(gs);
        let toks = group_tokens(j);
        assert forall|k: int| 0 <= k < gs.len() implies #[trigger] toks[k] == gs[k] by {
            assert(kept_form(gs[k]));
            assert(gs[k].len() > 0);
            if k > 0 {
                lemma_trim_after_space(gs[k]);
            }
        }
        assert(toks =~= gs);
        assert forall|x: Seq<char>| q.granted().contains(x) <==> gs.contains(x) by {
            if gs.contains(x) {
                let w = choose|w: int| 0 <= w < gs.len() && gs[w] == x;
                assert(x.len() > 0);
            }
        }
        lemma_sorted_unique(q.granted(), gs);
    }
}

/// Parsing a list that is not `*` grants, for each comma-separated piece that is not
/// blank, the piece trimmed and lower-cased by `str::to_lowercase` (whatever the case it
/// was written in), and grants nothing else.
pub proof fn law_parse_grants_lowercased_pieces(p: Permissions, input: Seq<char>)
    requires
        p.parsed_from(input),
        trim(input) != "*"@,
    ensures
        !p.allows_all(),
        forall|k: int|
            0 <= k < split_by(trim(input), Sep::Char(',')).len()
                && trim(#[trigger] split_by(trim(input), Sep::Char(','))[k]).len() > 0
                && str_lowercase(trim(split_by(trim(input), Sep::Char(','))[k])).len() > 0
                ==> p.granted().contains(str_lowercase(trim(split_by(trim(input), Sep::Char(','))[k]))),
        forall|g: Seq<char>| #[trigger] p.granted().contains(g) ==> g.len() > 0 && exists|k: int|
            0 <= k < split_by(trim(input), Sep::Char(',')).len()
                && trim(#[trigger] split_by(trim(input), Sep::Char(','))[k]).len() > 0
                && g == str_lowercase(trim(split_by(trim(input), Sep::Char(','))[k])),
{
    let pieces = split_by(trim(input), Sep::Char(','));
    let toks = group_tokens(input);
    assert forall|k: int|
        0 <= k < pieces.len() && trim(#[trigger] pieces[k]).len() > 0 && str_lowercase(trim(pieces[k])).len() > 0
        implies p.granted().contains(str_lowercase(trim(pieces[k]))) by {
        assert(toks[k] == str_lowercase(trim(pieces[k])));
        assert(toks.contains(toks[k]));
    }
    assert forall|g: Seq<char>| #[trigger] p.granted().contains(g) implies g.len() > 0 && exists|k: int|
        0 <= k < pieces.len() && trim(#[trigger] pieces[k]).len() > 0 && g == str_lowercase(trim(pieces[k])) by {
        assert(requests(input, g));
        let k = choose|k: int| 0 <= k < toks.len() && toks[k] == g;
        assert(toks[k] == token_of(pieces[k]));
    }
}

} // verus!
