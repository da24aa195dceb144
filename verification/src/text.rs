//! Text primitives over character sequences: whitespace, trimming, splitting,
//! line breaking, integer parsing and decimal formatting.
use vstd::prelude::*;

verus! {

/// Unicode `White_Space`, the set that `char::is_whitespace` tests.
pub open spec fn is_ws(c: char) -> bool {
    let u = c as u32;
    (9 <= u && u <= 13) || u == 32 || u == 0x85 || u == 0xA0 || u == 0x1680
        || (0x2000 <= u && u <= 0x200A) || u == 0x2028 || u == 0x2029 || u == 0x202F
        || u == 0x205F || u == 0x3000
}

pub fn char_is_ws(c: char) -> (r: bool)
    ensures
        r == is_ws(c),
{
    let u = c as u32;
    (9 <= u && u <= 13) || u == 32 || u == 0x85 || u == 0xA0 || u == 0x1680
        || (0x2000 <= u && u <= 0x200A) || u == 0x2028 || u == 0x2029 || u == 0x202F
        || u == 0x205F || u == 0x3000
}

/// The characters of a string, in order.
pub fn chars_of(s: &str) -> (r: Vec<char>)
    ensures
        r@ == s@,
{
    let mut r: Vec<char> = Vec::new();
    for c in it: s.chars()
        invariant
            it.seq() == s@,
            r@ == it.seq().take(it.index() as int),
    {
        r.push(c);
    }
    assert(s@.take(s@.len() as int) =~= s@);
    r
}

/// How many characters of `s`, from its start, are separators.
pub open spec fn lead_by(s: Seq<char>, sep: Sep) -> nat
    decreases s.len(),
{
    if s.len() > 0 && is_sep(sep, s[0]) {
        1 + lead_by(s.drop_first(), sep)
    } else {
        0
    }
}

/// How many characters of `s`, from its end, are separators.
pub open spec fn trail_by(s: Seq<char>, sep: Sep) -> nat
    decreases s.len(),
{
    if s.len() > 0 && is_sep(sep, s.last()) {
        1 + trail_by(s.drop_last(), sep)
    } else {
        0
    }
}

/// `s` without its leading separators (`str::trim_start_matches`).
pub open spec fn trim_start_by(s: Seq<char>, sep: Sep) -> Seq<char> {
    s.skip(lead_by(s, sep) as int)
}

/// `s` without its trailing separators (`str::trim_end_matches`).
pub open spec fn trim_end_by(s: Seq<char>, sep: Sep) -> Seq<char> {
    s.take(s.len() - trail_by(s, sep))
}

/// `s` without separators at either end (`str::trim_matches`).
pub open spec fn trim_by(s: Seq<char>, sep: Sep) -> Seq<char> {
    trim_end_by(trim_start_by(s, sep), sep)
}

/// `s` without its leading and trailing whitespace, as `str::trim` gives it.
pub open spec fn trim(s: Seq<char>) -> Seq<char> {
    trim_by(s, Sep::Ws)
}

/// The bounds, inside `lo..hi`, of `v[lo..hi]` without its trailing separators.
pub fn trim_end_range(v: &Vec<char>, lo: usize, hi: usize, sep: Sep) -> (b: usize)
    requires
        lo <= hi <= v@.len(),
    ensures
        lo <= b <= hi,
        v@.subrange(lo as int, b as int) == trim_end_by(v@.subrange(lo as int, hi as int), sep),
{
    let ghost front = v@.subrange(lo as int, hi as int);
    let mut b = hi;
    while b > lo && sep_matches(sep, v[b - 1])
        invariant
            lo <= b <= hi <= v@.len(),
            front == v@.subrange(lo as int, hi as int),
            trail_by(front, sep) == (hi - b) + trail_by(v@.subrange(lo as int, b as int), sep),
        decreases b - lo,
    {
        assert(v@.subrange(lo as int, b as int).drop_last() =~= v@.subrange(lo as int, b - 1));
        b = b - 1;
    }
    assert(trail_by(front, sep) == hi - b);
    assert(trim_end_by(front, sep) =~= v@.subrange(lo as int, b as int));
    b
}

/// The bounds, inside `lo..hi`, of `v[lo..hi]` without separators at either end.
pub fn trim_range_by(v: &Vec<char>, lo: usize, hi: usize, sep: Sep) -> (r: (usize, usize))
    requires
        lo <= hi <= v@.len(),
    ensures
        lo <= r.0 <= r.1 <= hi,
        v@.subrange(r.0 as int, r.1 as int) == trim_by(v@.subrange(lo as int, hi as int), sep),
{
    let ghost whole = v@.subrange(lo as int, hi as int);
    let mut a = lo;
    while a < hi && sep_matches(sep, v[a])
        invariant
            lo <= a <= hi <= v@.len(),
            whole == v@.subrange(lo as int, hi as int),
            lead_by(whole, sep) == (a - lo) + lead_by(v@.subrange(a as int, hi as int), sep),
        decreases hi - a,
    {
        assert(v@.subrange(a as int, hi as int).drop_first() =~= v@.subrange(a + 1, hi as int));
        a = a + 1;
    }
    assert(lead_by(whole, sep) == a - lo);
    assert(trim_start_by(whole, sep) =~= v@.subrange(a as int, hi as int));
    let b = trim_end_range(v, a, hi, sep);
    (a, b)
}

/// The bounds, inside `lo..hi`, of the trimmed text of `v[lo..hi]`.
pub fn trim_range(v: &Vec<char>, lo: usize, hi: usize) -> (r: (usize, usize))
    requires
        lo <= hi <= v@.len(),
    ensures
        lo <= r.0 <= r.1 <= hi,
        v@.subrange(r.0 as int, r.1 as int) == trim(v@.subrange(lo as int, hi as int)),
{
    trim_range_by(v, lo, hi, Sep::Ws)
}

#[verifier::external_body]
fn push_char(s: &mut String, c: char)
    ensures
        final(s)@ == old(s)@.push(c),
{
    s.push(c);
}

/// A string holding `v[lo..hi]`.
pub fn string_of_range(v: &Vec<char>, lo: usize, hi: usize) -> (r: String)
    requires
        lo <= hi <= v@.len(),
    ensures
        r@ == v@.subrange(lo as int, hi as int),
{
    let mut r = String::new();
    let mut i = lo;
    while i < hi
        invariant
            lo <= i <= hi <= v@.len(),
            r@ == v@.subrange(lo as int, i as int),
        decreases hi - i,
    {
        push_char(&mut r, v[i]);
        assert(v@.subrange(lo as int, i + 1) =~= v@.subrange(lo as int, i as int).push(v@[i as int]));
        i = i + 1;
    }
    r
}

/// `str::trim`, into a new string.
pub fn trimmed(s: &str) -> (r: String)
    ensures
        r@ == trim(s@),
{
    let v = chars_of(s);
    let (a, b) = trim_range(&v, 0, v.len());
    assert(v@.subrange(0, v@.len() as int) =~= v@);
    string_of_range(&v, a, b)
}

/// What separates the pieces of a split: one given character, or any whitespace.
#[derive(Clone, Copy)]
pub enum Sep {
    Char(char),
    Ws,
}

pub open spec fn is_sep(sep: Sep, c: char) -> bool {
    match sep {
        Sep::Char(d) => c == d,
        Sep::Ws => is_ws(c),
    }
}

fn sep_matches(sep: Sep, c: char) -> (r: bool)
    ensures
        r == is_sep(sep, c),
{
    match sep {
        Sep::Char(d) => c == d,
        Sep::Ws => char_is_ws(c),
    }
}

/// The pieces between separators, as `str::split` gives them (never empty: at least one piece).
pub open spec fn split_by(s: Seq<char>, sep: Sep) -> Seq<Seq<char>>
    decreases s.len(),
{
    if s.len() == 0 {
        seq![Seq::<char>::empty()]
    } else {
        let p = split_by(s.drop_last(), sep);
        if is_sep(sep, s.last()) {
            p.push(Seq::<char>::empty())
        } else {
            p.update(p.len() - 1, p.last().push(s.last()))
        }
    }
}

pub proof fn lemma_split_nonempty(s: Seq<char>, sep: Sep)
    ensures
        split_by(s, sep).len() >= 1,
    decreases s.len(),
{
    if s.len() > 0 {
        lemma_split_nonempty(s.drop_last(), sep);
    }
}

/// Cutting `s`, a separator `x`, then `t`, gives the pieces of `s` and then those of `t`.
pub proof fn lemma_split_concat_at(s: Seq<char>, sep: Sep, x: char, t: Seq<char>)
    requires
        is_sep(sep, x),
    ensures
        split_by(s + seq![x] + t, sep) == split_by(s, sep) + split_by(t, sep),
    decreases t.len(),
{
    let whole = s + seq![x] + t;
    let a = split_by(s, sep);
    if t.len() == 0 {
        assert(whole.drop_last() =~= s);
        assert(split_by(t, sep) =~= seq![Seq::<char>::empty()]);
        assert(a.push(Seq::<char>::empty()) =~= a + seq![Seq::<char>::empty()]);
    } else {
        let t0 = t.drop_last();
        lemma_split_concat_at(s, sep, x, t0);
        lemma_split_nonempty(t0, sep);
        assert(whole.drop_last() =~= s + seq![x] + t0);
        assert(whole.last() == t.last());
        let b = split_by(t0, sep);
        if is_sep(sep, t.last()) {
            assert((a + b).push(Seq::<char>::empty()) =~= a + b.push(Seq::<char>::empty()));
        } else {
            assert((a + b).update((a + b).len() - 1, (a + b).last().push(t.last()))
                =~= a + b.update(b.len() - 1, b.last().push(t.last())));
        }
    }
}

/// Text with no separator is one piece.
pub proof fn lemma_split_whole_by(t: Seq<char>, sep: Sep)
    requires
        forall|i: int| 0 <= i < t.len() ==> !is_sep(sep, #[trigger] t[i]),
    ensures
        split_by(t, sep) == seq![t],
    decreases t.len(),
{
    if t.len() > 0 {
        let t0 = t.drop_last();
        assert forall|i: int| 0 <= i < t0.len() implies !is_sep(sep, #[trigger] t0[i]) by {
            assert(t0[i] == t[i]);
        }
        lemma_split_whole_by(t0, sep);
        assert(t[t.len() - 1] == t.last());
        assert(t0.push(t.last()) =~= t);
    } else {
        assert(t =~= Seq::<char>::empty());
    }
}

/// Keeping the non-empty pieces of two runs of pieces keeps those of each.
pub proof fn lemma_nonempty_concat(a: Seq<Seq<char>>, b: Seq<Seq<char>>)
    ensures
        nonempty_only(a + b) == nonempty_only(a) + nonempty_only(b),
    decreases b.len(),
{
    if b.len() == 0 {
        assert(a + b =~= a);
        assert(nonempty_only(a) + nonempty_only(b) =~= nonempty_only(a));
    } else {
        lemma_nonempty_concat(a, b.drop_last());
        assert((a + b).drop_last() =~= a + b.drop_last());
        assert((a + b).last() == b.last());
        if b.last().len() > 0 {
            assert((nonempty_only(a) + nonempty_only(b.drop_last())).push(b.last())
                =~= nonempty_only(a) + nonempty_only(b.drop_last()).push(b.last()));
        }
    }
}

/// The words of `s`, a whitespace character, then `t`, are those of `s` and then those of `t`.
pub proof fn lemma_words_concat(s: Seq<char>, x: char, t: Seq<char>)
    requires
        is_ws(x),
    ensures
        words(s + seq![x] + t) == words(s) + words(t),
{
    lemma_split_concat_at(s, Sep::Ws, x, t);
    lemma_nonempty_concat(split_by(s, Sep::Ws), split_by(t, Sep::Ws));
}

/// Non-empty text without whitespace is one word.
pub proof fn lemma_one_word(w: Seq<char>)
    requires
        w.len() > 0,
        forall|i: int| 0 <= i < w.len() ==> !is_ws(#[trigger] w[i]),
    ensures
        words(w) == seq![w],
{
    lemma_split_whole_by(w, Sep::Ws);
    let e = Seq::<Seq<char>>::empty();
    assert(seq![w].drop_last() =~= e);
    assert(nonempty_only(e) == e);
    assert(e.push(w) =~= seq![w]);
}

/// Text without the separator character is one piece.
pub proof fn lemma_split_whole(t: Seq<char>, c: char)
    requires
        !t.contains(c),
    ensures
        split_by(t, Sep::Char(c)) == seq![t],
    decreases t.len(),
{
    if t.len() > 0 {
        assert(!t.drop_last().contains(c)) by {
            if t.drop_last().contains(c) {
                let w = choose|w: int| 0 <= w < t.drop_last().len() && t.drop_last()[w] == c;
                assert(t[w] == c);
            }
        }
        lemma_split_whole(t.drop_last(), c);
        assert(t.last() != c) by {
            assert(t[t.len() - 1] == t.last());
        }
        assert(t.drop_last().push(t.last()) =~= t);
    } else {
        assert(t =~= Seq::<char>::empty());
    }
}

/// Cutting `s`, the separator `c`, then `t` without `c`, gives the pieces of `s` and then `t`.
pub proof fn lemma_split_after_sep(s: Seq<char>, c: char, t: Seq<char>)
    requires
        !t.contains(c),
    ensures
        split_by(s + seq![c] + t, Sep::Char(c)) == split_by(s, Sep::Char(c)).push(t),
    decreases t.len(),
{
    let x = s + seq![c] + t;
    if t.len() == 0 {
        assert(x.drop_last() =~= s);
        assert(t =~= Seq::<char>::empty());
    } else {
        let t0 = t.drop_last();
        assert(!t0.contains(c)) by {
            if t0.contains(c) {
                let w = choose|w: int| 0 <= w < t0.len() && t0[w] == c;
                assert(t[w] == c);
            }
        }
        lemma_split_after_sep(s, c, t0);
        assert(x.drop_last() =~= s + seq![c] + t0);
        assert(x.last() == t.last());
        assert(t.last() != c) by {
            assert(t[t.len() - 1] == t.last());
        }
        assert(t0.push(t.last()) =~= t);
        let p = split_by(s, Sep::Char(c));
        assert(p.push(t0).update(p.len() as int, t0.push(t.last())) =~= p.push(t));
    }
}

proof fn lemma_lead_trail_bounded(s: Seq<char>, sep: Sep)
    ensures
        lead_by(s, sep) <= s.len(),
        trail_by(s, sep) <= s.len(),
    decreases s.len(),
{
    if s.len() > 0 {
        lemma_lead_trail_bounded(s.drop_first(), sep);
        lemma_lead_trail_bounded(s.drop_last(), sep);
    }
}

/// Text with no whitespace at either end is its own trim; text that is its own trim and
/// not empty has no whitespace at either end.
pub proof fn lemma_trim_fixed(g: Seq<char>)
    requires
        g.len() > 0,
    ensures
        trim(g) == g <==> (!is_ws(g[0]) && !is_ws(g.last())),
{
    let st = trim_start_by(g, Sep::Ws);
    lemma_lead_trail_bounded(g, Sep::Ws);
    lemma_lead_trail_bounded(st, Sep::Ws);
    if !is_ws(g[0]) {
        assert(lead_by(g, Sep::Ws) == 0);
        assert(st =~= g);
        if !is_ws(g.last()) {
            assert(trail_by(g, Sep::Ws) == 0);
            assert(g.take(g.len() as int) =~= g);
        } else {
            assert(trail_by(g, Sep::Ws) >= 1);
            assert(trim(g).len() < g.len());
        }
    } else {
        assert(lead_by(g, Sep::Ws) >= 1);
        assert(st.len() < g.len());
        assert(trim(g).len() <= st.len());
    }
}

/// A space before text that is its own trim is trimmed away.
pub proof fn lemma_trim_after_space(g: Seq<char>)
    requires
        g.len() > 0,
        trim(g) == g,
    ensures
        trim(seq![' '] + g) == g,
{
    lemma_trim_fixed(g);
    let x = seq![' '] + g;
    assert(x.drop_first() =~= g);
    assert(lead_by(g, Sep::Ws) == 0);
    assert(lead_by(x, Sep::Ws) == 1);
    assert(x.skip(1) =~= g);
    assert(trail_by(g, Sep::Ws) == 0);
    assert(g.take(g.len() as int) =~= g);
}

/// The ranges `v[lo..hi]` falls into when cut at each separator.
pub open spec fn ranges_are(v: Seq<char>, r: Seq<(usize, usize)>, pieces: Seq<Seq<char>>, lo: int, hi: int) -> bool {
    &&& r.len() == pieces.len()
    &&& forall|k: int| 0 <= k < r.len() ==> lo <= (#[trigger] r[k]).0 <= r[k].1 <= hi
    &&& forall|k: int| 0 <= k < r.len() ==> v.subrange((#[trigger] r[k]).0 as int, r[k].1 as int) == pieces[k]
}

pub fn split_ranges(v: &Vec<char>, lo: usize, hi: usize, sep: Sep) -> (r: Vec<(usize, usize)>)
    requires
        lo <= hi <= v@.len(),
    ensures
        ranges_are(v@, r@, split_by(v@.subrange(lo as int, hi as int), sep), lo as int, hi as int),
{
    let mut r: Vec<(usize, usize)> = Vec::new();
    let mut start = lo;
    let mut i = lo;
    proof {
        assert(v@.subrange(lo as int, lo as int) =~= Seq::<char>::empty());
    }
    while i < hi
        invariant
            lo <= start <= i <= hi <= v@.len(),
            r@.len() + 1 == split_by(v@.subrange(lo as int, i as int), sep).len(),
            forall|k: int| 0 <= k < r@.len() ==> lo <= (#[trigger] r@[k]).0 <= r@[k].1 <= i,
            forall|k: int| 0 <= k < r@.len() ==> v@.subrange((#[trigger] r@[k]).0 as int, r@[k].1 as int)
                == split_by(v@.subrange(lo as int, i as int), sep)[k],
            v@.subrange(start as int, i as int) == split_by(v@.subrange(lo as int, i as int), sep).last(),
        decreases hi - i,
    {
        let ghost prev = split_by(v@.subrange(lo as int, i as int), sep);
        assert(v@.subrange(lo as int, i + 1).drop_last() =~= v@.subrange(lo as int, i as int));
        if sep_matches(sep, v[i]) {
            r.push((start, i));
            start = i + 1;
            assert(v@.subrange(start as int, i + 1) =~= Seq::<char>::empty());
        } else {
            assert(v@.subrange(start as int, i + 1) =~= v@.subrange(start as int, i as int).push(v@[i as int]));
        }
        i = i + 1;
    }
    r.push((start, hi));
    r
}

/// The pieces that are not empty, in order.
pub open spec fn nonempty_only(ps: Seq<Seq<char>>) -> Seq<Seq<char>>
    decreases ps.len(),
{
    if ps.len() == 0 {
        Seq::empty()
    } else {
        let r = nonempty_only(ps.drop_last());
        if ps.last().len() > 0 {
            r.push(ps.last())
        } else {
            r
        }
    }
}

/// The whitespace-separated words of `s`, as `str::split_whitespace` gives them.
pub open spec fn words(s: Seq<char>) -> Seq<Seq<char>> {
    nonempty_only(split_by(s, Sep::Ws))
}

pub fn word_ranges(v: &Vec<char>, lo: usize, hi: usize) -> (r: Vec<(usize, usize)>)
    requires
        lo <= hi <= v@.len(),
    ensures
        ranges_are(v@, r@, words(v@.subrange(lo as int, hi as int)), lo as int, hi as int),
{
    let pieces = split_ranges(v, lo, hi, Sep::Ws);
    let ghost ps = split_by(v@.subrange(lo as int, hi as int), Sep::Ws);
    let mut r: Vec<(usize, usize)> = Vec::new();
    let mut k: usize = 0;
    while k < pieces.len()
        invariant
            lo <= hi <= v@.len(),
            ranges_are(v@, pieces@, ps, lo as int, hi as int),
            0 <= k <= pieces@.len(),
            ranges_are(v@, r@, nonempty_only(ps.take(k as int)), lo as int, hi as int),
        decreases pieces@.len() - k,
    {
        assert(ps.take(k + 1).drop_last() =~= ps.take(k as int));
        let (a, b) = pieces[k];
        assert(lo <= pieces@[k as int].0 <= pieces@[k as int].1 <= hi);
        assert(v@.subrange(a as int, b as int) == ps[k as int]);
        if a < b {
            r.push((a, b));
        }
        k = k + 1;
    }
    assert(ps.take(pieces@.len() as int) =~= ps);
    r
}

pub open spec fn strip_cr(p: Seq<char>) -> Seq<char> {
    if p.len() > 0 && p.last() == '\r' {
        p.drop_last()
    } else {
        p
    }
}

/// The lines of `s`, as `str::lines` gives them: cut at each `\n`, a `\r` right before
/// it dropped, and no empty last line after a final newline.
pub open spec fn lines(s: Seq<char>) -> Seq<Seq<char>> {
    let ps = split_by(s, Sep::Char('\n'));
    let body = ps.take(ps.len() - 1).map_values(|p: Seq<char>| strip_cr(p));
    if ps.last().len() > 0 {
        body.push(ps.last())
    } else {
        body
    }
}

pub fn line_ranges(v: &Vec<char>, lo: usize, hi: usize) -> (r: Vec<(usize, usize)>)
    requires
        lo <= hi <= v@.len(),
    ensures
        ranges_are(v@, r@, lines(v@.subrange(lo as int, hi as int)), lo as int, hi as int),
{
    let pieces = split_ranges(v, lo, hi, Sep::Char('\n'));
    let ghost ps = split_by(v@.subrange(lo as int, hi as int), Sep::Char('\n'));
    proof {
        lemma_split_nonempty(v@.subrange(lo as int, hi as int), Sep::Char('\n'));
    }
    let n: usize = pieces.len();
    let ghost body = ps.take(ps.len() - 1).map_values(|p: Seq<char>| strip_cr(p));
    let mut r: Vec<(usize, usize)> = Vec::new();
    let mut k: usize = 0;
    while k + 1 < n
        invariant
            lo <= hi <= v@.len(),
            n == pieces@.len(),
            n >= 1,
            ranges_are(v@, pieces@, ps, lo as int, hi as int),
            body == ps.take(ps.len() - 1).map_values(|p: Seq<char>| strip_cr(p)),
            0 <= k < n,
            ranges_are(v@, r@, body.take(k as int), lo as int, hi as int),
        decreases n - k,
    {
        let (a, b) = pieces[k];
        assert(lo <= pieces@[k as int].0 <= pieces@[k as int].1 <= hi);
        assert(v@.subrange(a as int, b as int) == ps[k as int]);
        if a < b && v[b - 1] == '\r' {
            r.push((a, b - 1));
            assert(v@.subrange(a as int, b - 1) =~= ps[k as int].drop_last());
        } else {
            r.push((a, b));
        }
        assert(body.take(k + 1) =~= body.take(k as int).push(body[k as int]));
        k = k + 1;
    }
    assert(body.take(k as int) =~= body);
    let (a, b) = pieces[n - 1];
    assert(lo <= pieces@[n - 1].0 <= pieces@[n - 1].1 <= hi);
    assert(v@.subrange(a as int, b as int) == ps[n - 1]);
    if a < b {
        r.push((a, b));
    }
    r
}

pub open spec fn starts_with(s: Seq<char>, p: Seq<char>) -> bool {
    p.len() <= s.len() && s.take(p.len() as int) == p
}

/// Whether `p` occurs in `s` at some position.
pub open spec fn contains(s: Seq<char>, p: Seq<char>) -> bool {
    exists|i: int| 0 <= i && i + p.len() <= s.len() && #[trigger] s.subrange(i, i + p.len()) == p
}

/// Whether `v[lo..hi]` begins with the text of `p`.
pub fn range_starts_with(v: &Vec<char>, lo: usize, hi: usize, p: &Vec<char>) -> (r: bool)
    requires
        lo <= hi <= v@.len(),
    ensures
        r == starts_with(v@.subrange(lo as int, hi as int), p@),
{
    if p.len() > hi - lo {
        return false;
    }
    let mut i: usize = 0;
    while i < p.len()
        invariant
            lo <= hi <= v@.len(),
            p@.len() <= hi - lo,
            0 <= i <= p@.len(),
            forall|j: int| 0 <= j < i ==> v@[lo + j] == p@[j],
        decreases p@.len() - i,
    {
        if v[lo + i] != p[i] {
            assert(v@.subrange(lo as int, hi as int).take(p@.len() as int)[i as int] != p@[i as int]);
            return false;
        }
        i = i + 1;
    }
    assert(v@.subrange(lo as int, hi as int).take(p@.len() as int) =~= p@);
    true
}

/// Whether `v[lo..hi]` holds exactly the text of `p`.
pub fn range_equals(v: &Vec<char>, lo: usize, hi: usize, p: &Vec<char>) -> (r: bool)
    requires
        lo <= hi <= v@.len(),
    ensures
        r == (v@.subrange(lo as int, hi as int) == p@),
{
    if p.len() != hi - lo {
        return false;
    }
    let b = range_starts_with(v, lo, hi, p);
    assert(v@.subrange(lo as int, hi as int).take(p@.len() as int) =~= v@.subrange(lo as int, hi as int));
    b
}

/// Whether the text of `p` occurs in `v[lo..hi]`.
pub fn range_contains(v: &Vec<char>, lo: usize, hi: usize, p: &Vec<char>) -> (r: bool)
    requires
        lo <= hi <= v@.len(),
    ensures
        r == contains(v@.subrange(lo as int, hi as int), p@),
{
    let ghost s = v@.subrange(lo as int, hi as int);
    if p.len() > hi - lo {
        return false;
    }
    if p.len() == 0 {
        assert(s.subrange(0int, 0int + p@.len()) =~= p@);
        return true;
    }
    let last = hi - p.len();
    let mut i = lo;
    while i <= last
        invariant
            lo <= hi <= v@.len(),
            s == v@.subrange(lo as int, hi as int),
            last + p@.len() == hi,
            p@.len() > 0,
            lo <= i <= last + 1,
            forall|k: int| 0 <= k < i - lo ==> #[trigger] s.subrange(k, k + p@.len()) != p@,
        decreases last + 1 - i,
    {
        let hit = range_starts_with(v, i, hi, p);
        assert(v@.subrange(i as int, hi as int).take(p@.len() as int) =~= s.subrange(i - lo, i - lo + p@.len()));
        if hit {
            return true;
        }
        i = i + 1;
    }
    assert forall|k: int| 0 <= k && k + p@.len() <= s.len() implies #[trigger] s.subrange(k, k + p@.len()) != p@ by {
        assert(k < i - lo);
    }
    false
}

pub open spec fn is_digit(c: char) -> bool {
    '0' <= c && c <= '9'
}

pub open spec fn digit_value(c: char) -> int {
    c as int - '0' as int
}

pub open spec fn all_digits(s: Seq<char>) -> bool {
    forall|i: int| 0 <= i < s.len() ==> is_digit(#[trigger] s[i])
}

/// The number that a string of decimal digits spells.
pub open spec fn digits_value(s: Seq<char>) -> nat
    decreases s.len(),
{
    if s.len() == 0 {
        0
    } else {
        (digits_value(s.drop_last()) * 10 + digit_value(s.last())) as nat
    }
}

/// `s` without one leading `+`, if it has one.
pub open spec fn unsigned_body(s: Seq<char>) -> Seq<char> {
    if s.len() > 0 && s[0] == '+' { s.drop_first() } else { s }
}

/// What `str::parse` gives for an unsigned integer type whose largest value is `max`.
pub open spec fn parse_unsigned(s: Seq<char>, max: int) -> Option<int> {
    let body = unsigned_body(s);
    if body.len() > 0 && all_digits(body) && digits_value(body) <= max {
        Some(digits_value(body) as int)
    } else {
        None
    }
}

/// What `str::parse` gives for a signed integer type with range `min..=max`.
pub open spec fn parse_signed(s: Seq<char>, min: int, max: int) -> Option<int> {
    if s.len() > 0 && s[0] == '-' {
        let body = s.drop_first();
        if body.len() > 0 && all_digits(body) && -digits_value(body) >= min {
            Some(-digits_value(body))
        } else {
            None
        }
    } else {
        parse_unsigned(s, max)
    }
}

proof fn lemma_digits_step(s: Seq<char>, k: int)
    requires
        0 <= k < s.len(),
        all_digits(s),
    ensures
        digits_value(s.take(k + 1)) == digits_value(s.take(k)) * 10 + digit_value(s[k]),
        digits_value(s.take(k + 1)) >= digits_value(s.take(k)),
{
    assert(s.take(k + 1).drop_last() =~= s.take(k));
    assert(is_digit(s[k]));
}

proof fn lemma_digits_grow(s: Seq<char>, k: int)
    requires
        0 <= k <= s.len(),
        all_digits(s),
    ensures
        digits_value(s) >= digits_value(s.take(k)),
    decreases s.len() - k,
{
    if k < s.len() {
        lemma_digits_step(s, k);
        lemma_digits_grow(s, k + 1);
    } else {
        assert(s.take(k) =~= s);
    }
}

/// The value of the decimal digits `v[lo..hi]` when it is at most `max`; `None` when a
/// character is no digit or the value exceeds `max`.
fn digits_at_most(v: &Vec<char>, lo: usize, hi: usize, max: u64) -> (r: Option<u64>)
    requires
        lo <= hi <= v@.len(),
    ensures
        r matches Some(x) ==> all_digits(v@.subrange(lo as int, hi as int))
            && digits_value(v@.subrange(lo as int, hi as int)) == x && x <= max,
        r is None ==> !all_digits(v@.subrange(lo as int, hi as int))
            || digits_value(v@.subrange(lo as int, hi as int)) > max,
{
    let ghost s = v@.subrange(lo as int, hi as int);
    let mut acc: u64 = 0;
    let mut i = lo;
    assert(s.take(0) =~= Seq::<char>::empty());
    while i < hi
        invariant
            lo <= i <= hi <= v@.len(),
            s == v@.subrange(lo as int, hi as int),
            all_digits(s.take(i - lo)),
            digits_value(s.take(i - lo)) == acc,
            acc <= max,
        decreases hi - i,
    {
        let c = v[i];
        if !('0' <= c && c <= '9') {
            assert(!is_digit(s[i - lo]));
            return None;
        }
        let d = (c as u64) - ('0' as u64);
        assert(s.take(i - lo + 1).drop_last() =~= s.take(i - lo));
        assert(all_digits(s.take(i - lo + 1)));
        if d > max || acc > (max - d) / 10 {
            proof {
                assert(digits_value(s.take(i - lo + 1)) == acc * 10 + d);
                assert(acc * 10 + d > max) by (nonlinear_arith)
                    requires d > max || acc > (max - d) / 10, acc >= 0;
                if all_digits(s) {
                    lemma_digits_grow(s, i - lo + 1);
                }
            }
            return None;
        }
        assert(acc * 10 + d <= max) by (nonlinear_arith)
            requires acc <= (max - d) / 10, d <= max;
        acc = acc * 10 + d;
        i = i + 1;
    }
    assert(s.take(hi - lo) =~= s);
    Some(acc)
}

/// `str::parse::<u64>` on `v[lo..hi]`.
pub fn parse_u64_range(v: &Vec<char>, lo: usize, hi: usize) -> (r: Option<u64>)
    requires
        lo <= hi <= v@.len(),
    ensures
        r matches Some(x) ==> parse_unsigned(v@.subrange(lo as int, hi as int), u64::MAX as int) == Some(x as int),
        r is None ==> parse_unsigned(v@.subrange(lo as int, hi as int), u64::MAX as int) is None,
{
    parse_unsigned_range(v, lo, hi, u64::MAX)
}

/// `str::parse::<u32>` on `v[lo..hi]`.
pub fn parse_u32_range(v: &Vec<char>, lo: usize, hi: usize) -> (r: Option<u32>)
    requires
        lo <= hi <= v@.len(),
    ensures
        r matches Some(x) ==> parse_unsigned(v@.subrange(lo as int, hi as int), u32::MAX as int) == Some(x as int),
        r is None ==> parse_unsigned(v@.subrange(lo as int, hi as int), u32::MAX as int) is None,
{
    match parse_unsigned_range(v, lo, hi, u32::MAX as u64) {
        Some(x) => Some(x as u32),
        None => None,
    }
}

fn parse_unsigned_range(v: &Vec<char>, lo: usize, hi: usize, max: u64) -> (r: Option<u64>)
    requires
        lo <= hi <= v@.len(),
    ensures
        r matches Some(x) ==> parse_unsigned(v@.subrange(lo as int, hi as int), max as int) == Some(x as int)
            && x <= max,
        r is None ==> parse_unsigned(v@.subrange(lo as int, hi as int), max as int) is None,
{
    let ghost s = v@.subrange(lo as int, hi as int);
    let start = if lo < hi && v[lo] == '+' { lo + 1 } else { lo };
    assert(unsigned_body(s) =~= v@.subrange(start as int, hi as int));
    if start == hi {
        return None;
    }
    digits_at_most(v, start, hi, max)
}

/// `str::parse::<i64>` on `v[lo..hi]`.
pub fn parse_i64_range(v: &Vec<char>, lo: usize, hi: usize) -> (r: Option<i64>)
    requires
        lo <= hi <= v@.len(),
    ensures
        r matches Some(x) ==> parse_signed(v@.subrange(lo as int, hi as int), i64::MIN as int, i64::MAX as int)
            == Some(x as int),
        r is None ==> parse_signed(v@.subrange(lo as int, hi as int), i64::MIN as int, i64::MAX as int) is None,
{
    let ghost s = v@.subrange(lo as int, hi as int);
    if lo < hi && v[lo] == '-' {
        assert(s.drop_first() =~= v@.subrange(lo + 1, hi as int));
        if lo + 1 == hi {
            return None;
        }
        match digits_at_most(v, lo + 1, hi, 0x8000_0000_0000_0000u64) {
            Some(m) => {
                if m == 0x8000_0000_0000_0000u64 {
                    Some(i64::MIN)
                } else {
                    Some(-(m as i64))
                }
            },
            None => None,
        }
    } else {
        match parse_unsigned_range(v, lo, hi, i64::MAX as u64) {
            Some(x) => Some(x as i64),
            None => None,
        }
    }
}

pub open spec fn digit_char(d: int) -> char {
    if d == 0 { '0' }
    else if d == 1 { '1' }
    else if d == 2 { '2' }
    else if d == 3 { '3' }
    else if d == 4 { '4' }
    else if d == 5 { '5' }
    else if d == 6 { '6' }
    else if d == 7 { '7' }
    else if d == 8 { '8' }
    else { '9' }
}

/// The decimal digits of `n`, as `to_string` writes a number.
pub open spec fn decimal(n: nat) -> Seq<char>
    decreases n,
{
    if n < 10 {
        seq![digit_char(n as int)]
    } else {
        decimal(n / 10).push(digit_char((n % 10) as int))
    }
}

/// The decimal writing of `n` is a non-empty run of digits that reads back as `n`.
pub proof fn lemma_decimal_digits(n: nat)
    ensures
        decimal(n).len() >= 1,
        all_digits(decimal(n)),
        digits_value(decimal(n)) == n,
    decreases n,
{
    if n < 10 {
        let d = decimal(n);
        assert(d.drop_last() =~= Seq::<char>::empty());
        assert(d.last() == digit_char(n as int));
        assert(digit_value(digit_char(n as int)) == n);
        assert(digits_value(d) == digits_value(d.drop_last()) * 10 + digit_value(d.last()));
    } else {
        lemma_decimal_digits(n / 10);
        let d = decimal(n);
        assert(d.drop_last() =~= decimal(n / 10));
        assert(digit_value(digit_char((n % 10) as int)) == n % 10);
        assert(forall|i: int| 0 <= i < d.len() - 1 ==> d[i] == decimal(n / 10)[i]);
        assert(n == (n / 10) * 10 + n % 10) by (nonlinear_arith);
        assert(digits_value(d) == digits_value(d.drop_last()) * 10 + digit_value(d.last()));
    }
}

/// Reading back a number written in decimal gives the number, when it fits.
pub proof fn law_parse_undoes_decimal(n: nat, max: int)
    requires
        n <= max,
    ensures
        parse_unsigned(decimal(n), max) == Some(n as int),
{
    lemma_decimal_digits(n);
    assert(is_digit(decimal(n)[0]));
    assert(unsigned_body(decimal(n)) == decimal(n));
}

/// A signed number in decimal, with a `-` before a negative one.
pub open spec fn signed_decimal(n: int) -> Seq<char> {
    if n < 0 { seq!['-'] + decimal((-n) as nat) } else { decimal(n as nat) }
}

fn digit_char_of(d: u64) -> (c: char)
    requires
        d < 10,
    ensures
        c == digit_char(d as int),
{
    if d == 0 { '0' }
    else if d == 1 { '1' }
    else if d == 2 { '2' }
    else if d == 3 { '3' }
    else if d == 4 { '4' }
    else if d == 5 { '5' }
    else if d == 6 { '6' }
    else if d == 7 { '7' }
    else if d == 8 { '8' }
    else { '9' }
}

/// Appends the decimal digits of `n` to `out`.
pub fn push_decimal(out: &mut String, n: u64)
    ensures
        final(out)@ == old(out)@ + decimal(n as nat),
    decreases n,
{
    if n >= 10 {
        push_decimal(out, n / 10);
    }
    push_char(out, digit_char_of(n % 10));
    proof {
        if n < 10 {
            assert(decimal(n as nat) =~= seq![digit_char(n as int)]);
        }
    }
}

/// Appends `n` in decimal, with a `-` before a negative one.
pub fn push_signed_decimal(out: &mut String, n: i64)
    ensures
        final(out)@ == old(out)@ + signed_decimal(n as int),
{
    if n < 0 {
        push_char(out, '-');
        let m: u64 = if n == i64::MIN { 0x8000_0000_0000_0000u64 } else { (-n) as u64 };
        push_decimal(out, m);
        assert(final(out)@ =~= old(out)@ + signed_decimal(n as int));
    } else {
        push_decimal(out, n as u64);
    }
}

/// `n.to_string()`.
pub fn u64_to_string(n: u64) -> (r: String)
    ensures
        r@ == decimal(n as nat),
{
    let mut r = String::new();
    push_decimal(&mut r, n);
    assert(r@ =~= decimal(n as nat));
    r
}

/// What `str::to_lowercase` returns: the Unicode lower-case mapping of each character,
/// with the final-sigma rule.
pub uninterp spec fn str_lowercase(s: Seq<char>) -> Seq<char>;

/// What `str::to_uppercase` returns: the Unicode upper-case mapping of each character.
pub uninterp spec fn str_uppercase(s: Seq<char>) -> Seq<char>;

/// `str::to_lowercase`; the result is named by `str_lowercase`.
#[verifier::external_body]
pub(crate) fn to_lowercase(s: &str) -> (r: String)
    ensures
        r@ == str_lowercase(s@),
{
    s.to_lowercase()
}

/// `str::to_uppercase`; the result is named by `str_uppercase`.
#[verifier::external_body]
pub(crate) fn to_uppercase(s: &str) -> (r: String)
    ensures
        r@ == str_uppercase(s@),
{
    s.to_uppercase()
}

/// Code-point order on strings, which is the byte order of their UTF-8 encodings and
/// so the order of `str`'s `Ord`.
pub open spec fn seq_lt(a: Seq<char>, b: Seq<char>) -> bool
    decreases a.len(),
{
    if a.len() == 0 {
        b.len() > 0
    } else if b.len() == 0 {
        false
    } else if a[0] != b[0] {
        a[0] < b[0]
    } else {
        seq_lt(a.drop_first(), b.drop_first())
    }
}

pub proof fn lemma_lt_irreflexive(a: Seq<char>)
    ensures
        !seq_lt(a, a),
    decreases a.len(),
{
    if a.len() > 0 {
        lemma_lt_irreflexive(a.drop_first());
    }
}

pub proof fn lemma_lt_asymmetric(a: Seq<char>, b: Seq<char>)
    ensures
        !(seq_lt(a, b) && seq_lt(b, a)),
    decreases a.len(),
{
    if a.len() > 0 && b.len() > 0 && a[0] == b[0] {
        lemma_lt_asymmetric(a.drop_first(), b.drop_first());
    }
}

pub proof fn lemma_lt_transitive(a: Seq<char>, b: Seq<char>, c: Seq<char>)
    requires
        seq_lt(a, b),
        seq_lt(b, c),
    ensures
        seq_lt(a, c),
    decreases a.len(),
{
    if a.len() > 0 && b.len() > 0 && c.len() > 0 && a[0] == b[0] && b[0] == c[0] {
        lemma_lt_transitive(a.drop_first(), b.drop_first(), c.drop_first());
    }
}

pub proof fn lemma_lt_total(a: Seq<char>, b: Seq<char>)
    requires
        a != b,
    ensures
        seq_lt(a, b) || seq_lt(b, a),
    decreases a.len(),
{
    if a.len() > 0 && b.len() > 0 {
        if a[0] == b[0] {
            if a.drop_first() == b.drop_first() {
                assert(a =~= seq![a[0]] + a.drop_first());
                assert(b =~= seq![b[0]] + b.drop_first());
            }
            lemma_lt_total(a.drop_first(), b.drop_first());
        } else {
        }
    } else if a.len() == 0 && b.len() == 0 {
        assert(a =~= b);
    }
}

/// Whether `a` comes before `b` in code-point order.
pub fn chars_less(a: &Vec<char>, b: &Vec<char>) -> (r: bool)
    ensures
        r == seq_lt(a@, b@),
{
    let mut i: usize = 0;
    assert(a@.skip(0) =~= a@);
    assert(b@.skip(0) =~= b@);
    while i < a.len() && i < b.len() && a[i] == b[i]
        invariant
            i <= a@.len(),
            i <= b@.len(),
            seq_lt(a@, b@) == seq_lt(a@.skip(i as int), b@.skip(i as int)),
        decreases a@.len() - i,
    {
        assert(a@.skip(i as int).drop_first() =~= a@.skip(i + 1));
        assert(b@.skip(i as int).drop_first() =~= b@.skip(i + 1));
        i = i + 1;
    }
    if i == a.len() {
        i < b.len()
    } else if i == b.len() {
        false
    } else {
        a[i] < b[i]
    }
}

/// The views of a list of strings.
pub open spec fn views(v: Seq<String>) -> Seq<Seq<char>> {
    v.map_values(|x: String| x@)
}

/// The pieces written one after another with `sep` between each two, as `[&str]::join` does.
pub open spec fn join(ps: Seq<Seq<char>>, sep: Seq<char>) -> Seq<char>
    decreases ps.len(),
{
    if ps.len() == 0 {
        Seq::empty()
    } else if ps.len() == 1 {
        ps[0]
    } else {
        join(ps.drop_last(), sep) + sep + ps.last()
    }
}

/// `parts.join(sep)`.
pub fn join_strings(parts: &Vec<String>, sep: &str) -> (r: String)
    ensures
        r@ == join(views(parts@), sep@),
{
    let mut r = String::new();
    let mut i: usize = 0;
    while i < parts.len()
        invariant
            0 <= i <= parts@.len(),
            r@ == join(views(parts@).take(i as int), sep@),
        decreases parts@.len() - i,
    {
        let ghost before = views(parts@).take(i as int);
        assert(views(parts@).take(i + 1).drop_last() =~= before);
        if i > 0 {
            r.append(sep);
        } else {
            assert(r@ =~= Seq::<char>::empty());
        }
        r.append(parts[i].as_str());
        assert(views(parts@).take(i + 1).last() == parts@[i as int]@);
        if i == 0 {
            assert(r@ =~= views(parts@).take(1)[0]);
        }
        i = i + 1;
    }
    assert(views(parts@).take(parts@.len() as int) =~= views(parts@));
    r
}

/// The `n`-th whitespace-separated word of `s` (`split_whitespace().nth(n)`).
pub open spec fn word_at(s: Seq<char>, n: int) -> Option<Seq<char>> {
    if 0 <= n < words(s).len() { Some(words(s)[n]) } else { None }
}

/// The bounds of the `n`-th word of `v[lo..hi]`, if it has one.
pub fn word_at_range(v: &Vec<char>, lo: usize, hi: usize, n: usize) -> (r: Option<(usize, usize)>)
    requires
        lo <= hi <= v@.len(),
    ensures
        r is Some <==> word_at(v@.subrange(lo as int, hi as int), n as int) is Some,
        r matches Some(p) ==> lo <= p.0 <= p.1 <= hi
            && word_at(v@.subrange(lo as int, hi as int), n as int) == Some(v@.subrange(p.0 as int, p.1 as int)),
{
    let ws = word_ranges(v, lo, hi);
    if n < ws.len() {
        assert(lo <= ws@[n as int].0 <= ws@[n as int].1 <= hi);
        Some(ws[n])
    } else {
        None
    }
}

} // verus!
