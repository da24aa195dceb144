//! Session ids: a prefix, a dash and a running number.
use vstd::prelude::*;
use crate::text::{decimal, digit_char, push_decimal};

verus! {

/// The id `<prefix>-<n>`.
pub open spec fn session_id(prefix: Seq<char>, n: nat) -> Seq<char> {
    prefix + "-"@ + decimal(n)
}

/// `format!("{}-{}", prefix, n)`.
pub fn make_id(prefix: &str, n: u64) -> (r: String)
    ensures
        r@ == session_id(prefix@, n as nat),
{
    let mut r = String::new();
    r.append(prefix);
    r.append("-");
    push_decimal(&mut r, n);
    assert(r@ =~= session_id(prefix@, n as nat));
    r
}

proof fn lemma_digit_char_injective(a: int, b: int)
    requires
        0 <= a < 10,
        0 <= b < 10,
        digit_char(a) == digit_char(b),
    ensures
        a == b,
{
}

pub proof fn lemma_decimal_len(n: nat)
    ensures
        decimal(n).len() >= 1,
        n >= 10 ==> decimal(n).len() >= 2,
    decreases n,
{
    if n >= 10 {
        lemma_decimal_len(n / 10);
    }
}

/// Different numbers are written differently.
pub proof fn lemma_decimal_injective(a: nat, b: nat)
    requires
        decimal(a) == decimal(b),
    ensures
        a == b,
    decreases a,
{
    lemma_decimal_len(a);
    lemma_decimal_len(b);
    if a < 10 && b < 10 {
        assert(decimal(a) =~= seq![digit_char(a as int)]);
        assert(decimal(b) =~= seq![digit_char(b as int)]);
        assert(decimal(a)[0] == decimal(b)[0]);
        assert(seq![digit_char(a as int)][0] == digit_char(a as int));
        assert(seq![digit_char(b as int)][0] == digit_char(b as int));
        assert(digit_char(a as int) == digit_char(b as int));
        lemma_digit_char_injective(a as int, b as int);
    } else if a >= 10 && b >= 10 {
        let da = decimal(a);
        let db = decimal(b);
        assert(da.last() == db.last());
        assert(da.drop_last() =~= decimal(a / 10));
        assert(db.drop_last() =~= decimal(b / 10));
        lemma_digit_char_injective((a % 10) as int, (b % 10) as int);
        lemma_decimal_injective(a / 10, b / 10);
    }
}

/// Two ids with prefixes of one length are equal only when their numbers are.
pub proof fn lemma_session_id_injective(p: Seq<char>, q: Seq<char>, a: nat, b: nat)
    requires
        p.len() == q.len(),
        session_id(p, a) == session_id(q, b),
    ensures
        a == b,
        p == q,
{
    reveal_strlit("-");
    let sa = session_id(p, a);
    let sb = session_id(q, b);
    let k = p.len() + 1;
    assert(sa.skip(k as int) =~= decimal(a));
    assert(sb.skip(k as int) =~= decimal(b));
    lemma_decimal_injective(a, b);
    assert(sa.take(p.len() as int) =~= p);
    assert(sb.take(q.len() as int) =~= q);
}

/// Ids are never handed out twice: numbered ids with prefixes of one length differ
/// whenever their numbers or their prefixes do.
pub proof fn law_ids_never_repeat(p: Seq<char>, q: Seq<char>, a: nat, b: nat)
    requires
        p.len() == q.len(),
        a != b || p != q,
    ensures
        session_id(p, a) != session_id(q, b),
{
    if session_id(p, a) == session_id(q, b) {
        lemma_session_id_injective(p, q, a, b);
    }
}

} // verus!
