//! Lexicographic order on byte strings, the order in which identifiers are
//! kept and hashed.

use vstd::prelude::*;

verus! {

/// How one byte string stands to another in lexicographic order.
#[derive(Clone, Copy, Debug, PartialEq, Eq, Structural)]
pub enum LexOrder {
    Less,
    Equal,
    Greater,
}

/// The first position at or after `i` where `a` and `b` stop agreeing:
/// either one of them ends there, or their bytes differ.
pub open spec fn mismatch_from(a: Seq<u8>, b: Seq<u8>, i: int) -> int
    decreases a.len() - i,
{
    if 0 <= i < a.len() && i < b.len() && a[i] == b[i] {
        mismatch_from(a, b, i + 1)
    } else {
        i
    }
}

/// The length of the longest common prefix of `a` and `b`.
pub open spec fn common_prefix(a: Seq<u8>, b: Seq<u8>) -> int {
    mismatch_from(a, b, 0)
}

/// `a` comes strictly before `b`: at the end of their common prefix either
/// `a` has ended and `b` has not, or `a` holds the smaller byte.
pub open spec fn lex_lt(a: Seq<u8>, b: Seq<u8>) -> bool {
    let p = common_prefix(a, b);
    p < b.len() && (p == a.len() || a[p] < b[p])
}

/// The order of `a` relative to `b`.
pub open spec fn lex_order(a: Seq<u8>, b: Seq<u8>) -> LexOrder {
    if a == b {
        LexOrder::Equal
    } else if lex_lt(a, b) {
        LexOrder::Less
    } else {
        LexOrder::Greater
    }
}

proof fn lemma_mismatch_from(a: Seq<u8>, b: Seq<u8>, i: int)
    requires
        0 <= i <= a.len(),
        i <= b.len(),
    ensures
        i <= mismatch_from(a, b, i) <= a.len(),
        mismatch_from(a, b, i) <= b.len(),
        forall|j: int| i <= j < mismatch_from(a, b, i) ==> a[j] == b[j],
        mismatch_from(a, b, i) < a.len() && mismatch_from(a, b, i) < b.len() ==> a[mismatch_from(
            a,
            b,
            i,
        )] != b[mismatch_from(a, b, i)],
    decreases a.len() - i,
{
    if i < a.len() && i < b.len() && a[i] == b[i] {
        lemma_mismatch_from(a, b, i + 1);
    }
}

/// The common prefix is a prefix of both strings, and it is the longest one.
pub proof fn lemma_common_prefix(a: Seq<u8>, b: Seq<u8>)
    ensures
        0 <= common_prefix(a, b) <= a.len(),
        common_prefix(a, b) <= b.len(),
        forall|j: int| 0 <= j < common_prefix(a, b) ==> a[j] == b[j],
        common_prefix(a, b) < a.len() && common_prefix(a, b) < b.len() ==> a[common_prefix(a, b)]
            != b[common_prefix(a, b)],
{
    lemma_mismatch_from(a, b, 0);
}

/// A position up to which the two strings agree, and at which they differ or
/// one of them ends, is the length of their common prefix.
pub proof fn lemma_common_prefix_unique(a: Seq<u8>, b: Seq<u8>, p: int)
    requires
        0 <= p <= a.len(),
        p <= b.len(),
        forall|j: int| 0 <= j < p ==> a[j] == b[j],
        p < a.len() && p < b.len() ==> a[p] != b[p],
    ensures
        common_prefix(a, b) == p,
{
    lemma_common_prefix(a, b);
    let q = common_prefix(a, b);
    if q < p {
        assert(a[q] == b[q]);
    } else if p < q {
        assert(a[p] == b[p]);
    }
}

/// Two strings whose common prefix covers both are the same string.
pub proof fn lemma_full_prefix_is_equality(a: Seq<u8>, b: Seq<u8>)
    ensures
        a == b <==> (common_prefix(a, b) == a.len() && a.len() == b.len()),
{
    lemma_common_prefix(a, b);
    if common_prefix(a, b) == a.len() && a.len() == b.len() {
        assert(a =~= b);
    }
}

/// No string comes before itself.
pub proof fn lemma_lex_lt_irreflexive(a: Seq<u8>)
    ensures
        !lex_lt(a, a),
{
    lemma_common_prefix_unique(a, a, a.len() as int);
}

/// Of two different strings exactly one comes before the other.
pub proof fn lemma_lex_lt_total(a: Seq<u8>, b: Seq<u8>)
    ensures
        a != b ==> (lex_lt(a, b) <==> !lex_lt(b, a)),
        a == b ==> !lex_lt(a, b) && !lex_lt(b, a),
{
    lemma_common_prefix(a, b);
    lemma_common_prefix_unique(b, a, common_prefix(a, b));
    lemma_full_prefix_is_equality(a, b);
    lemma_lex_lt_irreflexive(a);
}

/// The order is transitive.
pub proof fn lemma_lex_lt_transitive(a: Seq<u8>, b: Seq<u8>, c: Seq<u8>)
    requires
        lex_lt(a, b),
        lex_lt(b, c),
    ensures
        lex_lt(a, c),
{
    lemma_common_prefix(a, b);
    lemma_common_prefix(b, c);
    let p = common_prefix(a, b);
    let q = common_prefix(b, c);
    let r = if p <= q { p } else { q };
    assert forall|j: int| 0 <= j < r implies a[j] == c[j] by {
        assert(a[j] == b[j]);
        assert(b[j] == c[j]);
    }
    if p < q {
        assert(b[p] == c[p]);
    } else if q < p {
        assert(a[q] == b[q]);
    }
    lemma_common_prefix_unique(a, c, r);
}

/// Compares two byte strings lexicographically.
pub fn lex_compare(a: &[u8], b: &[u8]) -> (r: LexOrder)
    ensures
        r == lex_order(a@, b@),
{
    let mut i: usize = 0;
    while i < a.len() && i < b.len() && a[i] == b[i]
        invariant
            i <= a.len(),
            i <= b.len(),
            forall|j: int| 0 <= j < i ==> a@[j] == b@[j],
        decreases a.len() - i,
    {
        i += 1;
    }
    proof {
        lemma_common_prefix_unique(a@, b@, i as int);
        lemma_full_prefix_is_equality(a@, b@);
    }
    if i == a.len() {
        if i == b.len() {
            LexOrder::Equal
        } else {
            LexOrder::Less
        }
    } else if i == b.len() {
        LexOrder::Greater
    } else if a[i] < b[i] {
        LexOrder::Less
    } else {
        LexOrder::Greater
    }
}

/// Whether two byte strings are the same.
pub fn bytes_equal(a: &[u8], b: &[u8]) -> (r: bool)
    ensures
        r == (a@ == b@),
{
    lex_compare(a, b) == LexOrder::Equal
}

} // verus!
