//! Byte strings in lexicographic order, the order in which a column family
//! files its keys.

use vstd::prelude::*;

verus! {

/// `a` and `b` agree on every position before `i`.
pub open spec fn agree_before(a: Seq<u8>, b: Seq<u8>, i: int) -> bool {
    forall|j: int| 0 <= j < i ==> a[j] == b[j]
}

/// Lexicographic comparison of the tails of `a` and `b` that start at `i`.
pub open spec fn lex_lt_from(a: Seq<u8>, b: Seq<u8>, i: int) -> bool
    decreases b.len() - i,
{
    if i < 0 || i >= b.len() {
        false
    } else if i >= a.len() {
        true
    } else if a[i] != b[i] {
        a[i] < b[i]
    } else {
        lex_lt_from(a, b, i + 1)
    }
}

/// `a` comes strictly before `b` in lexicographic order: at the first
/// position where they differ `a` holds the smaller byte, or `a` is a proper
/// prefix of `b`.
pub open spec fn lex_lt(a: Seq<u8>, b: Seq<u8>) -> bool {
    lex_lt_from(a, b, 0)
}

/// `a` comes before `b` or equals it.
pub open spec fn lex_le(a: Seq<u8>, b: Seq<u8>) -> bool {
    a == b || lex_lt(a, b)
}

proof fn lemma_from_irreflexive(a: Seq<u8>, i: int)
    requires
        0 <= i,
    ensures
        !lex_lt_from(a, a, i),
    decreases a.len() - i,
{
    if i < a.len() {
        lemma_from_irreflexive(a, i + 1);
    }
}

proof fn lemma_from_trichotomy(a: Seq<u8>, b: Seq<u8>, i: int)
    requires
        0 <= i <= a.len(),
        i <= b.len(),
        agree_before(a, b, i),
    ensures
        lex_lt_from(a, b, i) || lex_lt_from(b, a, i) || a == b,
        !(lex_lt_from(a, b, i) && lex_lt_from(b, a, i)),
        a == b ==> !lex_lt_from(a, b, i),
    decreases a.len() - i,
{
    if i < a.len() && i < b.len() {
        if a[i] == b[i] {
            lemma_from_trichotomy(a, b, i + 1);
        }
    } else if i == a.len() && i == b.len() {
        assert(a =~= b);
    }
    if a == b {
        lemma_from_irreflexive(a, i);
    }
}

proof fn lemma_from_transitive(a: Seq<u8>, b: Seq<u8>, c: Seq<u8>, i: int)
    requires
        0 <= i,
        lex_lt_from(a, b, i),
        lex_lt_from(b, c, i),
    ensures
        lex_lt_from(a, c, i),
    decreases c.len() - i,
{
    if i < a.len() && a[i] == b[i] && b[i] == c[i] {
        lemma_from_transitive(a, b, c, i + 1);
    }
}

/// No byte string comes before itself.
pub proof fn lemma_lex_irreflexive(a: Seq<u8>)
    ensures
        !lex_lt(a, a),
{
    lemma_from_irreflexive(a, 0);
}

/// Of two byte strings exactly one holds: the first comes before the second,
/// the second before the first, or they are equal.
pub proof fn lemma_lex_trichotomy(a: Seq<u8>, b: Seq<u8>)
    ensures
        lex_lt(a, b) || lex_lt(b, a) || a == b,
        !(lex_lt(a, b) && lex_lt(b, a)),
        a == b ==> !lex_lt(a, b) && !lex_lt(b, a),
{
    lemma_from_trichotomy(a, b, 0);
    lemma_from_trichotomy(b, a, 0);
}

/// The order is transitive.
pub proof fn lemma_lex_transitive(a: Seq<u8>, b: Seq<u8>, c: Seq<u8>)
    requires
        lex_lt(a, b),
        lex_lt(b, c),
    ensures
        lex_lt(a, c),
{
    lemma_from_transitive(a, b, c, 0);
}

/// `lex_le` followed by `lex_lt`, or the other way round, gives `lex_lt`.
pub proof fn lemma_lex_le_lt(a: Seq<u8>, b: Seq<u8>, c: Seq<u8>)
    requires
        (lex_le(a, b) && lex_lt(b, c)) || (lex_lt(a, b) && lex_le(b, c)),
    ensures
        lex_lt(a, c),
{
    if a != b && b != c {
        lemma_lex_transitive(a, b, c);
    }
}

/// Whether `a` and `b` hold the same bytes.
pub fn bytes_eq(a: &[u8], b: &[u8]) -> (r: bool)
    ensures
        r == (a@ == b@),
{
    if a.len() != b.len() {
        return false;
    }
    let mut i: usize = 0;
    while i < a.len()
        invariant
            i <= a.len(),
            a.len() == b.len(),
            agree_before(a@, b@, i as int),
        decreases a.len() - i,
    {
        if a[i] != b[i] {
            return false;
        }
        i += 1;
    }
    assert(a@ =~= b@);
    true
}

/// Whether `a` comes strictly before `b` in lexicographic order.
pub fn bytes_lt(a: &[u8], b: &[u8]) -> (r: bool)
    ensures
        r == lex_lt(a@, b@),
{
    let mut i: usize = 0;
    while i < a.len() && i < b.len()
        invariant
            i <= a.len(),
            i <= b.len(),
            lex_lt(a@, b@) == lex_lt_from(a@, b@, i as int),
        decreases a.len() - i,
    {
        if a[i] != b[i] {
            return a[i] < b[i];
        }
        i += 1;
    }
    i < b.len()
}

} // verus!
