//! Byte-sequence ordering and prefix matching.
//!
//! Keys are compared by unsigned byte-wise (lexicographic) order; this total
//! order is what makes all keys sharing a prefix contiguous in a sorted store.

use vstd::prelude::*;

verus! {

/// Strict lexicographic order on byte sequences: `a` comes before `b`.
///
/// The empty sequence comes before every non-empty one; otherwise the first
/// differing byte decides, compared as unsigned values.
pub open spec fn lex_lt(a: Seq<u8>, b: Seq<u8>) -> bool
    decreases a.len(),
{
    if b.len() == 0 {
        false
    } else if a.len() == 0 {
        true
    } else if a[0] < b[0] {
        true
    } else if a[0] > b[0] {
        false
    } else {
        lex_lt(a.drop_first(), b.drop_first())
    }
}

/// `p` is a leading segment of `k`.
pub open spec fn is_prefix_of(p: Seq<u8>, k: Seq<u8>) -> bool {
    p.len() <= k.len() && k.take(p.len() as int) == p
}

/// Strict order is irreflexive.
pub proof fn lemma_lex_lt_irrefl(a: Seq<u8>)
    ensures
        !lex_lt(a, a),
    decreases a.len(),
{
    if a.len() > 0 {
        lemma_lex_lt_irrefl(a.drop_first());
    }
}

/// Strict order is transitive.
pub proof fn lemma_lex_lt_trans(a: Seq<u8>, b: Seq<u8>, c: Seq<u8>)
    requires
        lex_lt(a, b),
        lex_lt(b, c),
    ensures
        lex_lt(a, c),
    decreases a.len(),
{
    if a.len() == 0 {
        // c is non-empty because lex_lt(b, c) holds.
    } else {
        // b and c are non-empty since something precedes each.
        if a[0] == b[0] && b[0] == c[0] {
            lemma_lex_lt_trans(a.drop_first(), b.drop_first(), c.drop_first());
        }
    }
}

/// Any two byte sequences are comparable: if neither precedes the other,
/// they are equal.
pub proof fn lemma_lex_lt_connected(a: Seq<u8>, b: Seq<u8>)
    requires
        !lex_lt(a, b),
        !lex_lt(b, a),
    ensures
        a == b,
    decreases a.len(),
{
    if a.len() == 0 {
        assert(b.len() == 0);
        assert(a =~= b);
    } else {
        assert(b.len() > 0);
        assert(a[0] == b[0]);
        lemma_lex_lt_connected(a.drop_first(), b.drop_first());
        assert(a.drop_first() =~= b.drop_first());
        assert(a.len() == b.len());
        assert forall|i: int| 0 <= i < a.len() implies a[i] == b[i] by {
            if i > 0 {
                assert(a[i] == a.drop_first()[i - 1]);
                assert(b[i] == b.drop_first()[i - 1]);
            }
        }
        assert(a =~= b);
    }
}

/// The strict order is asymmetric.
pub proof fn lemma_lex_lt_asym(a: Seq<u8>, b: Seq<u8>)
    requires
        lex_lt(a, b),
    ensures
        !lex_lt(b, a),
{
    if lex_lt(b, a) {
        lemma_lex_lt_trans(a, b, a);
        lemma_lex_lt_irrefl(a);
    }
}

/// Distinct sequences under the strict order are not equal.
pub proof fn lemma_lex_lt_neq(a: Seq<u8>, b: Seq<u8>)
    requires
        lex_lt(a, b),
    ensures
        a != b,
{
    if a == b {
        lemma_lex_lt_irrefl(a);
    }
}

/// Dropping an equal first byte on both sides keeps the order unchanged.
proof fn lemma_lex_lt_skip_one(a: Seq<u8>, b: Seq<u8>, i: int)
    requires
        0 <= i < a.len(),
        0 <= i < b.len(),
        a[i] == b[i],
    ensures
        lex_lt(a.skip(i), b.skip(i)) == lex_lt(a.skip(i + 1), b.skip(i + 1)),
{
    assert(a.skip(i).len() > 0);
    assert(b.skip(i).len() > 0);
    assert(a.skip(i)[0] == a[i]);
    assert(b.skip(i)[0] == b[i]);
    assert(a.skip(i).drop_first() =~= a.skip(i + 1));
    assert(b.skip(i).drop_first() =~= b.skip(i + 1));
}

/// Decides the strict lexicographic order on byte slices.
pub fn lex_lt_bytes(a: &[u8], b: &[u8]) -> (r: bool)
    ensures
        r == lex_lt(a@, b@),
{
    let alen = a.len();
    let blen = b.len();
    let m = if alen < blen {
        alen
    } else {
        blen
    };
    proof {
        assert(a@.skip(0) =~= a@);
        assert(b@.skip(0) =~= b@);
    }
    let mut i: usize = 0;
    while i < m
        invariant
            0 <= i <= m,
            alen == a@.len(),
            blen == b@.len(),
            m <= alen,
            m <= blen,
            lex_lt(a@, b@) == lex_lt(a@.skip(i as int), b@.skip(i as int)),
        decreases m - i,
    {
        let av = a[i];
        let bv = b[i];
        if av < bv {
            proof {
                assert(a@.skip(i as int)[0] == av);
                assert(b@.skip(i as int)[0] == bv);
                assert(lex_lt(a@.skip(i as int), b@.skip(i as int)));
            }
            return true;
        }
        if av > bv {
            proof {
                assert(a@.skip(i as int)[0] == av);
                assert(b@.skip(i as int)[0] == bv);
                assert(!lex_lt(a@.skip(i as int), b@.skip(i as int)));
            }
            return false;
        }
        proof {
            lemma_lex_lt_skip_one(a@, b@, i as int);
        }
        i = i + 1;
    }
    proof {
        if alen < blen {
            assert(a@.skip(m as int).len() == 0);
            assert(b@.skip(m as int).len() > 0);
            assert(lex_lt(a@.skip(m as int), b@.skip(m as int)));
        } else {
            assert(b@.skip(m as int).len() == 0);
            assert(!lex_lt(a@.skip(m as int), b@.skip(m as int)));
        }
    }
    alen < blen
}

/// Decides equality of byte slices.
pub fn bytes_eq(a: &[u8], b: &[u8]) -> (r: bool)
    ensures
        r == (a@ == b@),
{
    if a.len() != b.len() {
        return false;
    }
    let mut i: usize = 0;
    while i < a.len()
        invariant
            a@.len() == b@.len(),
            0 <= i <= a@.len(),
            forall|j: int| 0 <= j < i ==> a@[j] == b@[j],
        decreases a@.len() - i,
    {
        if a[i] != b[i] {
            return false;
        }
        i = i + 1;
    }
    proof {
        assert(a@ =~= b@);
    }
    true
}

/// Decides whether `key` begins with `prefix`.
pub fn starts_with(key: &[u8], prefix: &[u8]) -> (r: bool)
    ensures
        r == is_prefix_of(prefix@, key@),
{
    if prefix.len() > key.len() {
        return false;
    }
    let mut i: usize = 0;
    while i < prefix.len()
        invariant
            prefix@.len() <= key@.len(),
            0 <= i <= prefix@.len(),
            forall|j: int| 0 <= j < i ==> key@[j] == prefix@[j],
        decreases prefix@.len() - i,
    {
        if key[i] != prefix[i] {
            proof {
                assert(key@.take(prefix@.len() as int)[i as int] == key@[i as int]);
            }
            return false;
        }
        i = i + 1;
    }
    proof {
        assert(key@.take(prefix@.len() as int) =~= prefix@);
    }
    true
}

} // verus!
