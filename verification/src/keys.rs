//! The byte-lexicographic order on keys.

use vstd::prelude::*;

verus! {

/// `a` comes strictly before `b`: either `a` is a proper prefix of `b`, or at
/// the first position where the two differ `a` holds the smaller byte.
pub open spec fn key_lt(a: Seq<u8>, b: Seq<u8>) -> bool {
    exists|k: int| is_split(a, b, k)
}

/// Position `k` witnesses that `a` comes before `b`: the two agree on
/// everything before `k`, and at `k` either `a` ends or holds the smaller byte.
pub open spec fn is_split(a: Seq<u8>, b: Seq<u8>, k: int) -> bool {
    &&& 0 <= k <= a.len()
    &&& k < b.len()
    &&& forall|j: int| 0 <= j < k ==> a[j] == b[j]
    &&& (k < a.len() ==> a[k] < b[k])
}

/// `a` comes before `b` or equals it.
pub open spec fn key_le(a: Seq<u8>, b: Seq<u8>) -> bool {
    a == b || key_lt(a, b)
}

/// The order is transitive.
pub proof fn lemma_key_lt_transitive(a: Seq<u8>, b: Seq<u8>, c: Seq<u8>)
    requires
        key_lt(a, b),
        key_lt(b, c),
    ensures
        key_lt(a, c),
{
    let k1 = choose|k: int| is_split(a, b, k);
    let k2 = choose|k: int| is_split(b, c, k);
    let k = if k1 <= k2 { k1 } else { k2 };
    assert(is_split(a, c, k));
}

proof fn lemma_compare_from(a: Seq<u8>, b: Seq<u8>, i: int)
    requires
        0 <= i <= a.len(),
        i <= b.len(),
        forall|j: int| 0 <= j < i ==> a[j] == b[j],
    ensures
        key_lt(a, b) || a == b || key_lt(b, a),
    decreases a.len() - i,
{
    if i == a.len() {
        if i == b.len() {
            assert(a =~= b);
        } else {
            assert(is_split(a, b, i));
        }
    } else if i == b.len() {
        assert(is_split(b, a, i));
    } else if a[i] < b[i] {
        assert(is_split(a, b, i));
    } else if b[i] < a[i] {
        assert(is_split(b, a, i));
    } else {
        lemma_compare_from(a, b, i + 1);
    }
}

/// The order is total: of two keys one comes first, or they are equal.
pub proof fn lemma_key_lt_total(a: Seq<u8>, b: Seq<u8>)
    ensures
        key_lt(a, b) || a == b || key_lt(b, a),
{
    lemma_compare_from(a, b, 0);
}

/// Whether `a` comes strictly before `b` in byte-lexicographic order.
pub fn key_less(a: &[u8], b: &[u8]) -> (r: bool)
    ensures
        r == key_lt(a@, b@),
{
    let mut i: usize = 0;
    while i < a.len() && i < b.len()
        invariant
            i <= a.len(),
            i <= b.len(),
            forall|j: int| 0 <= j < i ==> a@[j] == b@[j],
        decreases a.len() - i,
    {
        if a[i] < b[i] {
            assert(is_split(a@, b@, i as int));
            return true;
        }
        if a[i] > b[i] {
            return false;
        }
        i = i + 1;
    }
    if i < b.len() {
        assert(is_split(a@, b@, i as int));
        true
    } else {
        false
    }
}

/// Whether two keys hold the same bytes.
pub fn key_equal(a: &[u8], b: &[u8]) -> (r: bool)
    ensures
        r == (a@ == b@),
{
    if a.len() != b.len() {
        return false;
    }
    let mut i: usize = 0;
    while i < a.len()
        invariant
            a.len() == b.len(),
            i <= a.len(),
            forall|j: int| 0 <= j < i ==> a@[j] == b@[j],
        decreases a.len() - i,
    {
        if a[i] != b[i] {
            return false;
        }
        i = i + 1;
    }
    assert(a@ =~= b@);
    true
}

/// The order in which pending pairs leave a merge: by key, and among equal
/// keys by value.
pub open spec fn pair_lt(a: (Seq<u8>, u64), b: (Seq<u8>, u64)) -> bool {
    key_lt(a.0, b.0) || (a.0 == b.0 && a.1 < b.1)
}

/// `a` does not come after `b`.
pub open spec fn pair_le(a: (Seq<u8>, u64), b: (Seq<u8>, u64)) -> bool {
    !pair_lt(b, a)
}

/// `pair_le` is transitive.
pub proof fn lemma_pair_le_transitive(a: (Seq<u8>, u64), b: (Seq<u8>, u64), c: (Seq<u8>, u64))
    requires
        pair_le(a, b),
        pair_le(b, c),
    ensures
        pair_le(a, c),
{
    lemma_key_lt_total(a.0, b.0);
    lemma_key_lt_total(b.0, c.0);
}

/// A pair that does not come after another has a key that is at most the
/// other's.
pub proof fn lemma_pair_le_key_le(a: (Seq<u8>, u64), b: (Seq<u8>, u64))
    requires
        pair_le(a, b),
    ensures
        key_le(a.0, b.0),
{
    lemma_key_lt_total(a.0, b.0);
}

} // verus!
