//! Facts about the model that the proofs of the merge and of its laws rest
//! on.

use vstd::prelude::*;
use vstd::set_lib::{lemma_int_range, lemma_len_subset, lemma_subset_equality, set_int_range};
use crate::keys::{key_le, key_lt, lemma_key_lt_total, lemma_key_lt_transitive};
use crate::model::{
    all_ascending, ascending, contributes, contributors, drop_all_through, drop_through, exhausted,
    has_key, in_all, in_any, is_least_in_all, is_least_in_any, is_suffix, least_common_key,
    least_key, total_len,
};
use crate::ops::FstOutput;

verus! {

/// A sequence whose neighbours are in order is ascending as a whole.
pub proof fn lemma_adjacent_ascending(s: Seq<(Seq<u8>, u64)>)
    requires
        forall|j: int| 0 < j < s.len() ==> key_lt(#[trigger] s[j - 1].0, s[j].0),
    ensures
        ascending(s),
{
    assert forall|i: int, j: int| 0 <= i < j < s.len() implies key_lt(
        #[trigger] s[i].0,
        #[trigger] s[j].0,
    ) by {
        lemma_adjacent_range(s, i, j);
    }
}

/// In a sequence whose neighbours are in order, an earlier key comes before
/// a later one.
proof fn lemma_adjacent_range(s: Seq<(Seq<u8>, u64)>, i: int, j: int)
    requires
        forall|j: int| 0 < j < s.len() ==> key_lt(#[trigger] s[j - 1].0, s[j].0),
        0 <= i < j < s.len(),
    ensures
        key_lt(s[i].0, s[j].0),
    decreases j - i,
{
    if i < j - 1 {
        lemma_adjacent_range(s, i, j - 1);
        lemma_key_lt_transitive(s[i].0, s[j - 1].0, s[j].0);
    }
}

/// Replacing one stream changes the total by the difference in length.
pub proof fn lemma_total_len_update(
    ss: Seq<Seq<(Seq<u8>, u64)>>,
    i: int,
    s: Seq<(Seq<u8>, u64)>,
)
    requires
        0 <= i < ss.len(),
    ensures
        total_len(ss.update(i, s)) == total_len(ss) - ss[i].len() + s.len(),
    decreases ss.len(),
{
    let t = ss.update(i, s);
    if i == ss.len() - 1 {
        assert(t.drop_last() =~= ss.drop_last());
    } else {
        assert(t.drop_last() =~= ss.drop_last().update(i, s));
        lemma_total_len_update(ss.drop_last(), i, s);
    }
}

/// Advancing an ascending stream past the key at its head drops that one
/// pair.
pub proof fn lemma_drop_through_head(s: Seq<(Seq<u8>, u64)>, k: Seq<u8>)
    requires
        ascending(s),
        s.len() > 0,
        s[0].0 == k,
    ensures
        drop_through(s, k) == s.skip(1),
{
    let t = s.skip(1);
    assert(drop_through(t, k) == t);
}

/// The head that no other head comes before is the smallest key of all
/// streams.
pub proof fn lemma_least_head_is_least_in_any(ss: Seq<Seq<(Seq<u8>, u64)>>, w: int)
    requires
        all_ascending(ss),
        0 <= w < ss.len(),
        ss[w].len() > 0,
        forall|i: int|
            0 <= i < ss.len() && (#[trigger] ss[i]).len() > 0 ==> key_le(ss[w][0].0, ss[i][0].0),
    ensures
        is_least_in_any(ss, ss[w][0].0),
{
    let k = ss[w][0].0;
    assert forall|k2: Seq<u8>| #[trigger] in_any(ss, k2) implies key_le(k, k2) by {
        let i = choose|i: int| 0 <= i < ss.len() && has_key(#[trigger] ss[i], k2);
        if key_lt(k, ss[i][0].0) && key_lt(ss[i][0].0, k2) {
            lemma_key_lt_transitive(k, ss[i][0].0, k2);
        }
    }
}

/// Advancing a stream leaves a suffix of it.
pub proof fn lemma_drop_through_suffix(s: Seq<(Seq<u8>, u64)>, k: Seq<u8>)
    ensures
        is_suffix(drop_through(s, k), s),
    decreases s.len(),
{
    if s.len() > 0 && !key_lt(k, s[0].0) {
        lemma_drop_through_suffix(s.skip(1), k);
        let m = choose|m: int|
            0 <= m <= s.skip(1).len() && drop_through(s.skip(1), k) == #[trigger] s.skip(1).skip(m);
        assert(s.skip(1).skip(m) =~= s.skip(m + 1));
    } else {
        assert(s.skip(0) =~= s);
    }
}

/// A suffix of a suffix is a suffix.
pub proof fn lemma_suffix_transitive(
    u: Seq<(Seq<u8>, u64)>,
    t: Seq<(Seq<u8>, u64)>,
    s: Seq<(Seq<u8>, u64)>,
)
    requires
        is_suffix(u, t),
        is_suffix(t, s),
    ensures
        is_suffix(u, s),
{
    let a = choose|m: int| 0 <= m <= s.len() && t == #[trigger] s.skip(m);
    let b = choose|m: int| 0 <= m <= t.len() && u == #[trigger] t.skip(m);
    assert(s.skip(a).skip(b) =~= s.skip(a + b));
}

/// Whatever a suffix holds, the whole holds, and a suffix of an ascending
/// stream is ascending.
pub proof fn lemma_suffix_holds(t: Seq<(Seq<u8>, u64)>, s: Seq<(Seq<u8>, u64)>)
    requires
        is_suffix(t, s),
    ensures
        forall|k: Seq<u8>| has_key(t, k) ==> #[trigger] has_key(s, k),
        forall|e: (Seq<u8>, u64)| t.contains(e) ==> #[trigger] s.contains(e),
        ascending(s) ==> ascending(t),
        t.len() <= s.len(),
{
}

/// Advancing an ascending stream past `k` keeps every key that comes after
/// `k`, and nothing else.
pub proof fn lemma_drop_through_keys(s: Seq<(Seq<u8>, u64)>, k: Seq<u8>, k2: Seq<u8>)
    requires
        ascending(s),
    ensures
        has_key(drop_through(s, k), k2) <==> has_key(s, k2) && key_lt(k, k2),
    decreases s.len(),
{
    if s.len() > 0 && !key_lt(k, s[0].0) {
        let t = s.skip(1);
        lemma_drop_through_keys(t, k, k2);
        if has_key(s, k2) && key_lt(k, k2) {
            let p = choose|p: int| 0 <= p < s.len() && (#[trigger] s[p]).0 == k2;
            if p > 0 {
                assert(t[p - 1].0 == k2);
            }
        }
    } else if has_key(s, k2) && key_lt(s[0].0, k2) {
        lemma_key_lt_transitive(k, s[0].0, k2);
    }
}

/// Advancing an ascending stream past `k` gives the same whether or not
/// pairs that come before `k` were dropped first.
pub proof fn lemma_drop_through_of_suffix(
    t: Seq<(Seq<u8>, u64)>,
    s: Seq<(Seq<u8>, u64)>,
    k: Seq<u8>,
)
    requires
        ascending(s),
        is_suffix(t, s),
        has_key(t, k),
    ensures
        drop_through(t, k) == drop_through(s, k),
    decreases s.len(),
{
    let m = choose|m: int| 0 <= m <= s.len() && t == #[trigger] s.skip(m);
    if m == 0 {
        assert(s.skip(0) =~= s);
    } else {
        let s1 = s.skip(1);
        assert(s1.skip(m - 1) =~= s.skip(m));
        lemma_drop_through_of_suffix(t, s1, k);
    }
}

/// Contributions of distinct streams out of `n` are at most `n`, and where
/// they are `n` each stream has its own.
pub proof fn lemma_count_contributors(outs: Seq<FstOutput>, n: int)
    requires
        0 <= n,
        forall|j: int| 0 <= j < outs.len() ==> 0 <= (#[trigger] outs[j]).index < n,
        forall|a: int, b: int|
            0 <= a < b < outs.len() ==> (#[trigger] outs[a]).index != (#[trigger] outs[b]).index,
    ensures
        outs.len() <= n,
        outs.len() == n ==> forall|i: int| 0 <= i < n ==> #[trigger] contributes(outs, i),
{
    let idx = contributors(outs);
    idx.unique_seq_to_set();
    lemma_int_range(0, n);
    lemma_len_subset(idx.to_set(), set_int_range(0, n));
    if outs.len() == n {
        lemma_subset_equality(idx.to_set(), set_int_range(0, n));
        assert forall|i: int| 0 <= i < n implies #[trigger] contributes(outs, i) by {
            assert(set_int_range(0, n).contains(i));
        }
    }
}

/// Contributions of fewer distinct streams than there are leave some stream
/// without one.
pub proof fn lemma_missing_contributor(outs: Seq<FstOutput>, n: int)
    requires
        forall|j: int| 0 <= j < outs.len() ==> 0 <= (#[trigger] outs[j]).index < n,
        outs.len() < n,
    ensures
        exists|i: int| 0 <= i < n && !contributes(outs, i),
{
    if forall|i: int| 0 <= i < n ==> contributes(outs, i) {
        let idx = contributors(outs);
        lemma_int_range(0, n);
        assert(set_int_range(0, n).subset_of(idx.to_set())) by {
            assert forall|i: int| set_int_range(0, n).contains(i) implies idx.to_set().contains(
                i,
            ) by {
                assert(contributes(outs, i));
                let j = choose|j: int| 0 <= j < outs.len() && (#[trigger] outs[j]).index == i;
                assert(idx[j] == i);
            }
        }
        idx.lemma_cardinality_of_set();
        lemma_len_subset(set_int_range(0, n), idx.to_set());
    }
}

/// Streams that are no longer than others, one of them shorter, hold fewer
/// pairs in total.
proof fn lemma_total_len_less(
    a: Seq<Seq<(Seq<u8>, u64)>>,
    b: Seq<Seq<(Seq<u8>, u64)>>,
    w: int,
)
    requires
        a.len() == b.len(),
        forall|i: int| 0 <= i < a.len() ==> (#[trigger] a[i]).len() <= b[i].len(),
        0 <= w < a.len(),
        a[w].len() < b[w].len(),
    ensures
        total_len(a) < total_len(b),
    decreases a.len(),
{
    lemma_total_len_le(a.drop_last(), b.drop_last());
    if w < a.len() - 1 {
        lemma_total_len_less(a.drop_last(), b.drop_last(), w);
    }
}

/// Streams that are no longer than others hold no more pairs in total.
proof fn lemma_total_len_le(a: Seq<Seq<(Seq<u8>, u64)>>, b: Seq<Seq<(Seq<u8>, u64)>>)
    requires
        a.len() == b.len(),
        forall|i: int| 0 <= i < a.len() ==> (#[trigger] a[i]).len() <= b[i].len(),
    ensures
        total_len(a) <= total_len(b),
    decreases a.len(),
{
    if a.len() > 0 {
        lemma_total_len_le(a.drop_last(), b.drop_last());
    }
}

/// Advancing ascending streams leaves them ascending, and what each holds
/// is what it held with a key beyond `k`.
pub proof fn lemma_advance(ss: Seq<Seq<(Seq<u8>, u64)>>, k: Seq<u8>)
    requires
        all_ascending(ss),
    ensures
        all_ascending(drop_all_through(ss, k)),
        forall|k2: Seq<u8>|
            #![trigger in_any(drop_all_through(ss, k), k2)]
            in_any(drop_all_through(ss, k), k2) <==> in_any(ss, k2) && key_lt(k, k2),
        forall|k2: Seq<u8>|
            #![trigger in_all(drop_all_through(ss, k), k2)]
            in_all(drop_all_through(ss, k), k2) <==> in_all(ss, k2) && key_lt(k, k2),
{
    let d = drop_all_through(ss, k);
    assert forall|i: int| 0 <= i < d.len() implies ascending(#[trigger] d[i]) by {
        lemma_drop_through_suffix(ss[i], k);
    }
    assert forall|k2: Seq<u8>|
        #![trigger in_any(drop_all_through(ss, k), k2)]
        in_any(d, k2) <==> in_any(ss, k2) && key_lt(k, k2) by {
        if in_any(d, k2) {
            let i = choose|i: int| 0 <= i < d.len() && has_key(#[trigger] d[i], k2);
            lemma_drop_through_keys(ss[i], k, k2);
        }
        if in_any(ss, k2) && key_lt(k, k2) {
            let i = choose|i: int| 0 <= i < ss.len() && has_key(#[trigger] ss[i], k2);
            lemma_drop_through_keys(ss[i], k, k2);
            assert(has_key(d[i], k2));
        }
    }
    assert forall|k2: Seq<u8>|
        #![trigger in_all(drop_all_through(ss, k), k2)]
        in_all(d, k2) <==> in_all(ss, k2) && key_lt(k, k2) by {
        if in_all(d, k2) {
            assert forall|i: int| 0 <= i < ss.len() implies has_key(#[trigger] ss[i], k2) by {
                assert(has_key(d[i], k2));
                lemma_drop_through_keys(ss[i], k, k2);
            }
            assert(has_key(d[0], k2));
            lemma_drop_through_keys(ss[0], k, k2);
        }
        if in_all(ss, k2) && key_lt(k, k2) {
            assert forall|i: int| 0 <= i < d.len() implies has_key(#[trigger] d[i], k2) by {
                lemma_drop_through_keys(ss[i], k, k2);
            }
        }
    }
}

/// Advancing past a key that some stream holds at its head leaves fewer
/// pairs.
pub proof fn lemma_advance_decreases(ss: Seq<Seq<(Seq<u8>, u64)>>, k: Seq<u8>)
    requires
        all_ascending(ss),
        is_least_in_any(ss, k),
    ensures
        total_len(drop_all_through(ss, k)) < total_len(ss),
{
    let d = drop_all_through(ss, k);
    let w = choose|i: int| 0 <= i < ss.len() && has_key(#[trigger] ss[i], k);
    assert(in_any(ss, ss[w][0].0));
    lemma_drop_through_head(ss[w], k);
    assert forall|i: int| 0 <= i < d.len() implies (#[trigger] d[i]).len() <= ss[i].len() by {
        lemma_drop_through_suffix(ss[i], k);
    }
    lemma_total_len_less(d, ss, w);
}

/// Advancing past a key that all streams hold leaves fewer pairs.
pub proof fn lemma_common_advance_decreases(ss: Seq<Seq<(Seq<u8>, u64)>>, k: Seq<u8>)
    requires
        all_ascending(ss),
        in_all(ss, k),
    ensures
        total_len(drop_all_through(ss, k)) < total_len(ss),
{
    let d = drop_all_through(ss, k);
    assert forall|i: int| 0 <= i < d.len() implies (#[trigger] d[i]).len() <= ss[i].len() by {
        lemma_drop_through_suffix(ss[i], k);
    }
    lemma_drop_through_keys(ss[0], k, k);
    if d[0].len() == ss[0].len() {
        lemma_drop_through_suffix(ss[0], k);
        assert(ss[0].skip(0) =~= ss[0]);
    }
    lemma_total_len_less(d, ss, 0);
}

/// Among the first `n` streams, if any has something left, one has a head
/// that no other head among them comes before.
proof fn lemma_least_head_among(ss: Seq<Seq<(Seq<u8>, u64)>>, n: int) -> (w: int)
    requires
        0 <= n <= ss.len(),
        exists|i: int| 0 <= i < n && (#[trigger] ss[i]).len() > 0,
    ensures
        0 <= w < n,
        ss[w].len() > 0,
        forall|i: int|
            0 <= i < n && (#[trigger] ss[i]).len() > 0 ==> key_le(ss[w][0].0, ss[i][0].0),
    decreases n,
{
    let last = n - 1;
    if exists|i: int| 0 <= i < last && (#[trigger] ss[i]).len() > 0 {
        let v = lemma_least_head_among(ss, last);
        if ss[last].len() > 0 && key_lt(ss[last][0].0, ss[v][0].0) {
            assert forall|i: int| 0 <= i < n && (#[trigger] ss[i]).len() > 0 implies key_le(
                ss[last][0].0,
                ss[i][0].0,
            ) by {
                if i < last && key_lt(ss[v][0].0, ss[i][0].0) {
                    lemma_key_lt_transitive(ss[last][0].0, ss[v][0].0, ss[i][0].0);
                }
            }
            last
        } else {
            if ss[last].len() > 0 {
                lemma_key_lt_total(ss[last][0].0, ss[v][0].0);
            }
            v
        }
    } else {
        last
    }
}

/// Streams of which one has something left hold a smallest key.
pub proof fn lemma_least_key_exists(ss: Seq<Seq<(Seq<u8>, u64)>>)
    requires
        all_ascending(ss),
        !exhausted(ss),
    ensures
        is_least_in_any(ss, least_key(ss)),
{
    let w = lemma_least_head_among(ss, ss.len() as int);
    lemma_least_head_is_least_in_any(ss, w);
}

/// From position `p` of the first stream on, if a key is held by all
/// streams, there is a smallest such key.
proof fn lemma_least_common_from(ss: Seq<Seq<(Seq<u8>, u64)>>, p: int, k0: Seq<u8>) -> (k: Seq<
    u8,
>)
    requires
        all_ascending(ss),
        in_all(ss, k0),
        0 <= p < ss[0].len(),
        forall|q: int| 0 <= q < p ==> !in_all(ss, (#[trigger] ss[0][q]).0),
    ensures
        is_least_in_all(ss, k),
    decreases ss[0].len() - p,
{
    let s = ss[0];
    if in_all(ss, s[p].0) {
        s[p].0
    } else {
        lemma_least_common_from(ss, p + 1, k0)
    }
}

/// Streams that have a key in common have a smallest one.
pub proof fn lemma_least_common_key_exists(ss: Seq<Seq<(Seq<u8>, u64)>>)
    requires
        all_ascending(ss),
        exists|k: Seq<u8>| in_all(ss, k),
    ensures
        is_least_in_all(ss, least_common_key(ss)),
{
    let k0 = choose|k: Seq<u8>| in_all(ss, k);
    lemma_least_common_from(ss, 0, k0);
}

/// Advancing an ascending stream past a key and then past a later one gives
/// what advancing past the later one gives.
pub proof fn lemma_drop_through_twice(s: Seq<(Seq<u8>, u64)>, k1: Seq<u8>, k2: Seq<u8>)
    requires
        ascending(s),
        key_le(k1, k2),
    ensures
        drop_through(drop_through(s, k1), k2) == drop_through(s, k2),
    decreases s.len(),
{
    if s.len() > 0 && !key_lt(k1, s[0].0) {
        let t = s.skip(1);
        lemma_drop_through_twice(t, k1, k2);
        if key_lt(k2, s[0].0) && k1 != k2 {
            lemma_key_lt_transitive(k1, k2, s[0].0);
        }
    }
}

/// What an ascending stream advanced past `k0` gives for a later key is what
/// the stream itself gives for it.
pub proof fn lemma_drop_through_pairs(s: Seq<(Seq<u8>, u64)>, k0: Seq<u8>, e: (Seq<u8>, u64))
    requires
        ascending(s),
        key_lt(k0, e.0),
    ensures
        drop_through(s, k0).contains(e) <==> s.contains(e),
    decreases s.len(),
{
    if s.len() > 0 && !key_lt(k0, s[0].0) {
        let t = s.skip(1);
        lemma_drop_through_pairs(t, k0, e);
        if s.contains(e) {
            let p = choose|p: int| 0 <= p < s.len() && s[p] == e;
            if p > 0 {
                assert(t[p - 1] == e);
            }
        }
    }
}

} // verus!
