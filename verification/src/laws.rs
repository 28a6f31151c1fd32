//! The laws of merging: which keys a union and an intersection hand out over
//! their whole run, in which order, and with which contributions.

use vstd::prelude::*;
use crate::keys::key_lt;
use crate::lemmas::{
    lemma_advance, lemma_advance_decreases, lemma_common_advance_decreases,
    lemma_count_contributors, lemma_drop_through_head, lemma_drop_through_keys,
    lemma_drop_through_pairs, lemma_drop_through_twice, lemma_least_common_key_exists,
    lemma_least_head_is_least_in_any, lemma_least_key_exists, lemma_missing_contributor,
};
use crate::model::{
    all_ascending, ascending, contributes, copies, drop_all_through, drop_through, exhausted,
    has_key, in_all, in_any, intersection_keys, is_contribution_list, is_least_in_all,
    is_least_in_any, intersection_state, keys_of, least_common_key, least_key, strictly_ascending,
    total_len, union_keys, union_state,
};
use crate::ops::FstOutput;

verus! {

/// A union whose streams are exhausted hands out nothing more; otherwise it
/// hands out the smallest key and then what it hands out from the advanced
/// state on.
pub proof fn lemma_union_keys_step(ss: Seq<Seq<(Seq<u8>, u64)>>, k: Seq<u8>)
    requires
        all_ascending(ss),
    ensures
        exhausted(ss) ==> union_keys(ss) == Seq::<Seq<u8>>::empty(),
        is_least_in_any(ss, k) ==> union_keys(ss) == seq![k] + union_keys(
            drop_all_through(ss, k),
        ),
{
    if is_least_in_any(ss, k) {
        lemma_advance(ss, k);
    }
}

/// An intersection whose streams have no key in common hands out nothing
/// more; otherwise it hands out the smallest common key and then what it
/// hands out from the advanced state on.
pub proof fn lemma_intersection_keys_step(ss: Seq<Seq<(Seq<u8>, u64)>>, k: Seq<u8>)
    requires
        all_ascending(ss),
    ensures
        (forall|k2: Seq<u8>| !in_all(ss, k2)) ==> intersection_keys(ss) == Seq::<Seq<u8>>::empty(),
        is_least_in_all(ss, k) ==> intersection_keys(ss) == seq![k] + intersection_keys(
            drop_all_through(ss, k),
        ),
{
    if is_least_in_all(ss, k) {
        lemma_advance(ss, k);
    }
}

/// The union hands out exactly the keys that at least one stream holds, in
/// strictly ascending order and so each of them once.
pub proof fn lemma_union_keys(ss: Seq<Seq<(Seq<u8>, u64)>>)
    requires
        all_ascending(ss),
    ensures
        strictly_ascending(union_keys(ss)),
        forall|k: Seq<u8>| union_keys(ss).contains(k) <==> in_any(ss, k),
    decreases total_len(ss),
{
    let u = union_keys(ss);
    if !exhausted(ss) {
        lemma_least_key_exists(ss);
        let k0 = least_key(ss);
        let d = drop_all_through(ss, k0);
        lemma_advance_decreases(ss, k0);
        lemma_advance(ss, k0);
        lemma_union_keys(d);
        let t = union_keys(d);
        assert forall|i: int, j: int| 0 <= i < j < u.len() implies key_lt(u[i], u[j]) by {
            assert(in_any(d, t[j - 1]));
        }
        assert forall|k: Seq<u8>| u.contains(k) <==> in_any(ss, k) by {
            if u.contains(k) {
                let i = choose|i: int| 0 <= i < u.len() && u[i] == k;
                if i > 0 {
                    assert(in_any(d, k));
                }
            }
            if in_any(ss, k) {
                if k == k0 {
                    assert(u[0] == k);
                } else {
                    assert(in_any(d, k));
                    let i = choose|i: int| 0 <= i < t.len() && t[i] == k;
                    assert(u[i + 1] == k);
                }
            }
        }
    }
}

/// The intersection hands out exactly the keys that every stream holds, in
/// strictly ascending order and so each of them once.
pub proof fn lemma_intersection_keys(ss: Seq<Seq<(Seq<u8>, u64)>>)
    requires
        all_ascending(ss),
    ensures
        strictly_ascending(intersection_keys(ss)),
        forall|k: Seq<u8>| intersection_keys(ss).contains(k) <==> in_all(ss, k),
    decreases total_len(ss),
{
    let u = intersection_keys(ss);
    if exists|k: Seq<u8>| in_all(ss, k) {
        lemma_least_common_key_exists(ss);
        let k0 = least_common_key(ss);
        let d = drop_all_through(ss, k0);
        lemma_common_advance_decreases(ss, k0);
        lemma_advance(ss, k0);
        lemma_intersection_keys(d);
        let t = intersection_keys(d);
        assert forall|i: int, j: int| 0 <= i < j < u.len() implies key_lt(u[i], u[j]) by {
            assert(in_all(d, t[j - 1]));
        }
        assert forall|k: Seq<u8>| u.contains(k) <==> in_all(ss, k) by {
            if u.contains(k) {
                let i = choose|i: int| 0 <= i < u.len() && u[i] == k;
                if i > 0 {
                    assert(in_all(d, k));
                }
            }
            if in_all(ss, k) {
                if k == k0 {
                    assert(u[0] == k);
                } else {
                    assert(in_all(d, k));
                    let i = choose|i: int| 0 <= i < t.len() && t[i] == k;
                    assert(u[i + 1] == k);
                }
            }
        }
    }
}

/// Once a union has handed out its key number `m`, it hands out the keys
/// that follow: its state is then that of all streams advanced past that
/// key.
pub proof fn lemma_union_keys_from(ss: Seq<Seq<(Seq<u8>, u64)>>, m: int)
    requires
        all_ascending(ss),
        0 <= m < union_keys(ss).len(),
    ensures
        union_keys(drop_all_through(ss, union_keys(ss)[m])) == union_keys(ss).skip(m + 1),
    decreases m,
{
    let u = union_keys(ss);
    let k0 = least_key(ss);
    let d = drop_all_through(ss, k0);
    lemma_advance(ss, k0);
    if m > 0 {
        lemma_union_keys_from(d, m - 1);
        let k = u[m];
        lemma_union_keys(d);
        assert(in_any(d, k));
        assert(drop_all_through(d, k) =~= drop_all_through(ss, k)) by {
            assert forall|i: int| 0 <= i < ss.len() implies drop_through(d[i], k) == drop_through(
                ss[i],
                k,
            ) by {
                lemma_drop_through_twice(ss[i], k0, k);
            }
        }
    }
}

/// Once an intersection has handed out its key number `m`, it hands out the
/// keys that follow: its state is then that of all streams advanced past
/// that key.
pub proof fn lemma_intersection_keys_from(ss: Seq<Seq<(Seq<u8>, u64)>>, m: int)
    requires
        all_ascending(ss),
        0 <= m < intersection_keys(ss).len(),
    ensures
        intersection_keys(drop_all_through(ss, intersection_keys(ss)[m])) == intersection_keys(
            ss,
        ).skip(m + 1),
    decreases m,
{
    let u = intersection_keys(ss);
    let k0 = least_common_key(ss);
    let d = drop_all_through(ss, k0);
    lemma_advance(ss, k0);
    if m > 0 {
        lemma_intersection_keys_from(d, m - 1);
        let k = u[m];
        lemma_intersection_keys(d);
        assert(in_all(d, k));
        assert(drop_all_through(d, k) =~= drop_all_through(ss, k)) by {
            assert forall|i: int| 0 <= i < ss.len() implies drop_through(d[i], k) == drop_through(
                ss[i],
                k,
            ) by {
                lemma_drop_through_twice(ss[i], k0, k);
            }
        }
    }
}

/// When a union is asked for its key number `m`, that key is the smallest
/// that its state holds, the keys it will hand out from there are those from
/// number `m` on, and advancing past the key gives the next state.
pub proof fn lemma_union_state(ss: Seq<Seq<(Seq<u8>, u64)>>, m: int)
    requires
        all_ascending(ss),
        0 <= m < union_keys(ss).len(),
    ensures
        all_ascending(union_state(ss, m)),
        is_least_in_any(union_state(ss, m), union_keys(ss)[m]),
        union_keys(union_state(ss, m)) == union_keys(ss).skip(m),
        drop_all_through(union_state(ss, m), union_keys(ss)[m]) == union_state(ss, m + 1),
{
    let u = union_keys(ss);
    let st = union_state(ss, m);
    if m > 0 {
        lemma_advance(ss, u[m - 1]);
        lemma_union_keys_from(ss, m - 1);
        lemma_union_keys(ss);
        assert(drop_all_through(st, u[m]) =~= drop_all_through(ss, u[m])) by {
            assert forall|i: int| 0 <= i < ss.len() implies drop_through(st[i], u[m])
                == drop_through(ss[i], u[m]) by {
                lemma_drop_through_twice(ss[i], u[m - 1], u[m]);
            }
        }
    }
    lemma_least_key_exists(st);
    assert(union_keys(st)[0] == least_key(st));
}

/// When an intersection is asked for its key number `m`, that key is the
/// smallest that all streams of its state hold, the keys it will hand out
/// from there are those from number `m` on, and advancing past the key gives
/// the next state.
pub proof fn lemma_intersection_state(ss: Seq<Seq<(Seq<u8>, u64)>>, m: int)
    requires
        all_ascending(ss),
        0 <= m < intersection_keys(ss).len(),
    ensures
        all_ascending(intersection_state(ss, m)),
        is_least_in_all(intersection_state(ss, m), intersection_keys(ss)[m]),
        intersection_keys(intersection_state(ss, m)) == intersection_keys(ss).skip(m),
        drop_all_through(intersection_state(ss, m), intersection_keys(ss)[m])
            == intersection_state(ss, m + 1),
{
    let u = intersection_keys(ss);
    let st = intersection_state(ss, m);
    if m > 0 {
        lemma_advance(ss, u[m - 1]);
        lemma_intersection_keys_from(ss, m - 1);
        lemma_intersection_keys(ss);
        assert(drop_all_through(st, u[m]) =~= drop_all_through(ss, u[m])) by {
            assert forall|i: int| 0 <= i < ss.len() implies drop_through(st[i], u[m])
                == drop_through(ss[i], u[m]) by {
                lemma_drop_through_twice(ss[i], u[m - 1], u[m]);
            }
        }
    }
    lemma_least_common_key_exists(st);
    assert(intersection_keys(st)[0] == least_common_key(st));
}

/// The contributions that a union hands out with its key number `m` name
/// exactly the input streams that hold the key, each with the value it gives.
pub proof fn lemma_union_contributions(
    ss: Seq<Seq<(Seq<u8>, u64)>>,
    m: int,
    outs: Seq<FstOutput>,
)
    requires
        all_ascending(ss),
        0 <= m < union_keys(ss).len(),
        is_contribution_list(outs, union_state(ss, m), union_keys(ss)[m]),
    ensures
        is_contribution_list(outs, ss, union_keys(ss)[m]),
        forall|i: int|
            0 <= i < ss.len() ==> (contributes(outs, i) <==> has_key(
                #[trigger] ss[i],
                union_keys(ss)[m],
            )),
{
    let u = union_keys(ss);
    let k = u[m];
    if m > 0 {
        lemma_union_keys(ss);
        lemma_contributions_after_advance(outs, ss, u[m - 1], k);
    }
}

/// The contributions that an intersection hands out with its key number `m`
/// are one of each input stream, each with the value that the stream gives
/// for the key.
pub proof fn lemma_intersection_contributions(
    ss: Seq<Seq<(Seq<u8>, u64)>>,
    m: int,
    outs: Seq<FstOutput>,
)
    requires
        all_ascending(ss),
        0 <= m < intersection_keys(ss).len(),
        is_contribution_list(outs, intersection_state(ss, m), intersection_keys(ss)[m]),
    ensures
        is_contribution_list(outs, ss, intersection_keys(ss)[m]),
        outs.len() == ss.len(),
        forall|i: int| 0 <= i < ss.len() ==> #[trigger] contributes(outs, i),
{
    let u = intersection_keys(ss);
    let k = u[m];
    lemma_intersection_keys(ss);
    if m > 0 {
        lemma_contributions_after_advance(outs, ss, u[m - 1], k);
    }
    assert(u.contains(k));
    assert(in_all(ss, k));
    lemma_contributions_of_all(outs, ss, k);
    assert forall|i: int| 0 <= i < ss.len() implies #[trigger] contributes(outs, i) by {
        assert(has_key(ss[i], k));
    }
}

/// The contributions to a key are the same whether taken from the streams
/// as they were or from the streams advanced past an earlier key.
pub proof fn lemma_contributions_after_advance(
    outs: Seq<FstOutput>,
    ss: Seq<Seq<(Seq<u8>, u64)>>,
    k0: Seq<u8>,
    k: Seq<u8>,
)
    requires
        all_ascending(ss),
        key_lt(k0, k),
    ensures
        is_contribution_list(outs, drop_all_through(ss, k0), k) <==> is_contribution_list(
            outs,
            ss,
            k,
        ),
{
    let d = drop_all_through(ss, k0);
    assert forall|i: int| 0 <= i < ss.len() implies (has_key(#[trigger] d[i], k) <==> has_key(
        ss[i],
        k,
    )) by {
        lemma_drop_through_keys(ss[i], k0, k);
    }
    assert forall|j: int|
        0 <= j < outs.len() && 0 <= (#[trigger] outs[j]).index < ss.len() implies (
    d[outs[j].index as int].contains((k, outs[j].output)) <==> ss[outs[j].index as int].contains(
        (k, outs[j].output),
    )) by {
        lemma_drop_through_pairs(ss[outs[j].index as int], k0, (k, outs[j].output));
    }
    if is_contribution_list(outs, d, k) {
        assert forall|i: int| 0 <= i < ss.len() && has_key(#[trigger] ss[i], k) implies contributes(
            outs,
            i,
        ) by {
            assert(has_key(d[i], k));
        }
    }
}

/// The contributions to a key that every stream holds are as many as there
/// are streams.
pub proof fn lemma_contributions_of_all(
    outs: Seq<FstOutput>,
    ss: Seq<Seq<(Seq<u8>, u64)>>,
    k: Seq<u8>,
)
    requires
        is_contribution_list(outs, ss, k),
        in_all(ss, k),
    ensures
        outs.len() == ss.len(),
{
    lemma_count_contributors(outs, ss.len() as int);
    if outs.len() < ss.len() {
        lemma_missing_contributor(outs, ss.len() as int);
        let i = choose|i: int| 0 <= i < ss.len() && !contributes(outs, i);
        assert(has_key(ss[i], k));
    }
}

/// The union and the intersection of one stream alone, or of several copies
/// of it, hand out that stream's keys, and every copy holds each of them.
pub proof fn lemma_copies(s: Seq<(Seq<u8>, u64)>, n: nat)
    requires
        ascending(s),
        n >= 1,
    ensures
        union_keys(copies(s, n)) == keys_of(s),
        intersection_keys(copies(s, n)) == keys_of(s),
        forall|k: Seq<u8>| in_any(copies(s, n), k) ==> in_all(copies(s, n), k),
    decreases s.len(),
{
    let ss = copies(s, n);
    if s.len() == 0 {
        assert forall|k: Seq<u8>| !in_all(ss, k) by {
            if in_all(ss, k) {
                assert(has_key(ss[0], k));
            }
        }
    } else {
        let k = s[0].0;
        let t = s.skip(1);
        lemma_least_head_is_least_in_any(ss, 0);
        assert(is_least_in_all(ss, k));
        lemma_drop_through_head(s, k);
        assert(drop_all_through(ss, k) =~= copies(t, n));
        lemma_copies(t, n);
    }
}

/// The contributions to a key of `n` copies of one stream are `n`, one of
/// each copy.
pub proof fn lemma_copies_contributions(
    s: Seq<(Seq<u8>, u64)>,
    n: nat,
    k: Seq<u8>,
    outs: Seq<FstOutput>,
)
    requires
        n >= 1,
        has_key(s, k),
        is_contribution_list(outs, copies(s, n), k),
    ensures
        outs.len() == n,
        forall|i: int| 0 <= i < n ==> #[trigger] contributes(outs, i),
{
    let ss = copies(s, n);
    assert(in_all(ss, k));
    lemma_contributions_of_all(outs, ss, k);
    assert forall|i: int| 0 <= i < n implies #[trigger] contributes(outs, i) by {
        assert(has_key(ss[i], k));
    }
}

/// Of no streams at all, the union and the intersection hand out nothing.
pub proof fn lemma_no_streams()
    ensures
        union_keys(Seq::empty()) == Seq::<Seq<u8>>::empty(),
        intersection_keys(Seq::empty()) == Seq::<Seq<u8>>::empty(),
{
}

} // verus!
