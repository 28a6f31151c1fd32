//! The mathematical model of sorted streams and of merging them.
//!
//! A stream is modelled by the sequence of `(key, value)` pairs it has yet to
//! produce; a merge is modelled by one such sequence per input stream.
//! `union_keys` and `intersection_keys` list the keys that a cursor hands out
//! from a given state on, call after call.

use vstd::prelude::*;
use crate::keys::{key_le, key_lt};
use crate::lemmas::{
    lemma_advance_decreases, lemma_common_advance_decreases, lemma_least_common_key_exists,
    lemma_least_key_exists,
};
use crate::ops::FstOutput;

verus! {

/// The pairs of `s` come in strictly ascending key order.
pub open spec fn ascending(s: Seq<(Seq<u8>, u64)>) -> bool {
    forall|i: int, j: int| 0 <= i < j < s.len() ==> key_lt(#[trigger] s[i].0, #[trigger] s[j].0)
}

/// Every stream of `ss` is ascending.
pub open spec fn all_ascending(ss: Seq<Seq<(Seq<u8>, u64)>>) -> bool {
    forall|i: int| 0 <= i < ss.len() ==> ascending(#[trigger] ss[i])
}

/// Some pair of `s` carries the key `k`.
pub open spec fn has_key(s: Seq<(Seq<u8>, u64)>, k: Seq<u8>) -> bool {
    exists|p: int| 0 <= p < s.len() && (#[trigger] s[p]).0 == k
}

/// At least one stream of `ss` holds the key `k`.
pub open spec fn in_any(ss: Seq<Seq<(Seq<u8>, u64)>>, k: Seq<u8>) -> bool {
    exists|i: int| 0 <= i < ss.len() && has_key(#[trigger] ss[i], k)
}

/// There is at least one stream, and every stream of `ss` holds the key `k`.
pub open spec fn in_all(ss: Seq<Seq<(Seq<u8>, u64)>>, k: Seq<u8>) -> bool {
    &&& ss.len() > 0
    &&& forall|i: int| 0 <= i < ss.len() ==> has_key(#[trigger] ss[i], k)
}

/// `k` is the smallest key held by any stream of `ss`.
pub open spec fn is_least_in_any(ss: Seq<Seq<(Seq<u8>, u64)>>, k: Seq<u8>) -> bool {
    &&& in_any(ss, k)
    &&& forall|k2: Seq<u8>| #[trigger] in_any(ss, k2) ==> key_le(k, k2)
}

/// `k` is the smallest key held by every stream of `ss`.
pub open spec fn is_least_in_all(ss: Seq<Seq<(Seq<u8>, u64)>>, k: Seq<u8>) -> bool {
    &&& in_all(ss, k)
    &&& forall|k2: Seq<u8>| #[trigger] in_all(ss, k2) ==> key_le(k, k2)
}

/// No stream of `ss` has anything left.
pub open spec fn exhausted(ss: Seq<Seq<(Seq<u8>, u64)>>) -> bool {
    forall|i: int| 0 <= i < ss.len() ==> (#[trigger] ss[i]).len() == 0
}

/// `s` without its leading pairs whose key is at most `k`. On an ascending
/// stream these are all the pairs whose key is at most `k`.
pub open spec fn drop_through(s: Seq<(Seq<u8>, u64)>, k: Seq<u8>) -> Seq<(Seq<u8>, u64)>
    decreases s.len(),
{
    if s.len() > 0 && !key_lt(k, s[0].0) {
        drop_through(s.skip(1), k)
    } else {
        s
    }
}

/// Every stream of `ss` advanced past the key `k`.
pub open spec fn drop_all_through(ss: Seq<Seq<(Seq<u8>, u64)>>, k: Seq<u8>) -> Seq<
    Seq<(Seq<u8>, u64)>,
> {
    Seq::new(ss.len(), |i: int| drop_through(ss[i], k))
}

/// `t` is what is left of `s` after some of its leading pairs are gone.
pub open spec fn is_suffix(t: Seq<(Seq<u8>, u64)>, s: Seq<(Seq<u8>, u64)>) -> bool {
    exists|m: int| 0 <= m <= s.len() && t == #[trigger] s.skip(m)
}

/// The number of pairs left in all streams of `ss` together.
pub open spec fn total_len(ss: Seq<Seq<(Seq<u8>, u64)>>) -> nat
    decreases ss.len(),
{
    if ss.len() == 0 {
        0
    } else {
        total_len(ss.drop_last()) + ss.last().len()
    }
}

/// `outs` holds a contribution of the stream `i`.
pub open spec fn contributes(outs: Seq<FstOutput>, i: int) -> bool {
    exists|j: int| 0 <= j < outs.len() && (#[trigger] outs[j]).index == i
}

/// `outs` lists the streams of `ss` that hold the key `k`: each of them
/// once, none else, each with the value that the stream gives for `k`, and
/// in ascending order of these values.
pub open spec fn is_contribution_list(
    outs: Seq<FstOutput>,
    ss: Seq<Seq<(Seq<u8>, u64)>>,
    k: Seq<u8>,
) -> bool {
    &&& forall|j: int|
        0 <= j < outs.len() ==> {
            &&& 0 <= (#[trigger] outs[j]).index < ss.len()
            &&& ss[outs[j].index as int].contains((k, outs[j].output))
        }
    &&& forall|a: int, b: int|
        0 <= a < b < outs.len() ==> (#[trigger] outs[a]).index != (#[trigger] outs[b]).index
    &&& forall|i: int| 0 <= i < ss.len() && has_key(#[trigger] ss[i], k) ==> contributes(outs, i)
    &&& forall|a: int, b: int|
        0 <= a < b < outs.len() ==> (#[trigger] outs[a]).output <= (#[trigger] outs[b]).output
}

/// The ordinals that a list of contributions names.
pub open spec fn contributors(outs: Seq<FstOutput>) -> Seq<int> {
    Seq::new(outs.len(), |j: int| outs[j].index as int)
}

/// The keys of `keys` come in strictly ascending order, so none comes twice.
pub open spec fn strictly_ascending(keys: Seq<Seq<u8>>) -> bool {
    forall|i: int, j: int| 0 <= i < j < keys.len() ==> key_lt(keys[i], keys[j])
}

/// The smallest key that any stream of `ss` holds.
pub open spec fn least_key(ss: Seq<Seq<(Seq<u8>, u64)>>) -> Seq<u8> {
    choose|k: Seq<u8>| is_least_in_any(ss, k)
}

/// The smallest key that every stream of `ss` holds.
pub open spec fn least_common_key(ss: Seq<Seq<(Seq<u8>, u64)>>) -> Seq<u8> {
    choose|k: Seq<u8>| is_least_in_all(ss, k)
}

/// The keys that a union hands out, in order, from the state `ss` on: the
/// smallest key of all, then what the union hands out once every stream is
/// advanced past that key.
pub open spec fn union_keys(ss: Seq<Seq<(Seq<u8>, u64)>>) -> Seq<Seq<u8>>
    decreases total_len(ss),
    when all_ascending(ss)
{
    if exhausted(ss) {
        Seq::empty()
    } else {
        proof {
            lemma_least_key_exists(ss);
            lemma_advance_decreases(ss, least_key(ss));
        }
        seq![least_key(ss)] + union_keys(drop_all_through(ss, least_key(ss)))
    }
}

/// The keys that an intersection hands out, in order, from the state `ss`
/// on: the smallest key that all streams hold, then what the intersection
/// hands out once every stream is advanced past that key.
pub open spec fn intersection_keys(ss: Seq<Seq<(Seq<u8>, u64)>>) -> Seq<Seq<u8>>
    decreases total_len(ss),
    when all_ascending(ss)
{
    if exists|k: Seq<u8>| in_all(ss, k) {
        proof {
            lemma_least_common_key_exists(ss);
            lemma_common_advance_decreases(ss, least_common_key(ss));
        }
        seq![least_common_key(ss)] + intersection_keys(
            drop_all_through(ss, least_common_key(ss)),
        )
    } else {
        Seq::empty()
    }
}

/// The state of a union of the streams `ss` when it is asked for its key
/// number `m`, counted from zero: the streams as they are at first, and later
/// advanced past the key handed out before.
pub open spec fn union_state(ss: Seq<Seq<(Seq<u8>, u64)>>, m: int) -> Seq<Seq<(Seq<u8>, u64)>> {
    if m <= 0 {
        ss
    } else {
        drop_all_through(ss, union_keys(ss)[m - 1])
    }
}

/// The state of an intersection of the streams `ss` when it is asked for its
/// key number `m`, counted from zero.
pub open spec fn intersection_state(ss: Seq<Seq<(Seq<u8>, u64)>>, m: int) -> Seq<
    Seq<(Seq<u8>, u64)>,
> {
    if m <= 0 {
        ss
    } else {
        drop_all_through(ss, intersection_keys(ss)[m - 1])
    }
}

/// The keys of a stream, in the order in which it gives them.
pub open spec fn keys_of(s: Seq<(Seq<u8>, u64)>) -> Seq<Seq<u8>> {
    Seq::new(s.len(), |i: int| s[i].0)
}

/// `n` streams that all hold what `s` holds.
pub open spec fn copies(s: Seq<(Seq<u8>, u64)>, n: nat) -> Seq<Seq<(Seq<u8>, u64)>> {
    Seq::new(n, |i: int| s)
}

} // verus!
