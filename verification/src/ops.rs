//! Union and intersection of sorted streams.

use vstd::prelude::*;
use crate::keys::{key_le, key_lt, lemma_pair_le_key_le, pair_le};
use crate::laws::lemma_intersection_keys_step;
use crate::lemmas::{
    lemma_count_contributors, lemma_drop_through_head, lemma_drop_through_keys,
    lemma_drop_through_of_suffix, lemma_drop_through_suffix, lemma_least_head_is_least_in_any,
    lemma_missing_contributor, lemma_suffix_holds, lemma_suffix_transitive, lemma_total_len_update,
};
use crate::model::{
    all_ascending, ascending, contributes, drop_all_through, drop_through, exhausted, has_key,
    in_all, in_any, intersection_keys, is_contribution_list, is_least_in_all, is_least_in_any,
    is_suffix, total_len, union_keys,
};
use crate::slot::Slot;
use crate::stream::Stream;
use crate::stream_heap::StreamHeap;

verus! {

/// What one input stream contributes to a merged key: the stream's ordinal
/// and the value it gave for the key.
#[derive(Clone, Copy, Debug)]
pub struct FstOutput {
    pub index: usize,
    pub output: u64,
}

/// What a cursor keeps between calls: the heap is valid, the slot that was
/// handed out last is not in it, and every other stream without a slot in
/// the heap is exhausted.
pub(crate) open spec fn cursor_inv<S: Stream>(
    heap: StreamHeap<S>,
    cur_slot: Option<Slot>,
) -> bool {
    &&& heap.inv()
    &&& cur_slot matches Some(slot) ==> 0 <= slot.ordinal() < heap.num() && !heap.live().contains(
        slot.ordinal(),
    )
    &&& forall|i: int|
        0 <= i < heap.num() && !(#[trigger] heap.live().contains(i)) && !(cur_slot matches Some(
            slot,
        ) && slot.ordinal() == i) ==> heap.pending()[i].len() == 0
}

/// Collects the input streams of a merge. The ordinal of a stream is its
/// place in the order of registration, from zero.
pub struct StreamOp<S: Stream> {
    streams: Vec<S>,
}

impl<S: Stream> StreamOp<S> {
    /// Every registered stream is valid and ascending.
    pub closed spec fn inv(&self) -> bool {
        &&& forall|i: int| 0 <= i < self.streams@.len() ==> (#[trigger] self.streams@[i]).inv()
        &&& forall|i: int|
            0 <= i < self.streams@.len() ==> ascending((#[trigger] self.streams@[i]).pending())
    }

    /// What each registered stream has yet to produce, by ordinal.
    pub closed spec fn pending(&self) -> Seq<Seq<(Seq<u8>, u64)>> {
        Seq::new(self.streams@.len(), |i: int| self.streams@[i].pending())
    }

    /// A merge of no streams yet.
    pub fn new() -> (op: Self)
        ensures
            op.inv(),
            op.pending() == Seq::<Seq<(Seq<u8>, u64)>>::empty(),
    {
        let op = StreamOp { streams: Vec::new() };
        op
    }

    /// Registers `stream` under the next ordinal. The stream must be
    /// ascending by key: the merge relies on it and does not look for
    /// violations while it runs.
    pub fn add(self, stream: S) -> (op: Self)
        requires
            self.inv(),
            stream.inv(),
            ascending(stream.pending()),
        ensures
            op.inv(),
            op.pending() == self.pending().push(stream.pending()),
    {
        let mut op = self;
        op.streams.push(stream);
        op
    }

    /// The cursor over the union of the registered streams.
    pub fn union(self) -> (u: StreamUnion<S>)
        requires
            self.inv(),
        ensures
            u.inv(),
            u.pending() == self.pending(),
            u.sources().len() == self.pending().len(),
            forall|i: int|
                0 <= i < self.pending().len() && self.pending()[i].len() > 0
                    ==> #[trigger] u.sources()[i] == self.pending()[i].skip(1),
    {
        let u = StreamUnion {
            heap: StreamHeap::new(self.streams),
            outs: Vec::new(),
            cur_slot: None,
        };
        proof {
            u.heap.lemma_inv();
        }
        u
    }

    /// The cursor over the intersection of the registered streams. Of no
    /// streams at all it is exhausted from the start.
    pub fn intersection(self) -> (u: StreamIntersection<S>)
        requires
            self.inv(),
        ensures
            u.inv(),
            u.pending() == self.pending(),
            u.sources().len() == self.pending().len(),
            forall|i: int|
                0 <= i < self.pending().len() && self.pending()[i].len() > 0
                    ==> #[trigger] u.sources()[i] == self.pending()[i].skip(1),
    {
        let u = StreamIntersection {
            heap: StreamHeap::new(self.streams),
            outs: Vec::new(),
            cur_slot: None,
        };
        proof {
            u.heap.lemma_inv();
        }
        u
    }
}

/// Takes from the heap the slot with the least pending pair and then every
/// other slot with the same key, writes their contributions to `outs`, and
/// reads on each stream so taken but the first. Returns the first slot, which
/// holds the key, or `None` where the heap is empty.
fn pop_tied<S: Stream>(heap: &mut StreamHeap<S>, outs: &mut Vec<FstOutput>) -> (r: Option<Slot>)
    requires
        old(heap).inv(),
        forall|i: int|
            0 <= i < old(heap).num() && !(#[trigger] old(heap).live().contains(i)) ==> old(
                heap,
            ).pending()[i].len() == 0,
    ensures
        final(heap).inv(),
        final(heap).num() == old(heap).num(),
        match r {
            Some(slot) => {
                &&& 0 <= slot.ordinal() < old(heap).num()
                &&& !final(heap).live().contains(slot.ordinal())
                &&& final(outs)@.len() > 0
                &&& final(outs)@[0].index == slot.ordinal()
                &&& is_least_in_any(old(heap).pending(), slot.pair().0)
                &&& is_contribution_list(final(outs)@, old(heap).pending(), slot.pair().0)
                &&& final(heap).pending() == drop_all_through(old(heap).pending(), slot.pair().0)
                &&& forall|i: int|
                    0 <= i < old(heap).num() && i != slot.ordinal() && !(
                    #[trigger] final(heap).live().contains(i)) ==> final(heap).pending()[i].len()
                        == 0
                &&& total_len(final(heap).pending()) < total_len(old(heap).pending())
            },
            None => {
                &&& exhausted(old(heap).pending())
                &&& final(heap).pending() == old(heap).pending()
                &&& final(heap).live() == old(heap).live()
            },
        },
{
    let ghost given = heap.pending();
    let ghost n = heap.num();
    proof {
        heap.lemma_inv();
    }
    let ghost live1 = heap.live();
    let slot = match heap.pop() {
        None => {
            assert forall|i: int| 0 <= i < given.len() implies (#[trigger] given[i]).len()
                == 0 by {
                assert(!live1.contains(i));
            }
            return None;
        },
        Some(slot) => slot,
    };
    let ghost w = slot.ordinal();
    let ghost key = slot.pair().0;
    proof {
        lemma_total_len_update(given, w, given[w].skip(1));
    }
    outs.clear();
    outs.push(slot.fst_output());
    let ghost mut matched: Set<int> = set![w];
    proof {
        assert forall|i: int| #[trigger] heap.live().contains(i) implies key_le(
            key,
            heap.pending()[i][0].0,
        ) by {
            lemma_pair_le_key_le(given[w][0], given[i][0]);
        }
    }
    loop
        invariant
            heap.inv(),
            heap.num() == n,
            heap.pending().len() == n,
            given.len() == n,
            all_ascending(given),
            total_len(heap.pending()) < total_len(given),
            slot.ordinal() == w,
            slot.pair().0 == key,
            0 <= w < n,
            matched.contains(w),
            !heap.live().contains(w),
            forall|i: int| #[trigger]
                matched.contains(i) ==> 0 <= i < n && given[i].len() > 0 && given[i][0].0 == key,
            forall|i: int|
                0 <= i < n ==> #[trigger] heap.pending()[i] == if matched.contains(i) {
                    given[i].skip(1)
                } else {
                    given[i]
                },
            forall|i: int|
                0 <= i < n && !matched.contains(i) ==> (#[trigger] heap.live().contains(i)
                    <==> given[i].len() > 0),
            forall|i: int|
                0 <= i < n && matched.contains(i) && i != w && !(
                #[trigger] heap.live().contains(i)) ==> heap.pending()[i].len() == 0,
            forall|i: int| #[trigger]
                heap.live().contains(i) ==> key_le(key, heap.pending()[i][0].0),
            outs@.len() > 0,
            outs@[0].index == w,
            forall|i: int| #[trigger]
                heap.live().contains(i) ==> pair_le(
                    (key, outs@.last().output),
                    heap.pending()[i][0],
                ),
            forall|a: int, b: int|
                0 <= a < b < outs@.len() ==> (#[trigger] outs@[a]).output <= (
                #[trigger] outs@[b]).output,
            forall|j: int|
                0 <= j < outs@.len() ==> matched.contains(
                    (#[trigger] outs@[j]).index as int,
                ) && given[outs@[j].index as int][0] == (key, outs@[j].output),
            forall|i: int| #[trigger] matched.contains(i) ==> contributes(outs@, i),
            forall|a: int, b: int|
                0 <= a < b < outs@.len() ==> (#[trigger] outs@[a]).index != (
                #[trigger] outs@[b]).index,
        ensures
            forall|i: int| #[trigger]
                heap.live().contains(i) ==> key_lt(key, heap.pending()[i][0].0),
        decreases total_len(heap.pending()),
    {
        let ghost before = heap.pending();
        proof {
            heap.lemma_inv();
        }
        match heap.pop_if_equal(slot.input()) {
            Some(slot2) => {
                let ghost j = slot2.ordinal();
                proof {
                    lemma_total_len_update(before, j, before[j].skip(1));
                }
                let ghost outs_before = outs@;
                outs.push(slot2.fst_output());
                heap.refill(slot2);
                proof {
                    matched = matched.insert(j);
                    assert forall|i: int| #[trigger] matched.contains(i) implies contributes(
                        outs@,
                        i,
                    ) by {
                        if i != j {
                            let a = choose|a: int|
                                0 <= a < outs_before.len() && (#[trigger] outs_before[a]).index
                                    == i;
                            assert(outs@[a].index == i);
                        }
                    }
                }
            },
            None => {
                break;
            },
        }
    }
    proof {
        assert forall|i: int|
            0 <= i < n && !matched.contains(i) && given[i].len() > 0 implies key_lt(
            key,
            given[i][0].0,
        ) by {
            assert(heap.live().contains(i));
        }
        assert(heap.pending() =~= drop_all_through(given, key)) by {
            assert forall|i: int| 0 <= i < n implies #[trigger] heap.pending()[i]
                == drop_all_through(given, key)[i] by {
                if matched.contains(i) {
                    lemma_drop_through_head(given[i], key);
                }
            }
        }
        assert forall|i: int| 0 <= i < n && (#[trigger] given[i]).len() > 0 implies key_le(
            given[w][0].0,
            given[i][0].0,
        ) by {
            assert(matched.contains(i) || key_lt(key, given[i][0].0));
        }
        lemma_least_head_is_least_in_any(given, w);
        assert forall|i: int| 0 <= i < n && has_key(#[trigger] given[i], key) implies contributes(
            outs@,
            i,
        ) by {
            assert(matched.contains(i));
        }
        assert forall|j: int| 0 <= j < outs@.len() implies {
            &&& 0 <= (#[trigger] outs@[j]).index < given.len()
            &&& given[outs@[j].index as int].contains((key, outs@[j].output))
        } by {
        }
    }
    Some(slot)
}

/// A cursor over the keys that any input stream holds, in ascending order,
/// each with the contributions of the streams that hold it.
pub struct StreamUnion<S: Stream> {
    heap: StreamHeap<S>,
    outs: Vec<FstOutput>,
    cur_slot: Option<Slot>,
}

impl<S: Stream> StreamUnion<S> {
    /// The heap is valid, the slot that was handed out last is not in it, and
    /// every other stream without a slot in the heap is exhausted.
    pub closed spec fn inv(&self) -> bool {
        cursor_inv(self.heap, self.cur_slot)
    }

    /// What each input stream has yet to give to the merge, by ordinal.
    pub closed spec fn pending(&self) -> Seq<Seq<(Seq<u8>, u64)>> {
        self.heap.pending()
    }

    /// What each input stream itself has yet to produce, by ordinal: less
    /// than `pending` by the pairs that the cursor has read and not yet
    /// handed out.
    pub closed spec fn sources(&self) -> Seq<Seq<(Seq<u8>, u64)>> {
        self.heap.sources()
    }

    /// What is left of each input stream is ascending, and no stream has been
    /// read more than one pair ahead of what the cursor has handed out.
    pub proof fn lemma_pending(&self)
        requires
            self.inv(),
        ensures
            all_ascending(self.pending()),
            self.sources().len() == self.pending().len(),
            forall|i: int|
                0 <= i < self.pending().len() ==> {
                    ||| #[trigger] self.sources()[i] == self.pending()[i]
                    ||| self.pending()[i].len() > 0 && self.sources()[i] == self.pending()[i].skip(
                        1,
                    )
                },
    {
        self.heap.lemma_inv();
    }

    /// Produces the smallest key that any stream still holds, with the
    /// contributions of the streams that hold it, and advances those streams
    /// past it; `None` once every stream is exhausted. Key and contributions
    /// are lent out until the next call.
    pub fn next(&mut self) -> (r: Option<(&[u8], &[FstOutput])>)
        requires
            old(self).inv(),
        ensures
            final(self).inv(),
            final(self).pending().len() == old(self).pending().len(),
            union_keys(old(self).pending()) == match r {
                Some((key, _)) => seq![key@] + union_keys(final(self).pending()),
                None => Seq::empty(),
            },
            match r {
                Some((key, outs)) => {
                    &&& is_least_in_any(old(self).pending(), key@)
                    &&& is_contribution_list(outs@, old(self).pending(), key@)
                    &&& final(self).pending() == drop_all_through(old(self).pending(), key@)
                    &&& outs@.len() > 0
                    &&& ({
                        let first = outs@[0].index as int;
                        final(self).sources()[first] == final(self).pending()[first]
                    })
                },
                None => {
                    &&& exhausted(old(self).pending())
                    &&& final(self).pending() == old(self).pending()
                },
            },
    {
        proof {
            self.heap.lemma_inv();
        }
        if let Some(slot) = self.cur_slot.take() {
            self.heap.refill(slot);
        }
        match pop_tied(&mut self.heap, &mut self.outs) {
            None => None,
            Some(slot) => {
                self.cur_slot = Some(slot);
                proof {
                    self.heap.lemma_inv();
                }
                Some((self.cur_slot.as_ref().unwrap().input(), self.outs.as_slice()))
            },
        }
    }
}

/// A cursor over the keys that every input stream holds, in ascending order,
/// each with the contributions of all streams.
pub struct StreamIntersection<S: Stream> {
    heap: StreamHeap<S>,
    outs: Vec<FstOutput>,
    cur_slot: Option<Slot>,
}

impl<S: Stream> StreamIntersection<S> {
    /// The heap is valid, the slot that was handed out last is not in it, and
    /// every other stream without a slot in the heap is exhausted.
    pub closed spec fn inv(&self) -> bool {
        cursor_inv(self.heap, self.cur_slot)
    }

    /// What each input stream has yet to give to the merge, by ordinal.
    pub closed spec fn pending(&self) -> Seq<Seq<(Seq<u8>, u64)>> {
        self.heap.pending()
    }

    /// What each input stream itself has yet to produce, by ordinal: less
    /// than `pending` by the pairs that the cursor has read and not yet
    /// handed out.
    pub closed spec fn sources(&self) -> Seq<Seq<(Seq<u8>, u64)>> {
        self.heap.sources()
    }

    /// What is left of each input stream is ascending, and no stream has been
    /// read more than one pair ahead of what the cursor has handed out.
    pub proof fn lemma_pending(&self)
        requires
            self.inv(),
        ensures
            all_ascending(self.pending()),
            self.sources().len() == self.pending().len(),
            forall|i: int|
                0 <= i < self.pending().len() ==> {
                    ||| #[trigger] self.sources()[i] == self.pending()[i]
                    ||| self.pending()[i].len() > 0 && self.sources()[i] == self.pending()[i].skip(
                        1,
                    )
                },
    {
        self.heap.lemma_inv();
    }

    /// Produces the smallest key that every stream still holds, with one
    /// contribution per stream, and advances all streams past it. Where the
    /// streams have no key in common any more, or there are no streams,
    /// returns `None` and leaves every stream exhausted. Key and
    /// contributions are lent out until the next call.
    pub fn next(&mut self) -> (r: Option<(&[u8], &[FstOutput])>)
        requires
            old(self).inv(),
        ensures
            final(self).inv(),
            final(self).pending().len() == old(self).pending().len(),
            intersection_keys(old(self).pending()) == match r {
                Some((key, _)) => seq![key@] + intersection_keys(final(self).pending()),
                None => Seq::empty(),
            },
            match r {
                Some((key, outs)) => {
                    &&& is_least_in_all(old(self).pending(), key@)
                    &&& is_contribution_list(outs@, old(self).pending(), key@)
                    &&& outs@.len() == old(self).pending().len()
                    &&& final(self).pending() == drop_all_through(old(self).pending(), key@)
                    &&& ({
                        let first = outs@[0].index as int;
                        final(self).sources()[first] == final(self).pending()[first]
                    })
                },
                None => {
                    &&& forall|k: Seq<u8>| !in_all(old(self).pending(), k)
                    &&& exhausted(final(self).pending())
                },
            },
    {
        let ghost given = self.heap.pending();
        let ghost n = self.heap.num();
        proof {
            self.heap.lemma_inv();
        }
        if let Some(slot) = self.cur_slot.take() {
            self.heap.refill(slot);
        }
        proof {
            assert forall|i: int| 0 <= i < n implies is_suffix(
                #[trigger] self.heap.pending()[i],
                given[i],
            ) by {
                assert(given[i].skip(0) =~= given[i]);
            }
        }
        loop
            invariant
                self.heap.inv(),
                self.cur_slot is None,
                self.heap.num() == n,
                self.heap.pending().len() == n,
                given == old(self).pending(),
                given.len() == n,
                all_ascending(given),
                forall|i: int|
                    0 <= i < n && !(#[trigger] self.heap.live().contains(i))
                        ==> self.heap.pending()[i].len() == 0,
                forall|i: int|
                    0 <= i < n ==> is_suffix(#[trigger] self.heap.pending()[i], given[i]),
                forall|k: Seq<u8>| in_all(given, k) ==> #[trigger] in_all(self.heap.pending(), k),
            decreases total_len(self.heap.pending()),
        {
            let ghost cur = self.heap.pending();
            let slot = match pop_tied(&mut self.heap, &mut self.outs) {
                None => {
                    proof {
                        assert forall|k: Seq<u8>| !in_all(given, k) by {
                            if in_all(given, k) {
                                assert(in_all(cur, k));
                            }
                        }
                    }
                    return None;
                },
                Some(slot) => slot,
            };
            let ghost key = slot.pair().0;
            proof {
                lemma_count_contributors(self.outs@, n as int);
            }
            if self.outs.len() < self.heap.num_slots() {
                proof {
                    lemma_missing_contributor(self.outs@, n as int);
                    let i0 = choose|i: int| 0 <= i < n && !contributes(self.outs@, i);
                    assert(!has_key(cur[i0], key));
                    assert forall|k: Seq<u8>| in_all(given, k) implies #[trigger] in_all(
                        self.heap.pending(),
                        k,
                    ) by {
                        assert(in_all(cur, k));
                        assert(in_any(cur, k));
                        assert forall|i: int| 0 <= i < n implies has_key(
                            #[trigger] self.heap.pending()[i],
                            k,
                        ) by {
                            lemma_drop_through_keys(cur[i], key, k);
                        }
                    }
                    assert forall|i: int| 0 <= i < n implies is_suffix(
                        #[trigger] self.heap.pending()[i],
                        given[i],
                    ) by {
                        lemma_drop_through_suffix(cur[i], key);
                        lemma_suffix_transitive(self.heap.pending()[i], cur[i], given[i]);
                    }
                }
                self.heap.refill(slot);
            } else {
                self.cur_slot = Some(slot);
                proof {
                    self.heap.lemma_inv();
                    assert forall|i: int| 0 <= i < n implies has_key(#[trigger] cur[i], key) by {
                        assert(contributes(self.outs@, i));
                    }
                    assert forall|i: int| 0 <= i < n implies has_key(
                        #[trigger] given[i],
                        key,
                    ) by {
                        lemma_suffix_holds(cur[i], given[i]);
                    }
                    assert forall|k2: Seq<u8>| #[trigger] in_all(given, k2) implies key_le(
                        key,
                        k2,
                    ) by {
                        assert(in_all(cur, k2));
                        assert(in_any(cur, k2));
                    }
                    assert(self.heap.pending() =~= drop_all_through(given, key)) by {
                        assert forall|i: int| 0 <= i < n implies #[trigger] self.heap.pending()[i]
                            == drop_through(given[i], key) by {
                            lemma_drop_through_of_suffix(cur[i], given[i], key);
                        }
                    }
                    assert forall|j: int| 0 <= j < self.outs@.len() implies {
                        &&& 0 <= (#[trigger] self.outs@[j]).index < given.len()
                        &&& given[self.outs@[j].index as int].contains(
                            (key, self.outs@[j].output),
                        )
                    } by {
                    }
                    lemma_intersection_keys_step(given, key);
                }
                return Some((self.cur_slot.as_ref().unwrap().input(), self.outs.as_slice()));
            }
        }
    }
}

} // verus!
