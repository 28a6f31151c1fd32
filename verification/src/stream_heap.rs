//! The input streams of a merge together with the heap of their pending
//! pairs.

use vstd::prelude::*;
use crate::heap::SlotHeap;
use crate::keys::{key_equal, key_lt, lemma_key_lt_total, lemma_key_lt_transitive, pair_le};
use crate::model::{all_ascending, ascending};
use crate::slot::Slot;
use crate::stream::Stream;

verus! {

/// The input streams, by ordinal, and one slot in the heap for each stream
/// whose head has been read and not yet handed out.
pub(crate) struct StreamHeap<S: Stream> {
    rdrs: Vec<S>,
    heap: SlotHeap,
}

impl<S: Stream> StreamHeap<S> {
    /// The number of input streams, exhausted ones included.
    pub(crate) closed spec fn num(&self) -> nat {
        self.rdrs@.len()
    }

    /// What each stream itself has yet to produce.
    pub(crate) closed spec fn sources(&self) -> Seq<Seq<(Seq<u8>, u64)>> {
        Seq::new(self.rdrs@.len(), |i: int| self.rdrs@[i].pending())
    }

    /// The ordinals of the streams that have a slot in the heap.
    pub(crate) closed spec fn live(&self) -> Set<int> {
        self.heap.heads().dom()
    }

    /// What each stream has yet to give to the merge: the pair in its slot
    /// in the heap, if it has one there, and then what the stream itself has
    /// yet to produce.
    pub(crate) closed spec fn pending(&self) -> Seq<Seq<(Seq<u8>, u64)>> {
        Seq::new(
            self.rdrs@.len(),
            |i: int|
                if self.heap.heads().dom().contains(i) {
                    seq![self.heap.heads()[i]] + self.rdrs@[i].pending()
                } else {
                    self.rdrs@[i].pending()
                },
        )
    }

    /// The heap is in order, holds slots of these streams only, and each
    /// stream is valid and ascending from its slot on.
    pub(crate) closed spec fn inv(&self) -> bool {
        &&& self.heap.inv()
        &&& forall|i: int| 0 <= i < self.rdrs@.len() ==> (#[trigger] self.rdrs@[i]).inv()
        &&& forall|i: int|
            0 <= i < self.rdrs@.len() ==> ascending((#[trigger] self.rdrs@[i]).pending())
        &&& forall|i: int| #[trigger]
            self.heap.heads().dom().contains(i) ==> {
                &&& 0 <= i < self.rdrs@.len()
                &&& self.rdrs@[i].pending().len() > 0 ==> key_lt(
                    self.heap.heads()[i].0,
                    self.rdrs@[i].pending()[0].0,
                )
            }
    }

    /// The stream `i` has a slot in the heap and no stream's pending pair
    /// comes before its own.
    pub(crate) open spec fn is_least(&self, i: int) -> bool {
        &&& self.live().contains(i)
        &&& forall|j: int| #[trigger]
            self.live().contains(j) ==> pair_le(self.pending()[i][0], self.pending()[j][0])
    }

    /// What the invariant says of the streams as the merge sees them.
    pub(crate) proof fn lemma_inv(&self)
        requires
            self.inv(),
        ensures
            self.pending().len() == self.num(),
            self.sources().len() == self.num(),
            all_ascending(self.pending()),
            forall|i: int| #[trigger]
                self.live().contains(i) ==> 0 <= i < self.num() && self.pending()[i].len() > 0,
            forall|i: int|
                0 <= i < self.num() ==> #[trigger] self.sources()[i] == if self.live().contains(i) {
                    self.pending()[i].skip(1)
                } else {
                    self.pending()[i]
                },
    {
        assert forall|i: int| 0 <= i < self.num() implies #[trigger] self.sources()[i]
            == if self.live().contains(i) {
            self.pending()[i].skip(1)
        } else {
            self.pending()[i]
        } by {
        }
        assert forall|i: int| 0 <= i < self.pending().len() implies ascending(
            #[trigger] self.pending()[i],
        ) by {
            let src = self.rdrs@[i].pending();
            if self.heap.heads().dom().contains(i) {
                let s = self.pending()[i];
                assert forall|a: int, b: int| 0 <= a < b < s.len() implies key_lt(
                    #[trigger] s[a].0,
                    #[trigger] s[b].0,
                ) by {
                    if a == 0 && b > 1 {
                        lemma_key_lt_transitive(s[0].0, src[0].0, src[b - 1].0);
                    }
                }
            }
        }
    }

    /// Takes the streams over, and reads the head of each into the heap.
    pub(crate) fn new(streams: Vec<S>) -> (u: StreamHeap<S>)
        requires
            forall|i: int| 0 <= i < streams@.len() ==> (#[trigger] streams@[i]).inv(),
            forall|i: int|
                0 <= i < streams@.len() ==> ascending((#[trigger] streams@[i]).pending()),
        ensures
            u.inv(),
            u.num() == streams@.len(),
            u.pending() == Seq::new(streams@.len(), |i: int| streams@[i].pending()),
            forall|i: int| 0 <= i < u.num() && u.pending()[i].len() > 0 ==> u.live().contains(i),
    {
        let mut u = StreamHeap { rdrs: streams, heap: SlotHeap::new() };
        let n: usize = u.rdrs.len();
        let mut i: usize = 0;
        while i < n
            invariant
                i <= n,
                n == u.num(),
                n == streams@.len(),
                u.inv(),
                u.pending() == Seq::new(streams@.len(), |i: int| streams@[i].pending()),
                forall|j: int| #[trigger] u.live().contains(j) ==> j < i,
                forall|j: int| 0 <= j < i && u.pending()[j].len() > 0 ==> u.live().contains(j),
            decreases n - i,
        {
            u.refill(Slot::new(i));
            i = i + 1;
        }
        u
    }

    /// Removes and returns the slot with the least pending pair, if any
    /// stream has a slot in the heap.
    pub(crate) fn pop(&mut self) -> (r: Option<Slot>)
        requires
            old(self).inv(),
        ensures
            final(self).inv(),
            final(self).num() == old(self).num(),
            r is None <==> old(self).live() =~= Set::<int>::empty(),
            r is None ==> final(self).live() == old(self).live() && final(self).pending() == old(
                self,
            ).pending(),
            r matches Some(slot) ==> {
                &&& old(self).is_least(slot.ordinal())
                &&& old(self).pending()[slot.ordinal()][0] == slot.pair()
                &&& final(self).live() == old(self).live().remove(slot.ordinal())
                &&& final(self).pending() == old(self).pending().update(
                    slot.ordinal(),
                    old(self).pending()[slot.ordinal()].skip(1),
                )
            },
    {
        proof {
            self.heap.lemma_len_heads();
        }
        let r = self.heap.pop();
        proof {
            if r is Some {
                let i = r->Some_0.ordinal();
                assert(old(self).pending()[i].skip(1) =~= self.rdrs@[i].pending());
            }
        }
        r
    }

    /// Whether the least pending pair has the key `key`.
    pub(crate) fn peek_is_duplicate(&self, key: &[u8]) -> (r: bool)
        requires
            self.inv(),
        ensures
            r <==> exists|i: int| self.is_least(i) && self.pending()[i][0].0 == key@,
            !r ==> self.live() =~= Set::<int>::empty() || exists|i: int|
                self.is_least(i) && self.pending()[i][0].0 != key@,
    {
        proof {
            self.heap.lemma_len_heads();
        }
        match self.heap.peek() {
            Some(slot) => {
                let r = key_equal(slot.input(), key);
                proof {
                    let i = slot.ordinal();
                    assert(self.is_least(i));
                    assert forall|j: int| self.is_least(j) implies self.pending()[j][0].0
                        == slot.pair().0 by {
                        lemma_key_lt_total(self.pending()[j][0].0, slot.pair().0);
                    }
                }
                r
            },
            None => false,
        }
    }

    /// Removes and returns the slot with the least pending pair if that
    /// pair's key is `key`; otherwise leaves the heap as it is.
    pub(crate) fn pop_if_equal(&mut self, key: &[u8]) -> (r: Option<Slot>)
        requires
            old(self).inv(),
        ensures
            final(self).inv(),
            final(self).num() == old(self).num(),
            r is Some <==> exists|i: int|
                old(self).is_least(i) && old(self).pending()[i][0].0 == key@,
            r is None ==> final(self).live() == old(self).live() && final(self).pending() == old(
                self,
            ).pending(),
            r is None ==> old(self).live() =~= Set::<int>::empty() || exists|i: int|
                old(self).is_least(i) && old(self).pending()[i][0].0 != key@,
            r matches Some(slot) ==> {
                &&& slot.pair().0 == key@
                &&& old(self).is_least(slot.ordinal())
                &&& old(self).pending()[slot.ordinal()][0] == slot.pair()
                &&& final(self).live() == old(self).live().remove(slot.ordinal())
                &&& final(self).pending() == old(self).pending().update(
                    slot.ordinal(),
                    old(self).pending()[slot.ordinal()].skip(1),
                )
            },
    {
        if self.peek_is_duplicate(key) {
            let r = self.pop();
            proof {
                let j = r->Some_0.ordinal();
                lemma_key_lt_total(old(self).pending()[j][0].0, key@);
            }
            r
        } else {
            None
        }
    }

    /// The number of input streams, exhausted ones included.
    pub(crate) fn num_slots(&self) -> (n: usize)
        ensures
            n == self.num(),
    {
        self.rdrs.len()
    }

    /// Reads the next pair of the slot's stream into the slot and puts the
    /// slot into the heap; drops the slot if the stream is exhausted.
    pub(crate) fn refill(&mut self, slot: Slot)
        requires
            old(self).inv(),
            0 <= slot.ordinal() < old(self).num(),
            !old(self).live().contains(slot.ordinal()),
        ensures
            final(self).inv(),
            final(self).num() == old(self).num(),
            final(self).pending() == old(self).pending(),
            final(self).live() == if old(self).pending()[slot.ordinal()].len() > 0 {
                old(self).live().insert(slot.ordinal())
            } else {
                old(self).live()
            },
    {
        let mut slot = slot;
        let i: usize = slot.index();
        match self.rdrs[i].next() {
            Some((input, output)) => {
                slot.set_input(input);
                slot.set_output(output);
                self.heap.push(slot);
                proof {
                    assert(self.pending()[i as int] =~= old(self).pending()[i as int]);
                }
            },
            None => {},
        }
    }
}

} // verus!
