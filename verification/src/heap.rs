//! A binary min-heap of slots, ordered by pending pair.

use vstd::prelude::*;
use crate::keys::{lemma_pair_le_transitive, pair_le};
use crate::slot::Slot;

verus! {

/// The position above `c` in the heap's tree.
pub(crate) open spec fn parent(c: int) -> int {
    (c - 1) / 2
}

/// No two slots belong to the same stream.
pub(crate) open spec fn distinct(s: Seq<Slot>) -> bool {
    forall|p: int, q: int|
        0 <= p < q < s.len() ==> (#[trigger] s[p]).ordinal() != (#[trigger] s[q]).ordinal()
}

/// Some slot of `s` belongs to the stream `i`.
pub(crate) open spec fn holds(s: Seq<Slot>, i: int) -> bool {
    exists|p: int| 0 <= p < s.len() && (#[trigger] s[p]).ordinal() == i
}

/// Where in `s` the slot of the stream `i` stands.
pub(crate) open spec fn place(s: Seq<Slot>, i: int) -> int {
    choose|p: int| 0 <= p < s.len() && (#[trigger] s[p]).ordinal() == i
}

/// The pending pair of each stream that has a slot in `s`, by ordinal.
pub(crate) open spec fn heads_of(s: Seq<Slot>) -> Map<int, (Seq<u8>, u64)> {
    Map::new(|i: int| holds(s, i), |i: int| s[place(s, i)].pair())
}

/// No slot comes before the one above it.
pub(crate) open spec fn ordered(s: Seq<Slot>) -> bool {
    forall|c: int| 0 < c < s.len() ==> pair_le(s[parent(c)].pair(), (#[trigger] s[c]).pair())
}

/// `s` is ordered but for the slot at `k`, which may come before the one
/// above it; what stands below `k` does not come before what stands above.
pub(crate) open spec fn ordered_above(s: Seq<Slot>, k: int) -> bool {
    &&& forall|c: int|
        0 < c < s.len() && c != k ==> pair_le(s[parent(c)].pair(), (#[trigger] s[c]).pair())
    &&& forall|c: int|
        0 < c < s.len() && parent(c) == k && k > 0 ==> pair_le(
            s[parent(k)].pair(),
            (#[trigger] s[c]).pair(),
        )
}

/// `s` is ordered but for the slot at `k`, which may come after those below
/// it; what stands below `k` does not come before what stands above.
pub(crate) open spec fn ordered_below(s: Seq<Slot>, k: int) -> bool {
    &&& forall|c: int|
        0 < c < s.len() && parent(c) != k ==> pair_le(s[parent(c)].pair(), (#[trigger] s[c]).pair())
    &&& forall|c: int|
        0 < c < s.len() && parent(c) == k && k > 0 ==> pair_le(
            s[parent(k)].pair(),
            (#[trigger] s[c]).pair(),
        )
}

/// `s` with the slots at `a` and `b` exchanged.
pub(crate) open spec fn exchanged(s: Seq<Slot>, a: int, b: int) -> Seq<Slot> {
    s.update(a, s[b]).update(b, s[a])
}

/// `pair` is the pending pair of the stream `i`, and no stream's pending pair
/// comes before it.
pub(crate) open spec fn is_least_head(
    heads: Map<int, (Seq<u8>, u64)>,
    i: int,
    pair: (Seq<u8>, u64),
) -> bool {
    &&& heads.dom().contains(i)
    &&& heads[i] == pair
    &&& forall|j: int| #[trigger] heads.dom().contains(j) ==> pair_le(pair, heads[j])
}

/// With distinct ordinals, each slot's pair is the head of its stream.
pub(crate) proof fn lemma_heads_at(s: Seq<Slot>, p: int)
    requires
        distinct(s),
        0 <= p < s.len(),
    ensures
        heads_of(s).dom().contains(s[p].ordinal()),
        heads_of(s)[s[p].ordinal()] == s[p].pair(),
{
}

/// Exchanging two slots changes neither whose slots are held nor what they
/// hold.
pub(crate) proof fn lemma_exchange_heads(s: Seq<Slot>, a: int, b: int)
    requires
        distinct(s),
        0 <= a < s.len(),
        0 <= b < s.len(),
    ensures
        distinct(exchanged(s, a, b)),
        heads_of(exchanged(s, a, b)) == heads_of(s),
{
    let t = exchanged(s, a, b);
    assert forall|i: int| holds(s, i) == holds(t, i) by {
        if holds(s, i) {
            let p = place(s, i);
            let p1 = if p == a { b } else if p == b { a } else { p };
            assert(t[p1] == s[p]);
        }
    }
}

/// A slot added for a stream that had none adds that stream's head.
pub(crate) proof fn lemma_push_heads(s: Seq<Slot>, x: Slot)
    requires
        distinct(s),
        !holds(s, x.ordinal()),
    ensures
        distinct(s.push(x)),
        heads_of(s.push(x)) == heads_of(s).insert(x.ordinal(), x.pair()),
{
    let t = s.push(x);
    let m = heads_of(s).insert(x.ordinal(), x.pair());
    assert forall|i: int| holds(t, i) == m.dom().contains(i) by {
        if holds(s, i) {
            let p = place(s, i);
            assert(t[p] == s[p]);
        }
        if i == x.ordinal() {
            assert(t[s.len() as int] == x);
        }
    }
}

/// Putting the last slot in the place of the first removes the first slot's
/// stream and keeps the others.
pub(crate) proof fn lemma_replace_root_heads(s: Seq<Slot>)
    requires
        distinct(s),
        s.len() >= 2,
    ensures
        distinct(s.drop_last().update(0, s.last())),
        heads_of(s.drop_last().update(0, s.last())) == heads_of(s).remove(s[0].ordinal()),
{
    let t = s.drop_last().update(0, s.last());
    let n = s.len() - 1;
    let m = heads_of(s).remove(s[0].ordinal());
    assert forall|i: int| holds(t, i) == m.dom().contains(i) by {
        if holds(s, i) && i != s[0].ordinal() {
            let p = place(s, i);
            let p1 = if p == n { 0 } else { p };
            assert(t[p1] == s[p]);
        }
    }
}

/// In an ordered heap nothing comes before the first slot.
pub(crate) proof fn lemma_root_is_least(s: Seq<Slot>, c: int)
    requires
        ordered(s),
        0 <= c < s.len(),
    ensures
        pair_le(s[0].pair(), s[c].pair()),
    decreases c,
{
    if c > 0 {
        lemma_root_is_least(s, parent(c));
        lemma_pair_le_transitive(s[0].pair(), s[parent(c)].pair(), s[c].pair());
    }
}

/// The first slot of an ordered heap holds the least head.
pub(crate) proof fn lemma_least_head(s: Seq<Slot>)
    requires
        ordered(s),
        distinct(s),
        s.len() > 0,
    ensures
        is_least_head(heads_of(s), s[0].ordinal(), s[0].pair()),
{
    assert forall|j: int| #[trigger] heads_of(s).dom().contains(j) implies pair_le(
        s[0].pair(),
        heads_of(s)[j],
    ) by {
        let p = place(s, j);
        lemma_root_is_least(s, p);
    }
}

/// One step up: exchanging the slot at `k` with the one above it, which it
/// comes before, leaves the heap ordered but for that place above.
pub(crate) proof fn lemma_step_up(s: Seq<Slot>, k: int)
    requires
        0 < k < s.len(),
        ordered_above(s, k),
        !pair_le(s[parent(k)].pair(), s[k].pair()),
    ensures
        ordered_above(exchanged(s, k, parent(k)), parent(k)),
{
    let p = parent(k);
    let t = exchanged(s, k, p);
    assert forall|c: int| 0 < c < t.len() && c != p implies pair_le(
        t[parent(c)].pair(),
        (#[trigger] t[c]).pair(),
    ) by {
        if c != k && parent(c) == p {
            lemma_pair_le_transitive(s[k].pair(), s[p].pair(), s[c].pair());
        }
    }
    assert forall|c: int| 0 < c < t.len() && parent(c) == p && p > 0 implies pair_le(
        t[parent(p)].pair(),
        (#[trigger] t[c]).pair(),
    ) by {
        if c != k {
            lemma_pair_le_transitive(s[parent(p)].pair(), s[p].pair(), s[c].pair());
        }
    }
}

/// The slots of the streams that have a pending pair, least pair first.
pub(crate) struct SlotHeap {
    slots: Vec<Slot>,
}

/// Exchanges the slots at `a` and `b`.
fn exchange(slots: &mut Vec<Slot>, a: usize, b: usize)
    requires
        a < old(slots).len(),
        b < old(slots).len(),
        a != b,
    ensures
        final(slots)@ == exchanged(old(slots)@, a as int, b as int),
{
    let mut held = Slot::vacant();
    core::mem::swap(&mut slots[a], &mut held);
    core::mem::swap(&mut slots[b], &mut held);
    core::mem::swap(&mut slots[a], &mut held);
}

impl SlotHeap {
    /// The heap is ordered and holds at most one slot per stream.
    pub(crate) closed spec fn inv(&self) -> bool {
        &&& ordered(self.slots@)
        &&& distinct(self.slots@)
    }

    /// The pending pair of each stream that has a slot in the heap.
    pub(crate) closed spec fn heads(&self) -> Map<int, (Seq<u8>, u64)> {
        heads_of(self.slots@)
    }

    /// How many slots the heap holds.
    pub(crate) closed spec fn len(&self) -> nat {
        self.slots@.len()
    }

    /// A heap without slots is one without heads.
    pub(crate) proof fn lemma_len_heads(&self)
        requires
            self.inv(),
        ensures
            self.len() == 0 <==> self.heads().dom() =~= Set::<int>::empty(),
    {
        if self.slots@.len() > 0 {
            lemma_heads_at(self.slots@, 0);
        }
    }

    /// An empty heap.
    pub(crate) fn new() -> (heap: SlotHeap)
        ensures
            heap.inv(),
            heap.len() == 0,
            heap.heads() == Map::<int, (Seq<u8>, u64)>::empty(),
    {
        SlotHeap { slots: Vec::new() }
    }

    /// Moves the slot at `start` up until the one above it does not come
    /// after it.
    fn sift_up(&mut self, start: usize)
        requires
            start < old(self).slots@.len(),
            distinct(old(self).slots@),
            ordered_above(old(self).slots@, start as int),
        ensures
            final(self).inv(),
            final(self).heads() == old(self).heads(),
            final(self).len() == old(self).len(),
    {
        let mut k: usize = start;
        while k > 0
            invariant
                k < self.slots@.len(),
                self.slots@.len() == old(self).slots@.len(),
                distinct(self.slots@),
                heads_of(self.slots@) == heads_of(old(self).slots@),
                ordered_above(self.slots@, k as int),
            ensures
                ordered(self.slots@),
            decreases k,
        {
            let p: usize = (k - 1) / 2;
            if !self.slots[k].precedes(&self.slots[p]) {
                break;
            }
            proof {
                lemma_step_up(self.slots@, k as int);
                lemma_exchange_heads(self.slots@, k as int, p as int);
            }
            exchange(&mut self.slots, k, p);
            k = p;
        }
    }

    /// Moves the slot at `start` down until none of those below it comes
    /// before it.
    fn sift_down(&mut self, start: usize)
        requires
            start < old(self).slots@.len(),
            distinct(old(self).slots@),
            ordered_below(old(self).slots@, start as int),
        ensures
            final(self).inv(),
            final(self).heads() == old(self).heads(),
            final(self).len() == old(self).len(),
    {
        let n: usize = self.slots.len();
        let mut k: usize = start;
        while k < n / 2
            invariant
                n == self.slots@.len(),
                n == old(self).slots@.len(),
                k < n,
                distinct(self.slots@),
                heads_of(self.slots@) == heads_of(old(self).slots@),
                ordered_below(self.slots@, k as int),
            ensures
                ordered(self.slots@),
            decreases n - k,
        {
            let left: usize = 2 * k + 1;
            let mut m: usize = left;
            if left + 1 < n && self.slots[left + 1].precedes(&self.slots[left]) {
                m = left + 1;
            }
            if !self.slots[m].precedes(&self.slots[k]) {
                proof {
                    assert forall|c: int| 0 < c < n && parent(c) == k implies pair_le(
                        self.slots@[k as int].pair(),
                        (#[trigger] self.slots@[c]).pair(),
                    ) by {
                        lemma_pair_le_transitive(
                            self.slots@[k as int].pair(),
                            self.slots@[m as int].pair(),
                            self.slots@[c].pair(),
                        );
                    }
                }
                break;
            }
            proof {
                lemma_exchange_heads(self.slots@, k as int, m as int);
            }
            exchange(&mut self.slots, k, m);
            k = m;
        }
    }

    /// Adds the slot of a stream that has none in the heap.
    pub(crate) fn push(&mut self, slot: Slot)
        requires
            old(self).inv(),
            !old(self).heads().dom().contains(slot.ordinal()),
        ensures
            final(self).inv(),
            final(self).heads() == old(self).heads().insert(slot.ordinal(), slot.pair()),
            final(self).len() == old(self).len() + 1,
    {
        proof {
            lemma_push_heads(self.slots@, slot);
        }
        let k: usize = self.slots.len();
        self.slots.push(slot);
        self.sift_up(k);
    }

    /// The slot with the least pending pair, if there is any.
    pub(crate) fn peek(&self) -> (r: Option<&Slot>)
        requires
            self.inv(),
        ensures
            r is None <==> self.len() == 0,
            r matches Some(slot) ==> is_least_head(self.heads(), slot.ordinal(), slot.pair()),
    {
        if self.slots.len() == 0 {
            None
        } else {
            proof {
                lemma_least_head(self.slots@);
            }
            Some(&self.slots[0])
        }
    }

    /// Removes and returns the slot with the least pending pair, if there is
    /// any.
    pub(crate) fn pop(&mut self) -> (r: Option<Slot>)
        requires
            old(self).inv(),
        ensures
            final(self).inv(),
            r is None <==> old(self).len() == 0,
            r is None ==> final(self).heads() == old(self).heads() && final(self).len() == 0,
            r matches Some(slot) ==> {
                &&& is_least_head(old(self).heads(), slot.ordinal(), slot.pair())
                &&& final(self).heads() == old(self).heads().remove(slot.ordinal())
                &&& final(self).len() == old(self).len() - 1
            },
    {
        let n: usize = self.slots.len();
        if n == 0 {
            return None;
        }
        proof {
            lemma_least_head(self.slots@);
        }
        let mut slot = self.slots.pop().unwrap();
        if n == 1 {
            return Some(slot);
        }
        proof {
            lemma_replace_root_heads(old(self).slots@);
        }
        core::mem::swap(&mut self.slots[0], &mut slot);
        self.sift_down(0);
        Some(slot)
    }
}

} // verus!
