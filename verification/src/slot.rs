//! The buffer that holds one input stream's pending pair.

use vstd::prelude::*;
use crate::keys::{key_equal, key_less, pair_lt};
use crate::ops::FstOutput;
use crate::stream::Output;

verus! {

/// One input stream's pending pair: the stream's ordinal, the key in a
/// buffer that is reused from pair to pair, and the value.
pub(crate) struct Slot {
    idx: usize,
    input: Vec<u8>,
    output: Output,
}

impl Slot {
    /// The ordinal of the stream that this slot belongs to.
    pub(crate) closed spec fn ordinal(&self) -> int {
        self.idx as int
    }

    /// The pair that the slot holds.
    pub(crate) closed spec fn pair(&self) -> (Seq<u8>, u64) {
        (self.input@, self.output@)
    }

    /// An empty slot for the stream `rdr_idx`, with room for a key of 64
    /// bytes.
    pub(crate) fn new(rdr_idx: usize) -> (slot: Slot)
        ensures
            slot.ordinal() == rdr_idx,
            slot.pair() == (Seq::<u8>::empty(), 0u64),
    {
        Slot { idx: rdr_idx, input: Vec::with_capacity(64), output: Output::zero() }
    }

    /// A slot that holds nothing and has allocated nothing, to stand in a
    /// place while its slot is moved.
    pub(crate) fn vacant() -> (slot: Slot)
        ensures
            slot.ordinal() == 0,
            slot.pair() == (Seq::<u8>::empty(), 0u64),
    {
        Slot { idx: 0, input: Vec::new(), output: Output::zero() }
    }

    /// The ordinal of the stream that this slot belongs to.
    pub(crate) fn index(&self) -> (i: usize)
        ensures
            i == self.ordinal(),
    {
        self.idx
    }

    /// What this slot contributes to a merged key.
    pub(crate) fn fst_output(&self) -> (out: FstOutput)
        ensures
            out.index == self.ordinal(),
            out.output == self.pair().1,
    {
        FstOutput { index: self.idx, output: self.output.value() }
    }

    /// The key.
    pub(crate) fn input(&self) -> (key: &[u8])
        ensures
            key@ == self.pair().0,
    {
        self.input.as_slice()
    }

    /// The value.
    pub(crate) fn output(&self) -> (out: Output)
        ensures
            out@ == self.pair().1,
    {
        self.output
    }

    /// Overwrites the key, keeping the buffer.
    pub(crate) fn set_input(&mut self, input: &[u8])
        ensures
            final(self).ordinal() == old(self).ordinal(),
            final(self).pair() == (input@, old(self).pair().1),
    {
        self.input.clear();
        self.input.extend_from_slice(input);
    }

    /// Overwrites the value.
    pub(crate) fn set_output(&mut self, output: Output)
        ensures
            final(self).ordinal() == old(self).ordinal(),
            final(self).pair() == (old(self).pair().0, output@),
    {
        self.output = output;
    }

    /// Whether this slot's pair leaves a merge strictly before `other`'s.
    pub(crate) fn precedes(&self, other: &Slot) -> (r: bool)
        ensures
            r == pair_lt(self.pair(), other.pair()),
    {
        if key_less(self.input.as_slice(), other.input.as_slice()) {
            true
        } else if key_equal(self.input.as_slice(), other.input.as_slice()) {
            self.output().value() < other.output().value()
        } else {
            false
        }
    }
}

} // verus!
