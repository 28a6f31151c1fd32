//! Streams of `(key, value)` pairs: the interface that a merge consumes, and
//! a stream over pairs held in memory.

use vstd::prelude::*;
use crate::keys::{key_less, key_lt};
use crate::lemmas::lemma_adjacent_ascending;
use crate::model::ascending;

verus! {

/// The value that a stream attaches to a key. The merge carries it through
/// and orders by it only where two streams give the same key.
#[derive(Clone, Copy, Debug)]
pub struct Output {
    val: u64,
}

impl View for Output {
    type V = u64;

    closed spec fn view(&self) -> u64 {
        self.val
    }
}

impl Output {
    /// The output that stands for `val`.
    pub fn new(val: u64) -> (out: Output)
        ensures
            out@ == val,
    {
        Output { val }
    }

    /// The additive identity.
    pub fn zero() -> (out: Output)
        ensures
            out@ == 0,
    {
        Output { val: 0 }
    }

    /// The number behind this output.
    pub fn value(&self) -> (val: u64)
        ensures
            val == self@,
    {
        self.val
    }
}

/// A single-pass, forward-only source of `(key, value)` pairs.
///
/// `pending` is the sequence of pairs that the stream has yet to produce;
/// each call of `next` hands out its first pair and leaves the rest. A merge
/// asks in addition that the stream be ascending by key.
pub trait Stream {
    /// What the implementation needs to hold of its own state.
    spec fn inv(&self) -> bool;

    /// The pairs still to come, in the order in which they will come.
    spec fn pending(&self) -> Seq<(Seq<u8>, u64)>;

    /// Produces the next pair, or `None` once the stream is exhausted. The
    /// key is lent out until the next call.
    fn next(&mut self) -> (r: Option<(&[u8], Output)>)
        requires
            old(self).inv(),
        ensures
            final(self).inv(),
            match r {
                Some((key, out)) => {
                    &&& old(self).pending().len() > 0
                    &&& old(self).pending()[0] == (key@, out@)
                    &&& final(self).pending() == old(self).pending().skip(1)
                },
                None => {
                    &&& old(self).pending().len() == 0
                    &&& final(self).pending() == old(self).pending()
                },
            },
    ;
}

/// The model of a vector of pairs: each key by its bytes.
pub open spec fn pairs_of(items: Seq<(Vec<u8>, u64)>) -> Seq<(Seq<u8>, u64)> {
    Seq::new(items.len(), |i: int| (items[i].0@, items[i].1))
}

/// A stream over pairs held in a vector, produced front to back.
pub struct VecStream {
    items: Vec<(Vec<u8>, u64)>,
    pos: usize,
}

impl VecStream {
    /// A stream that will produce `items` in order.
    pub fn new(items: Vec<(Vec<u8>, u64)>) -> (s: VecStream)
        ensures
            s.inv(),
            s.pending() == pairs_of(items@),
    {
        VecStream { items, pos: 0 }
    }

    /// Whether what is left of the stream is strictly ascending by key, as a
    /// merge needs it to be.
    pub fn is_ascending(&self) -> (r: bool)
        requires
            self.inv(),
        ensures
            r == ascending(self.pending()),
    {
        let n: usize = self.items.len();
        if n - self.pos < 2 {
            return true;
        }
        let ghost s = self.pending();
        let mut i: usize = self.pos + 1;
        while i < n
            invariant
                self.inv(),
                n == self.items.len(),
                s == self.pending(),
                self.pos < i <= n,
                forall|j: int| 0 < j < i - self.pos ==> key_lt(#[trigger] s[j - 1].0, s[j].0),
            decreases n - i,
        {
            if !key_less(self.items[i - 1].0.as_slice(), self.items[i].0.as_slice()) {
                assert(!key_lt(s[i - 1 - self.pos].0, s[i - self.pos].0));
                return false;
            }
            i = i + 1;
        }
        proof {
            lemma_adjacent_ascending(s);
        }
        true
    }
}

impl Stream for VecStream {
    closed spec fn inv(&self) -> bool {
        self.pos <= self.items.len()
    }

    closed spec fn pending(&self) -> Seq<(Seq<u8>, u64)> {
        pairs_of(self.items@).skip(self.pos as int)
    }

    fn next(&mut self) -> (r: Option<(&[u8], Output)>) {
        if self.pos < self.items.len() {
            let i: usize = self.pos;
            self.pos = i + 1;
            Some((self.items[i].0.as_slice(), Output::new(self.items[i].1)))
        } else {
            None
        }
    }
}

/// A stream behind a box is a stream: it produces what the stream inside
/// produces. With `Box<dyn Stream>` streams of different types can be merged.
impl<T: Stream + ?Sized> Stream for Box<T> {
    open spec fn inv(&self) -> bool {
        (**self).inv()
    }

    open spec fn pending(&self) -> Seq<(Seq<u8>, u64)> {
        (**self).pending()
    }

    fn next(&mut self) -> (r: Option<(&[u8], Output)>) {
        (**self).next()
    }
}

} // verus!
