//! Lazy k-way merging of sorted key/value streams, as a union or as an
//! intersection.
//!
//! A [`ops::StreamOp`] collects input streams, each ascending by key, and
//! turns into a cursor: [`ops::StreamUnion`] hands out every key that some
//! stream holds, [`ops::StreamIntersection`] every key that all streams
//! hold, in ascending order, each with the list of what the streams
//! contribute to it. A stream is read only when the merge needs its next
//! pair.
//!
//! Every function is verified against the model in [`model`]: a stream is
//! the sequence of pairs it has yet to produce. [`laws`] states what a whole
//! run of a cursor produces.

pub mod keys;
pub mod model;
pub mod lemmas;
pub mod stream;
pub mod ops;
pub mod laws;
pub(crate) mod slot;
pub(crate) mod heap;
pub(crate) mod stream_heap;
