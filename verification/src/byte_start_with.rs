//! A simpler byte view: an owned buffer exposed from a fixed start offset
//! onward. Unlike [`crate::bytes_trim::BytesTrim`] it cannot be narrowed
//! after construction.

use vstd::prelude::*;
use vstd::slice::slice_subrange;

verus! {

/// An owned byte buffer whose view is everything from `start_with` on.
#[derive(Debug)]
pub struct ByteStartWith {
    bytes: Vec<u8>,
    start_with: usize,
}

impl View for ByteStartWith {
    type V = Seq<u8>;

    closed spec fn view(&self) -> Seq<u8> {
        self.bytes@.subrange(self.start_with as int, self.bytes@.len() as int)
    }
}

impl ByteStartWith {
    /// The start offset never passes the end of the buffer.
    #[verifier::type_invariant]
    spec fn start_in_bounds(self) -> bool {
        self.start_with <= self.bytes@.len()
    }

    /// Wraps a buffer, exposing it from `start_with` on.
    pub fn new(bytes: Vec<u8>, start_with: usize) -> (v: ByteStartWith)
        requires
            start_with <= bytes@.len(),
        ensures
            v@ == bytes@.subrange(start_with as int, bytes@.len() as int),
    {
        ByteStartWith { bytes, start_with }
    }

    /// The exposed bytes as a read-only slice.
    pub fn as_ref(&self) -> (s: &[u8])
        ensures
            s@ == self@,
    {
        proof {
            use_type_invariant(self);
        }
        slice_subrange(self.bytes.as_slice(), self.start_with, self.bytes.len())
    }
}

} // verus!
