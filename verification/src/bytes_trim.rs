//! A byte view: an owned, growable byte buffer paired with a half-open
//! window `[start, end)` into it. Re-slicing narrows the window only; the
//! underlying storage is never touched.

use vstd::prelude::*;
use vstd::slice::slice_subrange;

verus! {

/// An owned byte buffer together with a window into it. The view of a
/// `BytesTrim` (written `v@`) is the byte sequence inside the window;
/// everything outside the window is retained storage that the view never
/// exposes.
#[derive(Debug)]
pub struct BytesTrim {
    bytes: Vec<u8>,
    start: usize,
    end: usize,
}

impl View for BytesTrim {
    type V = Seq<u8>;

    closed spec fn view(&self) -> Seq<u8> {
        self.bytes@.subrange(self.start as int, self.end as int)
    }
}

impl BytesTrim {
    /// The window always lies within the buffer.
    #[verifier::type_invariant]
    spec fn window_in_bounds(self) -> bool {
        self.start <= self.end <= self.bytes@.len()
    }

    /// Wraps a full buffer as the initial window.
    pub fn new_with_bytes(bytes: Vec<u8>) -> (v: BytesTrim)
        ensures
            v@ == bytes@,
    {
        let end = bytes.len();
        let v = BytesTrim { bytes, start: 0, end };
        proof {
            assert(v@ =~= v.bytes@);
        }
        v
    }

    /// Wraps a buffer windowed to `[start, end)` from the outset.
    pub fn new_with_slice(bytes: Vec<u8>, start: usize, end: usize) -> (v: BytesTrim)
        requires
            start <= end <= bytes@.len(),
        ensures
            v@ == bytes@.subrange(start as int, end as int),
    {
        BytesTrim { bytes, start, end }
    }

    /// The number of bytes in the window.
    pub fn len(&self) -> (n: usize)
        ensures
            n == self@.len(),
    {
        proof {
            use_type_invariant(self);
        }
        self.end - self.start
    }

    /// The byte at position `i` of the window.
    pub fn get(&self, i: usize) -> (b: u8)
        requires
            i < self@.len(),
        ensures
            b == self@[i as int],
    {
        proof {
            use_type_invariant(self);
        }
        self.bytes[self.start + i]
    }

    /// The window as a read-only byte slice.
    pub fn as_ref(&self) -> (s: &[u8])
        ensures
            s@ == self@,
    {
        proof {
            use_type_invariant(self);
        }
        slice_subrange(self.bytes.as_slice(), self.start, self.end)
    }

    /// Shrinks the window in place to `[start, end)`, taken relative to the
    /// current window. The storage is unchanged.
    pub fn self_slice(&mut self, start: usize, end: usize)
        requires
            start <= end <= old(self)@.len(),
        ensures
            final(self)@ == old(self)@.subrange(start as int, end as int),
    {
        proof {
            use_type_invariant(&*self);
        }
        self.end = self.start + end;
        self.start = self.start + start;
        proof {
            assert(self@ =~= old(self)@.subrange(start as int, end as int));
        }
    }

    /// Produces an independent view of `[start, end)` of the current window,
    /// leaving `self` unchanged. This exclusive-ownership buffer copies the
    /// selected bytes; a shared-buffer variant could hand out a second window
    /// over the same storage instead.
    pub fn clone_narrowed(&self, start: usize, end: usize) -> (v: BytesTrim)
        requires
            start <= end <= self@.len(),
        ensures
            v@ == self@.subrange(start as int, end as int),
    {
        proof {
            use_type_invariant(self);
        }
        let sub = copy_slice_range(self.as_ref(), start, end);
        BytesTrim::new_with_bytes(sub)
    }
}

impl PartialEq for BytesTrim {
    /// Equality compares the windows' bytes, not the underlying storage:
    /// two views over different buffers are equal when they expose the same
    /// byte sequence.
    fn eq(&self, other: &BytesTrim) -> (r: bool) {
        let n = self.len();
        if n != other.len() {
            return false;
        }
        let mut i: usize = 0;
        while i < n
            invariant
                i <= n == self@.len() == other@.len(),
                forall|j: int| 0 <= j < i ==> self@[j] == other@[j],
            decreases n - i,
        {
            if self.get(i) != other.get(i) {
                return false;
            }
            i = i + 1;
        }
        proof {
            assert(self@ =~= other@);
        }
        true
    }
}

impl vstd::std_specs::cmp::PartialEqSpecImpl for BytesTrim {
    open spec fn obeys_eq_spec() -> bool {
        true
    }

    open spec fn eq_spec(&self, other: &BytesTrim) -> bool {
        self@ == other@
    }
}

impl Eq for BytesTrim {

}

impl Default for BytesTrim {
    /// An empty buffer with an empty window.
    fn default() -> (v: BytesTrim)
        ensures
            v@ == Seq::<u8>::empty(),
    {
        BytesTrim::new_with_bytes(Vec::new())
    }
}

/// Copies `s[start..end]` into a fresh buffer.
pub fn copy_slice_range(s: &[u8], start: usize, end: usize) -> (v: Vec<u8>)
    requires
        start <= end <= s@.len(),
    ensures
        v@ == s@.subrange(start as int, end as int),
{
    let mut v: Vec<u8> = Vec::new();
    let mut i: usize = start;
    while i < end
        invariant
            start <= i <= end <= s@.len(),
            v@ =~= s@.subrange(start as int, i as int),
        decreases end - i,
    {
        let b = s[i];
        v.push(b);
        i = i + 1;
        proof {
            assert(v@ =~= s@.subrange(start as int, i as int));
        }
    }
    v
}

} // verus!
