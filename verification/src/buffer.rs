//! A bounded byte accumulator of a fixed capacity, the working store of every
//! streaming mode engine.

use vstd::math::min;
use vstd::prelude::*;
use vstd::slice::slice_to_vec;

verus! {

/// Accumulator with a capacity fixed at construction.  `data` holds exactly
/// the bytes accumulated so far, oldest first; its length is the fill level,
/// never above `cap`.
pub struct FixedBuffer {
    pub data: Vec<u8>,
    pub cap: usize,
}

impl FixedBuffer {
    /// The fill level never exceeds the capacity, which is at least one byte.
    pub open spec fn wf(&self) -> bool {
        1 <= self.cap && self.data@.len() <= self.cap
    }

    /// The bytes accumulated so far.
    pub open spec fn view(&self) -> Seq<u8> {
        self.data@
    }

    /// An empty buffer of capacity `cap`.
    pub fn new(cap: usize) -> (r: FixedBuffer)
        requires
            1 <= cap,
        ensures
            r.wf(),
            r.cap == cap,
            r@ == Seq::<u8>::empty(),
    {
        FixedBuffer { data: Vec::new(), cap }
    }

    /// Number of bytes accumulated so far.
    pub fn len(&self) -> (r: usize)
        ensures
            r == self@.len(),
    {
        self.data.len()
    }

    /// The fixed capacity.
    pub fn capacity(&self) -> (r: usize)
        ensures
            r == self.cap,
    {
        self.cap
    }

    /// Whether the buffer holds a complete block.
    pub fn is_full(&self) -> (r: bool)
        ensures
            r == (self@.len() == self.cap),
    {
        self.data.len() == self.cap
    }

    /// Whether the buffer holds nothing at all.
    pub fn is_empty(&self) -> (r: bool)
        ensures
            r == (self@.len() == 0),
    {
        self.data.len() == 0
    }

    /// Copies as many leading bytes of `bytes` as still fit and returns the
    /// count copied; a caller with more data than fits must loop.
    pub fn push_slice(&mut self, bytes: &[u8]) -> (n: usize)
        requires
            old(self).wf(),
        ensures
            final(self).wf(),
            final(self).cap == old(self).cap,
            n == min(old(self).cap - old(self)@.len(), bytes@.len() as int),
            final(self)@ == old(self)@ + bytes@.take(n as int),
    {
        let room = self.cap - self.data.len();
        let n = if bytes.len() < room {
            bytes.len()
        } else {
            room
        };
        let mut i: usize = 0;
        while i < n
            invariant
                i <= n,
                n <= bytes@.len(),
                self.cap == old(self).cap,
                self.data@ == old(self).data@ + bytes@.take(i as int),
                old(self).data@.len() + n <= self.cap,
            decreases n - i,
        {
            let b = bytes[i];
            self.data.push(b);
            i = i + 1;
            assert(old(self).data@ + bytes@.take(i - 1) + seq![b] =~= old(self).data@
                + bytes@.take(i as int));
        }
        n
    }

    /// Hands out the complete block and resets the buffer to empty; only
    /// valid on a full buffer.
    pub fn extract(&mut self) -> (block: Vec<u8>)
        requires
            old(self).wf(),
            old(self)@.len() == old(self).cap,
        ensures
            final(self).wf(),
            final(self).cap == old(self).cap,
            final(self)@ == Seq::<u8>::empty(),
            block@ == old(self)@,
    {
        let mut block: Vec<u8> = Vec::new();
        core::mem::swap(&mut block, &mut self.data);
        block
    }

    /// Replaces the accumulated bytes outright, the canonical reset path;
    /// equivalent to a fresh buffer filled with one `push_slice` of `bytes`.
    pub fn override_contents(&mut self, bytes: &[u8])
        requires
            old(self).wf(),
            bytes@.len() <= old(self).cap,
        ensures
            final(self).wf(),
            final(self).cap == old(self).cap,
            final(self)@ == bytes@,
    {
        self.data = slice_to_vec(bytes);
    }
}

} // verus!
