use vstd::prelude::*;

verus! {

/// Reads a byte slice in frames of `N` bytes, front to back, leaving the
/// last partial frame as the remainder.
pub struct ChunkedSlice<'h, const N: usize> {
    bytes: &'h [u8],
}

impl<'h, const N: usize> View for ChunkedSlice<'h, N> {
    type V = Seq<u8>;

    /// The bytes not yet read.
    closed spec fn view(&self) -> Seq<u8> {
        self.bytes@
    }
}

impl<'h, const N: usize> ChunkedSlice<'h, N> {
    pub fn new(bytes: &'h [u8]) -> (r: Self)
        ensures
            r@ == bytes@,
    {
        ChunkedSlice { bytes }
    }

    /// Whether a whole frame is left.
    pub fn has_frame(&self) -> (r: bool)
        ensures
            r == (self@.len() >= N),
    {
        self.bytes.len() >= N
    }

    /// The next whole frame.
    pub fn next_frame(&mut self) -> (r: &'h [u8])
        requires
            old(self)@.len() >= N,
        ensures
            r@ == old(self)@.subrange(0, N as int),
            final(self)@ == old(self)@.subrange(N as int, old(self)@.len() as int),
    {
        let frame = &self.bytes[0..N];
        self.bytes = &self.bytes[N..self.bytes.len()];
        frame
    }

    /// The bytes left over once every whole frame is read.
    pub fn remainder(self) -> (r: &'h [u8])
        requires
            self@.len() < N,
        ensures
            r@ == self@,
    {
        self.bytes
    }
}

} // verus!
