//! An in-memory byte buffer with a read position.
use vstd::prelude::*;

verus! {

/// A byte buffer with a cursor.
pub struct BufferReader {
    /// The bytes.
    pub buffer: Vec<u8>,
    cursor: usize,
}

impl BufferReader {
    /// The read position.
    pub closed spec fn cursor_spec(&self) -> usize {
        self.cursor
    }

    /// The bytes.
    pub closed spec fn bytes(&self) -> Seq<u8> {
        self.buffer@
    }

    /// A reader over `buffer`, positioned at its start.
    pub fn new(buffer: Vec<u8>) -> (r: BufferReader)
        ensures
            r.bytes() == buffer@,
            r.cursor_spec() == 0,
    {
        BufferReader { buffer, cursor: 0 }
    }

    /// The number of bytes in the buffer.
    pub fn byte_length(&self) -> (r: usize)
        ensures
            r == self.bytes().len(),
    {
        self.buffer.len()
    }

    /// The read position.
    pub fn tell(&self) -> (r: usize)
        ensures
            r == self.cursor_spec(),
    {
        self.cursor
    }

    /// Moves the read position to `pos`.
    pub fn seek(&mut self, pos: usize)
        ensures
            final(self).cursor_spec() == pos,
            final(self).bytes() == old(self).bytes(),
    {
        self.cursor = pos;
    }
}

} // verus!
