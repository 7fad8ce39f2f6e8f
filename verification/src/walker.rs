//! A sequential cursor over an immutable byte buffer.  All multi-byte reads
//! assemble their value from individual bytes in little-endian order, so the
//! result does not depend on the host byte order.

use crate::util::spec_pad_to_align;
use vstd::prelude::*;

verus! {

/// A cursor that walks a borrowed byte buffer from front to back.
pub struct BytesWalker<'a> {
    data: &'a [u8],
    current_index: usize,
}

impl<'a> BytesWalker<'a> {
    /// The whole underlying buffer.
    pub closed spec fn bytes(self) -> Seq<u8> {
        self.data@
    }

    /// The current read position.
    pub closed spec fn index(self) -> int {
        self.current_index as int
    }

    /// The position lies within the buffer, end inclusive.
    pub open spec fn wf(self) -> bool {
        0 <= self.index() <= self.bytes().len()
    }

    /// How many bytes are left to read.
    pub open spec fn remaining(self) -> int {
        self.bytes().len() - self.index()
    }

    /// The bytes that are left to read.
    pub open spec fn remaining_bytes(self) -> Seq<u8> {
        self.bytes().skip(self.index())
    }

    /// Starts a cursor at the beginning of `d`.
    pub fn new(d: &'a [u8]) -> (w: BytesWalker<'a>)
        ensures
            w.bytes() == d@,
            w.index() == 0,
            w.wf(),
    {
        BytesWalker { data: d, current_index: 0 }
    }

    /// How many bytes are left to read.
    pub fn remaining_count(&self) -> (n: usize)
        requires
            self.wf(),
        ensures
            n == self.remaining(),
    {
        self.data.len() - self.current_index
    }

    /// Whether at least one byte is left to read.
    pub fn has_data(&self) -> (r: bool)
        ensures
            r == (self.remaining() > 0),
    {
        self.current_index < self.data.len()
    }

    /// Reads one byte and advances past it.
    pub fn next_u8(&mut self) -> (r: u8)
        requires
            old(self).wf(),
            old(self).remaining() >= 1,
        ensures
            final(self).wf(),
            final(self).bytes() == old(self).bytes(),
            final(self).index() == old(self).index() + 1,
            r == old(self).bytes()[old(self).index()],
    {
        let result = self.data[self.current_index];
        self.current_index = self.current_index + 1;
        result
    }

    /// Reads two bytes as a little-endian unsigned value.
    pub fn next_u16(&mut self) -> (r: u16)
        requires
            old(self).wf(),
            old(self).remaining() >= 2,
        ensures
            final(self).wf(),
            final(self).bytes() == old(self).bytes(),
            final(self).index() == old(self).index() + 2,
            r == vstd::bytes::spec_u16_from_le_bytes(
                old(self).bytes().subrange(old(self).index(), old(self).index() + 2),
            ),
    {
        let buffer_len = self.data.len();
        assert(self.current_index + 2 <= buffer_len);
        let sub = vstd::slice::slice_subrange(self.data, self.current_index, self.current_index + 2);
        self.current_index = self.current_index + 2;
        vstd::bytes::u16_from_le_bytes(sub)
    }

    /// Reads four bytes as a little-endian unsigned value.
    pub fn next_u32(&mut self) -> (r: u32)
        requires
            old(self).wf(),
            old(self).remaining() >= 4,
        ensures
            final(self).wf(),
            final(self).bytes() == old(self).bytes(),
            final(self).index() == old(self).index() + 4,
            r == vstd::bytes::spec_u32_from_le_bytes(
                old(self).bytes().subrange(old(self).index(), old(self).index() + 4),
            ),
    {
        let buffer_len = self.data.len();
        assert(self.current_index + 4 <= buffer_len);
        let sub = vstd::slice::slice_subrange(self.data, self.current_index, self.current_index + 4);
        self.current_index = self.current_index + 4;
        vstd::bytes::u32_from_le_bytes(sub)
    }

    /// Reads four bytes as a little-endian two's-complement signed value.
    pub fn next_i32(&mut self) -> (r: i32)
        requires
            old(self).wf(),
            old(self).remaining() >= 4,
        ensures
            final(self).wf(),
            final(self).bytes() == old(self).bytes(),
            final(self).index() == old(self).index() + 4,
            r == vstd::bytes::spec_u32_from_le_bytes(
                old(self).bytes().subrange(old(self).index(), old(self).index() + 4),
            ) as i32,
    {
        let word = self.next_u32();
        #[verifier::truncate] (word as i32)
    }

    /// Advances to the next multiple of four bytes from the start of the
    /// buffer, or to the end of the buffer if that comes first.
    pub fn align_with_u32(&mut self)
        requires
            old(self).wf(),
        ensures
            final(self).wf(),
            final(self).bytes() == old(self).bytes(),
            final(self).index() == if old(self).index() + spec_pad_to_align(old(self).index(), 4)
                <= old(self).bytes().len() {
                old(self).index() + spec_pad_to_align(old(self).index(), 4)
            } else {
                old(self).bytes().len() as int
            },
    {
        let pad = crate::util::pad_to_align(self.current_index as u64, 4) as usize;
        if pad <= self.data.len() - self.current_index {
            self.current_index = self.current_index + pad;
        } else {
            self.current_index = self.data.len();
        }
    }
}

} // verus!
