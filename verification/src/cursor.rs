//! A bounded byte cursor: position and end over a shared immutable buffer.

use crate::errors::IdlError;
use vstd::prelude::*;

verus! {

/// A bounded, forward-only view over a byte range: a current position and an
/// end bound. Every read advances the position; a read that would cross the
/// end fails instead.
#[derive(Clone, Copy, Debug, PartialEq, Eq, Structural)]
pub struct Cursor {
    pub pos: usize,
    pub end: usize,
}

impl Cursor {
    /// Well-formedness with respect to the byte buffer the cursor ranges over.
    pub open spec fn wf(self, data: Seq<u8>) -> bool {
        self.pos <= self.end && self.end <= data.len()
    }

    /// A cursor over the whole of `data`.
    pub fn new(data: &Vec<u8>) -> (c: Cursor)
        ensures
            c.wf(data@),
            c.pos == 0,
            c.end == data@.len(),
    {
        Cursor { pos: 0, end: data.len() }
    }

    /// A cursor from `pos` to `end`; fails when the range is not within `data`.
    pub fn at(data: &Vec<u8>, pos: usize, end: usize) -> (r: Result<Cursor, IdlError>)
        ensures
            r matches Ok(c) ==> c.wf(data@) && c.pos == pos && c.end == end,
            r is Ok <==> pos <= end && end <= data@.len(),
    {
        if pos <= end && end <= data.len() {
            Ok(Cursor { pos, end })
        } else {
            Err(IdlError::BufferExhausted)
        }
    }

    /// Reads one byte and advances.
    pub fn read_byte(&mut self, data: &Vec<u8>) -> (r: Result<u8, IdlError>)
        requires
            old(self).wf(data@),
        ensures
            final(self).wf(data@),
            final(self).end == old(self).end,
            r is Ok <==> old(self).pos < old(self).end,
            r matches Ok(b) ==> b == data@[old(self).pos as int]
                && final(self).pos == old(self).pos + 1,
            r is Err ==> *final(self) == *old(self),
            r matches Err(e) ==> e == IdlError::BufferExhausted,
    {
        if self.pos < self.end {
            let b = data[self.pos];
            self.pos = self.pos + 1;
            Ok(b)
        } else {
            Err(IdlError::BufferExhausted)
        }
    }

    /// Advances `n` bytes without reading them.
    pub fn advance(&mut self, data: &Vec<u8>, n: usize) -> (r: Result<(), IdlError>)
        requires
            old(self).wf(data@),
        ensures
            final(self).wf(data@),
            final(self).end == old(self).end,
            r is Ok <==> old(self).pos + n <= old(self).end,
            r is Ok ==> final(self).pos == old(self).pos + n,
            r is Err ==> *final(self) == *old(self),
            r matches Err(e) ==> e == IdlError::BufferExhausted,
    {
        if n <= self.end - self.pos {
            self.pos = self.pos + n;
            Ok(())
        } else {
            Err(IdlError::BufferExhausted)
        }
    }

    /// Reads four bytes as one little-endian 32-bit word.
    pub fn read_word_le(&mut self, data: &Vec<u8>) -> (r: Result<u32, IdlError>)
        requires
            old(self).wf(data@),
        ensures
            final(self).wf(data@),
            final(self).end == old(self).end,
            r is Ok <==> old(self).pos + 4 <= old(self).end,
            r matches Ok(w) ==> w == crate::cursor::word_at(data@, old(self).pos as int)
                && final(self).pos == old(self).pos + 4,
            r is Err ==> *final(self) == *old(self),
            r matches Err(e) ==> e == IdlError::BufferExhausted,
    {
        if 4 <= self.end - self.pos {
            let b0 = data[self.pos] as u32;
            let b1 = data[self.pos + 1] as u32;
            let b2 = data[self.pos + 2] as u32;
            let b3 = data[self.pos + 3] as u32;
            self.pos = self.pos + 4;
            Ok(b0 + 256 * b1 + 65536 * b2 + 16777216 * b3)
        } else {
            Err(IdlError::BufferExhausted)
        }
    }
}

/// The little-endian 32-bit word formed by the four bytes at `i`.
pub open spec fn word_at(s: Seq<u8>, i: int) -> int {
    s[i] + 256 * s[i + 1] + 65536 * s[i + 2] + 16777216 * s[i + 3]
}

} // verus!
