//! A forward-only reader over borrowed bytes.
use crate::endian::{be16_value, be32_value, u16_from_be, u32_from_be};
use crate::error::CodecError;
use vstd::prelude::*;

verus! {

/// A position in a borrowed byte slice; reads consume from the position on.
pub struct Cursor<'a> {
    data: &'a [u8],
    pos: usize,
}

impl<'a> Cursor<'a> {
    /// All the bytes the cursor reads from, consumed or not.
    pub closed spec fn data(&self) -> Seq<u8> {
        self.data@
    }

    /// How many bytes have been consumed.
    pub closed spec fn pos(&self) -> nat {
        self.pos as nat
    }

    pub open spec fn wf(&self) -> bool {
        self.pos() <= self.data().len()
    }

    /// The bytes not yet consumed.
    pub open spec fn rest(&self) -> Seq<u8> {
        self.data().skip(self.pos() as int)
    }

    /// A cursor at the start of `data`.
    pub fn new(data: &'a [u8]) -> (r: Cursor<'a>)
        ensures
            r.wf(),
            r.data() == data@,
            r.pos() == 0,
    {
        Cursor { data, pos: 0 }
    }

    pub fn position(&self) -> (r: usize)
        ensures
            r == self.pos(),
    {
        self.pos
    }

    /// The number of bytes not yet consumed.
    pub fn remaining(&self) -> (r: usize)
        requires
            self.wf(),
        ensures
            r == self.rest().len(),
    {
        self.data.len() - self.pos
    }

    /// Consumes the next `n` bytes, or fails with `Underflow`, consuming
    /// nothing, when fewer remain.
    pub fn read_bytes(&mut self, n: usize) -> (r: Result<Vec<u8>, CodecError>)
        requires
            old(self).wf(),
        ensures
            final(self).wf(),
            final(self).data() == old(self).data(),
            n <= old(self).rest().len() ==> (r matches Ok(v) && v@ == old(self).rest().take(n as int)
                && final(self).pos() == old(self).pos() + n),
            n > old(self).rest().len() ==> r == Err::<Vec<u8>, CodecError>(CodecError::Underflow)
                && *final(self) == *old(self),
    {
        if n > self.data.len() - self.pos {
            return Err(CodecError::Underflow);
        }
        let start = self.pos;
        let end = start + n;
        let mut v: Vec<u8> = Vec::new();
        let mut i: usize = start;
        while i < end
            invariant
                start <= i <= end,
                end <= self.data@.len(),
                v@ == self.data@.subrange(start as int, i as int),
            decreases end - i,
        {
            v.push(self.data[i]);
            i = i + 1;
            assert(v@ =~= self.data@.subrange(start as int, i as int));
        }
        assert(v@ =~= old(self).rest().take(n as int));
        self.pos = self.pos + n;
        Ok(v)
    }

    /// Consumes one byte.
    pub fn read_u8(&mut self) -> (r: Result<u8, CodecError>)
        requires
            old(self).wf(),
        ensures
            final(self).wf(),
            final(self).data() == old(self).data(),
            old(self).rest().len() >= 1 ==> r == Ok::<u8, CodecError>(old(self).rest()[0])
                && final(self).pos() == old(self).pos() + 1,
            old(self).rest().len() < 1 ==> r == Err::<u8, CodecError>(CodecError::Underflow)
                && *final(self) == *old(self),
    {
        if self.pos >= self.data.len() {
            return Err(CodecError::Underflow);
        }
        let b = self.data[self.pos];
        self.pos = self.pos + 1;
        Ok(b)
    }

    /// Consumes a big-endian `u16`.
    pub fn read_u16(&mut self) -> (r: Result<u16, CodecError>)
        requires
            old(self).wf(),
        ensures
            final(self).wf(),
            final(self).data() == old(self).data(),
            old(self).rest().len() >= 2 ==> r == Ok::<u16, CodecError>(
                be16_value(old(self).rest().take(2)),
            ) && final(self).pos() == old(self).pos() + 2,
            old(self).rest().len() < 2 ==> r == Err::<u16, CodecError>(CodecError::Underflow)
                && *final(self) == *old(self),
    {
        let b = self.read_bytes(2)?;
        Ok(u16_from_be(b.as_slice()))
    }

    /// Consumes a big-endian `u32`.
    pub fn read_u32(&mut self) -> (r: Result<u32, CodecError>)
        requires
            old(self).wf(),
        ensures
            final(self).wf(),
            final(self).data() == old(self).data(),
            old(self).rest().len() >= 4 ==> r == Ok::<u32, CodecError>(
                be32_value(old(self).rest().take(4)),
            ) && final(self).pos() == old(self).pos() + 4,
            old(self).rest().len() < 4 ==> r == Err::<u32, CodecError>(CodecError::Underflow)
                && *final(self) == *old(self),
    {
        let b = self.read_bytes(4)?;
        Ok(u32_from_be(b.as_slice()))
    }
}

} // verus!
