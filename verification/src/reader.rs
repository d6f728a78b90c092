use vstd::prelude::*;
use vstd::slice::{slice_index_get, slice_subrange};

use crate::error::Error;
use crate::error::SpecError;

verus! {

/// The 16-bit value encoded big-endian by two bytes.
pub open spec fn u16_be(b0: u8, b1: u8) -> u16 {
    (b0 as int * 0x100 + b1 as int) as u16
}

/// The 24-bit value encoded big-endian by three bytes, widened to 32 bits.
pub open spec fn u24_be(b0: u8, b1: u8, b2: u8) -> u32 {
    (b0 as int * 0x10000 + b1 as int * 0x100 + b2 as int) as u32
}

/// Sequential byte reader with bounds checking.
pub(crate) struct Reader<'a> {
    pub(crate) data: &'a [u8],
    pub(crate) pos: usize,
}

impl<'a> Reader<'a> {
    /// The bytes the reader walks over.
    pub(crate) open spec fn data(&self) -> Seq<u8> {
        self.data@
    }

    /// The current offset into the bytes.
    pub(crate) open spec fn pos(&self) -> int {
        self.pos as int
    }

    /// The position never passes the end of the bytes, and the byte count
    /// fits the machine's word size.
    pub(crate) open spec fn wf(&self) -> bool {
        self.pos <= self.data@.len() && self.data@.len() <= usize::MAX
    }

    /// How many bytes have not been consumed yet.
    pub(crate) open spec fn avail(&self) -> int {
        self.data().len() - self.pos()
    }

    pub(crate) fn new(data: &'a [u8]) -> (r: Self)
        ensures
            r.wf(),
            r.data() == data@,
            r.pos() == 0,
    {
        proof {
            vstd::slice::axiom_spec_len::<u8>(data);
        }
        Reader { data, pos: 0 }
    }

    pub(crate) fn remaining(&self) -> (n: usize)
        requires
            self.wf(),
        ensures
            n == self.avail(),
    {
        self.data.len() - self.pos
    }

    pub(crate) fn read_u8(&mut self, field: &'static str) -> (r: Result<u8, Error>)
        requires
            old(self).wf(),
        ensures
            final(self).wf(),
            final(self).data() == old(self).data(),
            match r {
                Ok(v) => old(self).avail() >= 1 && final(self).pos() == old(self).pos() + 1 && v
                    == old(self).data()[old(self).pos()],
                Err(e) => old(self).avail() < 1 && final(self).pos() == old(self).pos() && e@
                    == (SpecError::Truncated { field: field@ }),
            },
    {
        if self.remaining() < 1 {
            return Err(Error::Truncated { field });
        }
        let val = *slice_index_get(self.data, self.pos);
        self.pos = self.pos + 1;
        Ok(val)
    }

    pub(crate) fn read_u16(&mut self, field: &'static str) -> (r: Result<u16, Error>)
        requires
            old(self).wf(),
        ensures
            final(self).wf(),
            final(self).data() == old(self).data(),
            match r {
                Ok(v) => old(self).avail() >= 2 && final(self).pos() == old(self).pos() + 2 && v
                    == u16_be(
                    old(self).data()[old(self).pos()],
                    old(self).data()[old(self).pos() + 1],
                ),
                Err(e) => old(self).avail() < 2 && final(self).pos() == old(self).pos() && e@
                    == (SpecError::Truncated { field: field@ }),
            },
    {
        if self.remaining() < 2 {
            return Err(Error::Truncated { field });
        }
        let b0 = *slice_index_get(self.data, self.pos);
        let b1 = *slice_index_get(self.data, self.pos + 1);
        self.pos = self.pos + 2;
        Ok(b0 as u16 * 0x100 + b1 as u16)
    }

    pub(crate) fn read_u24(&mut self, field: &'static str) -> (r: Result<u32, Error>)
        requires
            old(self).wf(),
        ensures
            final(self).wf(),
            final(self).data() == old(self).data(),
            match r {
                Ok(v) => old(self).avail() >= 3 && final(self).pos() == old(self).pos() + 3 && v
                    == u24_be(
                    old(self).data()[old(self).pos()],
                    old(self).data()[old(self).pos() + 1],
                    old(self).data()[old(self).pos() + 2],
                ),
                Err(e) => old(self).avail() < 3 && final(self).pos() == old(self).pos() && e@
                    == (SpecError::Truncated { field: field@ }),
            },
    {
        if self.remaining() < 3 {
            return Err(Error::Truncated { field });
        }
        let b0 = *slice_index_get(self.data, self.pos);
        let b1 = *slice_index_get(self.data, self.pos + 1);
        let b2 = *slice_index_get(self.data, self.pos + 2);
        self.pos = self.pos + 3;
        Ok(b0 as u32 * 0x10000 + b1 as u32 * 0x100 + b2 as u32)
    }

    pub(crate) fn read_bytes(&mut self, n: usize, field: &'static str) -> (r: Result<
        &'a [u8],
        Error,
    >)
        requires
            old(self).wf(),
        ensures
            final(self).wf(),
            final(self).data() == old(self).data(),
            match r {
                Ok(s) => old(self).avail() >= n && final(self).pos() == old(self).pos() + n && s@
                    == old(self).data().subrange(old(self).pos(), old(self).pos() + n),
                Err(e) => old(self).avail() < n && final(self).pos() == old(self).pos() && e@
                    == (SpecError::Truncated { field: field@ }),
            },
    {
        if self.remaining() < n {
            return Err(Error::Truncated { field });
        }
        let s = slice_subrange(self.data, self.pos, self.pos + n);
        self.pos = self.pos + n;
        Ok(s)
    }
}

} // verus!
