use vstd::prelude::*;
use vstd::bytes::{spec_u32_from_le_bytes, spec_u64_from_le_bytes, u32_from_le_bytes,
    u64_from_le_bytes};
use vstd::slice::{slice_subrange, slice_to_vec};
use crate::ArchiveError;

verus! {

/// Sequential little-endian reader over a header byte stream.
///
/// Every read either consumes exactly the requested bytes or fails with
/// `UnexpectedEndOfData` and leaves the cursor where it stood.
pub struct Cursor<'a> {
    data: &'a Vec<u8>,
    pos: usize,
}

impl<'a> Cursor<'a> {
    /// The whole byte stream this cursor walks.
    pub closed spec fn bytes(&self) -> Seq<u8> {
        self.data@
    }

    /// The current read position.
    pub closed spec fn at(&self) -> int {
        self.pos as int
    }

    /// The position never passes the end of the stream.
    pub closed spec fn wf(&self) -> bool {
        self.pos <= self.data@.len()
    }

    pub fn new(data: &'a Vec<u8>) -> (c: Self)
        ensures
            c.wf(),
            c.bytes() == data@,
            c.at() == 0,
    {
        Cursor { data, pos: 0 }
    }

    /// Advance past `n` reserved bytes without interpreting them.
    pub fn skip(&mut self, n: usize) -> (r: Result<(), ArchiveError>)
        requires
            old(self).wf(),
        ensures
            final(self).wf(),
            final(self).bytes() == old(self).bytes(),
            r is Ok <==> old(self).at() + n <= old(self).bytes().len(),
            r is Ok ==> final(self).at() == old(self).at() + n,
            r is Err ==> final(self).at() == old(self).at()
                && r == Err::<(), ArchiveError>(ArchiveError::UnexpectedEndOfData),
    {
        if n <= self.data.len() - self.pos {
            self.pos = self.pos + n;
            Ok(())
        } else {
            Err(ArchiveError::UnexpectedEndOfData)
        }
    }

    /// Read `n` raw bytes into an owned buffer.
    pub fn read_bytes(&mut self, n: usize) -> (r: Result<Vec<u8>, ArchiveError>)
        requires
            old(self).wf(),
        ensures
            final(self).wf(),
            final(self).bytes() == old(self).bytes(),
            r is Ok <==> old(self).at() + n <= old(self).bytes().len(),
            r matches Ok(v) ==> v@ == old(self).bytes().subrange(
                old(self).at(),
                old(self).at() + n,
            ) && final(self).at() == old(self).at() + n,
            r is Err ==> final(self).at() == old(self).at()
                && r == Err::<Vec<u8>, ArchiveError>(ArchiveError::UnexpectedEndOfData),
    {
        if n <= self.data.len() - self.pos {
            let s = slice_subrange(self.data.as_slice(), self.pos, self.pos + n);
            let v = slice_to_vec(s);
            self.pos = self.pos + n;
            Ok(v)
        } else {
            Err(ArchiveError::UnexpectedEndOfData)
        }
    }

    /// Read a 4-byte little-endian unsigned integer.
    pub fn read_u32_le(&mut self) -> (r: Result<u32, ArchiveError>)
        requires
            old(self).wf(),
        ensures
            final(self).wf(),
            final(self).bytes() == old(self).bytes(),
            r is Ok <==> old(self).at() + 4 <= old(self).bytes().len(),
            r matches Ok(v) ==> v == spec_u32_from_le_bytes(
                old(self).bytes().subrange(old(self).at(), old(self).at() + 4),
            ) && final(self).at() == old(self).at() + 4,
            r is Err ==> final(self).at() == old(self).at()
                && r == Err::<u32, ArchiveError>(ArchiveError::UnexpectedEndOfData),
    {
        if 4 <= self.data.len() - self.pos {
            let s = slice_subrange(self.data.as_slice(), self.pos, self.pos + 4);
            let v = u32_from_le_bytes(s);
            self.pos = self.pos + 4;
            Ok(v)
        } else {
            Err(ArchiveError::UnexpectedEndOfData)
        }
    }

    /// Read an 8-byte little-endian unsigned integer.
    pub fn read_u64_le(&mut self) -> (r: Result<u64, ArchiveError>)
        requires
            old(self).wf(),
        ensures
            final(self).wf(),
            final(self).bytes() == old(self).bytes(),
            r is Ok <==> old(self).at() + 8 <= old(self).bytes().len(),
            r matches Ok(v) ==> v == spec_u64_from_le_bytes(
                old(self).bytes().subrange(old(self).at(), old(self).at() + 8),
            ) && final(self).at() == old(self).at() + 8,
            r is Err ==> final(self).at() == old(self).at()
                && r == Err::<u64, ArchiveError>(ArchiveError::UnexpectedEndOfData),
    {
        if 8 <= self.data.len() - self.pos {
            let s = slice_subrange(self.data.as_slice(), self.pos, self.pos + 8);
            let v = u64_from_le_bytes(s);
            self.pos = self.pos + 8;
            Ok(v)
        } else {
            Err(ArchiveError::UnexpectedEndOfData)
        }
    }
}

} // verus!
