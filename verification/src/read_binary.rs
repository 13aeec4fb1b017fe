//! Little-endian scalar reading from an in-memory byte source.
//!
//! `ReadBinary` is the interface the header parser reads through; `ByteReader`
//! is its verified implementation over a byte slice.

use vstd::prelude::*;
use vstd::bytes::{spec_u32_from_le_bytes, spec_u64_from_le_bytes, u32_from_le_bytes, u64_from_le_bytes};
use vstd::slice::slice_subrange;
use crate::arh::ArhError;

verus! {

/// A source of little-endian binary scalars with a running cursor.
pub trait ReadBinary {
    /// The whole underlying byte sequence.
    spec fn bytes(&self) -> Seq<u8>;

    /// The current read position within `bytes()`.
    spec fn cursor(&self) -> nat;

    /// Reads a little-endian `u32` at the cursor and advances by 4,
    /// or fails with `ReadError` leaving everything unchanged when
    /// fewer than 4 bytes remain.
    fn read_le_u32(&mut self, buf: &mut u32) -> (r: Result<(), ArhError>)
        ensures
            final(self).bytes() == old(self).bytes(),
            old(self).cursor() + 4 <= old(self).bytes().len() ==> {
                &&& r is Ok
                &&& final(self).cursor() == old(self).cursor() + 4
                &&& *final(buf) == spec_u32_from_le_bytes(
                    old(self).bytes().subrange(
                        old(self).cursor() as int,
                        old(self).cursor() + 4int,
                    ),
                )
            },
            old(self).cursor() + 4 > old(self).bytes().len() ==> {
                &&& r == Result::<(), ArhError>::Err(ArhError::ReadError)
                &&& final(self).cursor() == old(self).cursor()
                &&& *final(buf) == *old(buf)
            },
    ;

    /// Reads a little-endian `u64` at the cursor and advances by 8,
    /// or fails with `ReadError` leaving everything unchanged when
    /// fewer than 8 bytes remain.
    fn read_le_u64(&mut self, buf: &mut u64) -> (r: Result<(), ArhError>)
        ensures
            final(self).bytes() == old(self).bytes(),
            old(self).cursor() + 8 <= old(self).bytes().len() ==> {
                &&& r is Ok
                &&& final(self).cursor() == old(self).cursor() + 8
                &&& *final(buf) == spec_u64_from_le_bytes(
                    old(self).bytes().subrange(
                        old(self).cursor() as int,
                        old(self).cursor() + 8int,
                    ),
                )
            },
            old(self).cursor() + 8 > old(self).bytes().len() ==> {
                &&& r == Result::<(), ArhError>::Err(ArhError::ReadError)
                &&& final(self).cursor() == old(self).cursor()
                &&& *final(buf) == *old(buf)
            },
    ;
}

/// A cursor over a borrowed byte slice.
pub struct ByteReader<'a> {
    data: &'a [u8],
    pos: usize,
}

impl<'a> ByteReader<'a> {
    /// Starts a reader at the beginning of `data`.
    pub fn new(data: &'a [u8]) -> (r: ByteReader<'a>)
        ensures
            r.bytes() == data@,
            r.cursor() == 0,
    {
        ByteReader { data, pos: 0 }
    }
}

impl<'a> ReadBinary for ByteReader<'a> {
    closed spec fn bytes(&self) -> Seq<u8> {
        self.data@
    }

    closed spec fn cursor(&self) -> nat {
        self.pos as nat
    }

    fn read_le_u32(&mut self, buf: &mut u32) -> (r: Result<(), ArhError>) {
        if self.data.len() >= 4 && self.pos <= self.data.len() - 4 {
            let piece: &[u8] = slice_subrange(self.data, self.pos, self.pos + 4);
            *buf = u32_from_le_bytes(piece);
            self.pos = self.pos + 4;
            Ok(())
        } else {
            Err(ArhError::ReadError)
        }
    }

    fn read_le_u64(&mut self, buf: &mut u64) -> (r: Result<(), ArhError>) {
        if self.data.len() >= 8 && self.pos <= self.data.len() - 8 {
            let piece: &[u8] = slice_subrange(self.data, self.pos, self.pos + 8);
            *buf = u64_from_le_bytes(piece);
            self.pos = self.pos + 8;
            Ok(())
        } else {
            Err(ArhError::ReadError)
        }
    }
}

} // verus!
