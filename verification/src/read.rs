//! Byte sources for decoding: a cursor over a borrowed slice, and the
//! reference type through which payload bytes are handed out without copying.

use vstd::prelude::*;

verus! {

/// Error of reading from an in-memory byte source.
#[derive(Clone, Copy, Debug, PartialEq, Eq, Structural)]
pub enum BytesReadError {
    /// Fewer bytes remained than the read asked for.
    InsufficientBytes { expected: usize, actual: usize, position: u64 },
}

/// Unification of both borrowed and non-borrowed reference types.
#[derive(Clone, Copy, Debug, PartialEq)]
pub enum Reference<'b, 'c> {
    /// The reference points at data that was borrowed from the input.
    Borrowed(&'b [u8]),
    /// The reference points at data that was copied into a scratch buffer.
    Copied(&'c [u8]),
}

impl<'b, 'c> Reference<'b, 'c> {
    /// The bytes behind the reference, wherever they live.
    pub open spec fn bytes(self) -> Seq<u8> {
        match self {
            Reference::Borrowed(b) => b@,
            Reference::Copied(c) => c@,
        }
    }
}

/// A byte source that can hand out slices of its input directly, enabling
/// zero-copy decoding.
pub trait ReadSlice<'de> {
    /// The bytes not yet consumed.
    spec fn remaining(&self) -> Seq<u8>;

    /// Reads exactly `len` bytes as a reference. A short source reports how
    /// many bytes it held and consumes nothing.
    fn read_slice<'a>(&'a mut self, len: usize) -> (r: Result<Reference<'de, 'a>, BytesReadError>)
        ensures
            len <= old(self).remaining().len() ==> {
                &&& r matches Ok(rf) && rf.bytes() == old(self).remaining().take(len as int)
                &&& final(self).remaining() == old(self).remaining().skip(len as int)
            },
            len > old(self).remaining().len() ==> {
                &&& r == Err::<Reference<'de, 'a>, BytesReadError>(
                    BytesReadError::InsufficientBytes {
                        expected: len,
                        actual: old(self).remaining().len() as usize,
                        position: 0,
                    },
                )
                &&& final(self).remaining() == old(self).remaining()
            },
    ;
}

/// Borrowed reader: a cursor over a byte slice that hands out sub-slices of
/// the input itself.
#[derive(Debug)]
pub struct ReadRefReader<'a> {
    buf: &'a [u8],
}

impl<'a> View for ReadRefReader<'a> {
    type V = Seq<u8>;

    closed spec fn view(&self) -> Seq<u8> {
        self.buf@
    }
}

impl<'a> ReadRefReader<'a> {
    /// Starts a cursor over the whole slice.
    pub fn new(bytes: &'a [u8]) -> (r: Self)
        ensures
            r@ == bytes@,
    {
        ReadRefReader { buf: bytes }
    }

    /// Reads exactly `len` bytes as a slice of the input. A short source
    /// reports how many bytes it held and consumes nothing.
    pub fn read_bytes(&mut self, len: usize) -> (r: Result<&'a [u8], BytesReadError>)
        ensures
            len <= old(self)@.len() ==> {
                &&& r matches Ok(b) && b@ == old(self)@.take(len as int)
                &&& final(self)@ == old(self)@.skip(len as int)
            },
            len > old(self)@.len() ==> {
                &&& r == Err::<&'a [u8], BytesReadError>(
                    BytesReadError::InsufficientBytes {
                        expected: len,
                        actual: old(self)@.len() as usize,
                        position: 0,
                    },
                )
                &&& final(self)@ == old(self)@
            },
    {
        if self.buf.len() < len {
            return Err(
                BytesReadError::InsufficientBytes {
                    expected: len,
                    actual: self.buf.len(),
                    position: 0,
                },
            );
        }
        let (a, b) = self.buf.split_at(len);
        self.buf = b;
        Ok(a)
    }

    /// Reads the next byte. A drained source reports itself and consumes
    /// nothing.
    pub fn read_byte(&mut self) -> (r: Result<u8, BytesReadError>)
        ensures
            old(self)@.len() > 0 ==> {
                &&& r == Ok::<u8, BytesReadError>(old(self)@.first())
                &&& final(self)@ == old(self)@.skip(1)
            },
            old(self)@.len() == 0 ==> {
                &&& r == Err::<u8, BytesReadError>(
                    BytesReadError::InsufficientBytes { expected: 1, actual: 0, position: 0 },
                )
                &&& final(self)@ == old(self)@
            },
    {
        if self.buf.len() == 0 {
            return Err(BytesReadError::InsufficientBytes { expected: 1, actual: 0, position: 0 });
        }
        let b = self.buf[0];
        let (_, rest) = self.buf.split_at(1);
        self.buf = rest;
        Ok(b)
    }
}

impl<'de> ReadSlice<'de> for ReadRefReader<'de> {
    open spec fn remaining(&self) -> Seq<u8> {
        self@
    }

    fn read_slice<'a>(&'a mut self, len: usize) -> (r: Result<Reference<'de, 'a>, BytesReadError>)
        ensures
            len <= old(self).remaining().len() ==> (r matches Ok(rf) && rf matches Reference::Borrowed(_)),
    {
        match self.read_bytes(len) {
            Ok(b) => Ok(Reference::Borrowed(b)),
            Err(e) => Err(e),
        }
    }
}

} // verus!
