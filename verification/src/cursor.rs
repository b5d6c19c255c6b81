//! A read position inside a borrowed byte buffer.
use vstd::prelude::*;
use crate::error::DecodeError;

verus! {

/// The failure of a read of `n` bytes at `pos` in a buffer that ends too
/// early for it.
pub open spec fn truncated(data: Seq<u8>, pos: int, n: int) -> DecodeError {
    DecodeError::TruncatedInput { position: pos as usize, missing: (pos + n - data.len()) as u64 }
}

/// A view into a byte buffer together with the offset of the next unread
/// byte. The cursor never owns the buffer, and its offset only ever grows.
pub struct ByteCursor<'a> {
    data: &'a [u8],
    pos: usize,
}

impl<'a> ByteCursor<'a> {
    /// The whole buffer, read and unread parts alike.
    pub closed spec fn bytes(&self) -> Seq<u8> {
        self.data@
    }

    /// Offset of the next unread byte.
    pub closed spec fn offset(&self) -> nat {
        self.pos as nat
    }

    #[verifier::type_invariant]
    spec fn in_bounds(&self) -> bool {
        self.pos <= self.data@.len()
    }

    /// A cursor at the start of `data`.
    pub fn new(data: &'a [u8]) -> (cursor: Self)
        ensures
            cursor.bytes() == data@,
            cursor.offset() == 0,
    {
        ByteCursor { data, pos: 0 }
    }

    /// Offset of the next unread byte.
    pub fn position(&self) -> (p: usize)
        ensures
            p == self.offset(),
            p <= self.bytes().len(),
    {
        proof {
            use_type_invariant(self);
        }
        self.pos
    }

    /// Number of bytes not yet read.
    pub fn remaining(&self) -> (n: usize)
        ensures
            n == self.bytes().len() - self.offset(),
    {
        proof {
            use_type_invariant(self);
        }
        self.data.len() - self.pos
    }

    /// Reads one byte.
    pub fn read_byte(&mut self) -> (r: Result<u8, DecodeError>)
        ensures
            final(self).bytes() == old(self).bytes(),
            match r {
                Ok(b) => {
                    &&& old(self).offset() < old(self).bytes().len()
                    &&& b == old(self).bytes()[old(self).offset() as int]
                    &&& final(self).offset() == old(self).offset() + 1
                },
                Err(e) => {
                    &&& old(self).offset() >= old(self).bytes().len()
                    &&& e == truncated(old(self).bytes(), old(self).offset() as int, 1)
                    &&& final(self).offset() == old(self).offset()
                },
            },
    {
        proof {
            use_type_invariant(&*self);
        }
        if self.pos < self.data.len() {
            let b = self.data[self.pos];
            self.pos = self.pos + 1;
            Ok(b)
        } else {
            Err(DecodeError::TruncatedInput { position: self.pos, missing: 1 })
        }
    }

    /// Reads the next `n` bytes as one slice of the buffer.
    pub fn take(&mut self, n: u64) -> (r: Result<&'a [u8], DecodeError>)
        ensures
            final(self).bytes() == old(self).bytes(),
            match r {
                Ok(s) => {
                    &&& old(self).offset() + n <= old(self).bytes().len()
                    &&& s@ == old(self).bytes().subrange(
                        old(self).offset() as int,
                        old(self).offset() + n,
                    )
                    &&& final(self).offset() == old(self).offset() + n
                },
                Err(e) => {
                    &&& old(self).offset() + n > old(self).bytes().len()
                    &&& e == truncated(old(self).bytes(), old(self).offset() as int, n as int)
                    &&& final(self).offset() == old(self).offset()
                },
            },
    {
        proof {
            use_type_invariant(&*self);
        }
        let left = (self.data.len() - self.pos) as u64;
        if n <= left {
            let end = self.pos + n as usize;
            let s = vstd::slice::slice_subrange(self.data, self.pos, end);
            self.pos = end;
            Ok(s)
        } else {
            Err(DecodeError::TruncatedInput { position: self.pos, missing: n - left })
        }
    }
}

} // verus!
