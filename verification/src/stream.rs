//! In-memory byte cursors: a seekable `Reader` over an owned byte buffer and
//! an appending `Writer`, together with the big-endian integer layout the
//! atom format uses.

use crate::error::{Error, ErrorKind};
use vstd::prelude::*;

verus! {

/// The integer value of two big-endian bytes.
pub open spec fn be16_val(b: Seq<u8>) -> int
    recommends
        b.len() == 2,
{
    b[0] * 256 + b[1]
}

/// The integer value of four big-endian bytes.
pub open spec fn be32_val(b: Seq<u8>) -> int
    recommends
        b.len() == 4,
{
    be16_val(b.subrange(0, 2)) * 0x10000 + be16_val(b.subrange(2, 4))
}

/// The two big-endian bytes of a value below 2^16.
pub open spec fn be16_bytes(n: int) -> Seq<u8>
    recommends
        0 <= n < 0x10000,
{
    seq![((n / 256) % 256) as u8, (n % 256) as u8]
}

/// The four big-endian bytes of a value below 2^32.
pub open spec fn be32_bytes(n: int) -> Seq<u8>
    recommends
        0 <= n < 0x100000000,
{
    be16_bytes(n / 0x10000) + be16_bytes(n % 0x10000)
}

/// `n` zero bytes.
pub open spec fn zeros(n: nat) -> Seq<u8> {
    Seq::new(n, |i: int| 0u8)
}

/// Reading back the two big-endian bytes of `n` yields `n` again.
pub proof fn lemma_be16_round_trip(n: int)
    requires
        0 <= n < 0x10000,
    ensures
        be16_bytes(n).len() == 2,
        be16_val(be16_bytes(n)) == n,
{
    assert(((n / 256) % 256) * 256 + n % 256 == n) by (nonlinear_arith)
        requires
            0 <= n < 0x10000,
    ;
}

/// Reading back the four big-endian bytes of `n` yields `n` again.
pub proof fn lemma_be32_round_trip(n: int)
    requires
        0 <= n < 0x100000000,
    ensures
        be32_bytes(n).len() == 4,
        be32_val(be32_bytes(n)) == n,
{
    let hi = n / 0x10000;
    let lo = n % 0x10000;
    vstd::arithmetic::div_mod::lemma_multiply_divide_lt(n, 0x10000, 0x10000);
    vstd::arithmetic::div_mod::lemma_fundamental_div_mod(n, 0x10000);
    assert(0 <= hi < 0x10000 && 0 <= lo < 0x10000 && hi * 0x10000 + lo == n);
    lemma_be16_round_trip(hi);
    lemma_be16_round_trip(lo);
    assert(be32_bytes(n).subrange(0, 2) =~= be16_bytes(hi));
    assert(be32_bytes(n).subrange(2, 4) =~= be16_bytes(lo));
}

/// A cursor over an owned byte buffer, reading from front to back.
pub struct Reader {
    pub buf: Vec<u8>,
    pub pos: usize,
}

impl Reader {
    /// The position never runs past the end of the buffer.
    pub open spec fn wf(&self) -> bool {
        self.pos <= self.buf@.len()
    }

    /// How many bytes are left to read.
    pub open spec fn spec_remaining(&self) -> int {
        self.buf@.len() - self.pos
    }

    /// Starts a cursor at the beginning of the given bytes.
    pub fn new(buf: Vec<u8>) -> (r: Reader)
        ensures
            r.buf@ == buf@,
            r.pos == 0,
            r.wf(),
    {
        Reader { buf, pos: 0 }
    }

    pub fn remaining(&self) -> (r: usize)
        requires
            self.wf(),
        ensures
            r == self.spec_remaining(),
    {
        self.buf.len() - self.pos
    }

    /// Reads exactly `length` bytes, advancing the position; fails without
    /// moving when fewer remain.
    pub fn read_exact(&mut self, length: usize) -> (r: Result<Vec<u8>, Error>)
        requires
            old(self).wf(),
        ensures
            final(self).wf(),
            final(self).buf@ == old(self).buf@,
            match r {
                Ok(v) => {
                    &&& old(self).pos + length <= old(self).buf@.len()
                    &&& v@ == old(self).buf@.subrange(
                        old(self).pos as int,
                        old(self).pos + length,
                    )
                    &&& final(self).pos == old(self).pos + length
                },
                Err(e) => {
                    &&& old(self).pos + length > old(self).buf@.len()
                    &&& e.kind == ErrorKind::Io
                    &&& final(self).pos == old(self).pos
                },
            },
    {
        if length > self.buf.len() - self.pos {
            return Err(Error::new(ErrorKind::Io, "unexpected end of data"));
        }
        let ghost buf0 = self.buf@;
        let ghost p0 = self.pos as int;
        let mut v: Vec<u8> = Vec::new();
        let mut i: usize = 0;
        while i < length
            invariant
                self.buf@ == buf0,
                self.pos == p0,
                i <= length,
                p0 + length <= buf0.len(),
                p0 + length <= usize::MAX,
                v@ == buf0.subrange(p0, p0 + i),
            decreases length - i,
        {
            let b = self.buf[self.pos + i];
            v.push(b);
            proof {
                assert(v@ =~= buf0.subrange(p0, p0 + i + 1));
            }
            i = i + 1;
        }
        self.pos = self.pos + length;
        Ok(v)
    }

    /// Moves the position `length` bytes forward; fails without moving when
    /// fewer remain.
    pub fn skip(&mut self, length: usize) -> (r: Result<(), Error>)
        requires
            old(self).wf(),
        ensures
            final(self).wf(),
            final(self).buf@ == old(self).buf@,
            match r {
                Ok(()) => {
                    &&& old(self).pos + length <= old(self).buf@.len()
                    &&& final(self).pos == old(self).pos + length
                },
                Err(e) => {
                    &&& old(self).pos + length > old(self).buf@.len()
                    &&& e.kind == ErrorKind::Io
                    &&& final(self).pos == old(self).pos
                },
            },
    {
        if length > self.buf.len() - self.pos {
            return Err(Error::new(ErrorKind::Io, "unexpected end of data"));
        }
        self.pos = self.pos + length;
        Ok(())
    }

    /// Reads a big-endian 16-bit value.
    pub fn read_be_u16(&mut self) -> (r: Result<u16, Error>)
        requires
            old(self).wf(),
        ensures
            final(self).wf(),
            final(self).buf@ == old(self).buf@,
            match r {
                Ok(n) => {
                    &&& old(self).pos + 2 <= old(self).buf@.len()
                    &&& n == be16_val(
                        old(self).buf@.subrange(old(self).pos as int, old(self).pos + 2),
                    )
                    &&& final(self).pos == old(self).pos + 2
                },
                Err(e) => {
                    &&& old(self).pos + 2 > old(self).buf@.len()
                    &&& e.kind == ErrorKind::Io
                    &&& final(self).pos == old(self).pos
                },
            },
    {
        if 2 > self.buf.len() - self.pos {
            return Err(Error::new(ErrorKind::Io, "unexpected end of data"));
        }
        let b0 = self.buf[self.pos];
        let b1 = self.buf[self.pos + 1];
        self.pos = self.pos + 2;
        Ok((b0 as u16) * 256 + (b1 as u16))
    }

    /// Reads a big-endian 32-bit value.
    pub fn read_be_u32(&mut self) -> (r: Result<u32, Error>)
        requires
            old(self).wf(),
        ensures
            final(self).wf(),
            final(self).buf@ == old(self).buf@,
            match r {
                Ok(n) => {
                    &&& old(self).pos + 4 <= old(self).buf@.len()
                    &&& n == be32_val(
                        old(self).buf@.subrange(old(self).pos as int, old(self).pos + 4),
                    )
                    &&& final(self).pos == old(self).pos + 4
                },
                Err(e) => {
                    &&& old(self).pos + 4 > old(self).buf@.len()
                    &&& e.kind == ErrorKind::Io
                    &&& final(self).pos == old(self).pos
                },
            },
    {
        if 4 > self.buf.len() - self.pos {
            return Err(Error::new(ErrorKind::Io, "unexpected end of data"));
        }
        let b0 = self.buf[self.pos];
        let b1 = self.buf[self.pos + 1];
        let b2 = self.buf[self.pos + 2];
        let b3 = self.buf[self.pos + 3];
        self.pos = self.pos + 4;
        let hi = (b0 as u32) * 256 + (b1 as u32);
        let lo = (b2 as u32) * 256 + (b3 as u32);
        proof {
            let range = old(self).buf@.subrange(old(self).pos as int, old(self).pos + 4);
            assert(range.subrange(0, 2) =~= old(self).buf@.subrange(
                old(self).pos as int,
                old(self).pos + 2,
            ));
            assert(range.subrange(2, 4) =~= old(self).buf@.subrange(
                old(self).pos + 2,
                old(self).pos + 4,
            ));
        }
        Ok(hi * 0x10000 + lo)
    }
}

/// An appending byte sink.
pub struct Writer {
    pub buf: Vec<u8>,
}

impl Writer {
    /// Starts with an empty output.
    pub fn new() -> (r: Writer)
        ensures
            r.buf@ == Seq::<u8>::empty(),
    {
        Writer { buf: Vec::new() }
    }

    /// Hands the written bytes out.
    pub fn into_vec(self) -> (r: Vec<u8>)
        ensures
            r@ == self.buf@,
    {
        self.buf
    }

    /// Appends the given bytes verbatim.
    pub fn write_bytes(&mut self, bytes: &Vec<u8>)
        ensures
            final(self).buf@ == old(self).buf@ + bytes@,
    {
        let ghost buf0 = self.buf@;
        let mut i: usize = 0;
        while i < bytes.len()
            invariant
                i <= bytes@.len(),
                self.buf@ == buf0 + bytes@.subrange(0, i as int),
            decreases bytes@.len() - i,
        {
            let b = bytes[i];
            self.buf.push(b);
            proof {
                assert(buf0 + bytes@.subrange(0, i as int + 1) =~= (buf0 + bytes@.subrange(
                    0,
                    i as int,
                )).push(bytes@[i as int]));
            }
            i = i + 1;
        }
        proof {
            assert(bytes@.subrange(0, bytes@.len() as int) =~= bytes@);
        }
    }

    /// Appends one byte.
    pub fn write_u8(&mut self, b: u8)
        ensures
            final(self).buf@ == old(self).buf@.push(b),
    {
        self.buf.push(b);
    }

    /// Appends `length` zero bytes.
    pub fn write_zeros(&mut self, length: usize)
        ensures
            final(self).buf@ == old(self).buf@ + zeros(length as nat),
    {
        let ghost buf0 = self.buf@;
        let mut i: usize = 0;
        while i < length
            invariant
                i <= length,
                self.buf@ == buf0 + zeros(i as nat),
            decreases length - i,
        {
            self.buf.push(0u8);
            proof {
                assert(buf0 + zeros((i + 1) as nat) =~= (buf0 + zeros(i as nat)).push(0u8));
            }
            i = i + 1;
        }
    }

    /// Appends a 16-bit value as two big-endian bytes.
    pub fn write_be_u16(&mut self, n: u16)
        ensures
            final(self).buf@ == old(self).buf@ + be16_bytes(n as int),
    {
        self.buf.push((n / 256) as u8);
        self.buf.push((n % 256) as u8);
        proof {
            assert(self.buf@ =~= old(self).buf@ + be16_bytes(n as int));
        }
    }

    /// Appends a 32-bit value as four big-endian bytes.
    pub fn write_be_u32(&mut self, n: u32)
        ensures
            final(self).buf@ == old(self).buf@ + be32_bytes(n as int),
    {
        let hi = (n / 0x10000) as u16;
        let lo = (n % 0x10000) as u16;
        self.write_be_u16(hi);
        self.write_be_u16(lo);
        proof {
            assert(self.buf@ =~= old(self).buf@ + be32_bytes(n as int));
        }
    }
}

} // verus!
