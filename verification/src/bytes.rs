//! Big-endian integers and the byte cursor that every decoder reads through.

use byteorder::{BigEndian, ByteOrder};
use vstd::prelude::*;
use vstd::slice::{slice_subrange, slice_to_vec};

use crate::error::DecodeError;

verus! {

/// The unsigned 16-bit integer whose big-endian encoding is `b0 b1`.
pub open spec fn be_u16(b0: u8, b1: u8) -> u16 {
    (b0 as int * 0x100 + b1 as int) as u16
}

/// The unsigned 32-bit integer whose big-endian encoding is `b0 b1 b2 b3`.
pub open spec fn be_u32(b0: u8, b1: u8, b2: u8, b3: u8) -> u32 {
    (b0 as int * 0x100_0000 + b1 as int * 0x1_0000 + b2 as int * 0x100 + b3 as int) as u32
}

/// Whether `n` bytes of `s` start at `pos`.
pub open spec fn has_bytes(s: Seq<u8>, pos: int, n: int) -> bool {
    0 <= pos && 0 <= n && pos + n <= s.len()
}

/// The big-endian `u16` that starts at `pos` in `s`.
pub open spec fn u16_at(s: Seq<u8>, pos: int) -> u16 {
    be_u16(s[pos], s[pos + 1])
}

/// The big-endian `u32` that starts at `pos` in `s`.
pub open spec fn u32_at(s: Seq<u8>, pos: int) -> u32 {
    be_u32(s[pos], s[pos + 1], s[pos + 2], s[pos + 3])
}

/// The big-endian encoding of `value`.
pub open spec fn u16_bytes(value: u16) -> Seq<u8> {
    seq![(value / 0x100) as u8, (value % 0x100) as u8]
}

/// The big-endian encoding of `value`.
pub open spec fn u32_bytes(value: u32) -> Seq<u8> {
    seq![
        (value / 0x100_0000) as u8,
        (value / 0x1_0000 % 0x100) as u8,
        (value / 0x100 % 0x100) as u8,
        (value % 0x100) as u8,
    ]
}

/// The big-endian encoding of the integer made of two bytes is those
/// bytes.
pub proof fn lemma_u16_digits(b0: u8, b1: u8)
    ensures
        be_u16(b0, b1) / 0x100 == b0,
        be_u16(b0, b1) % 0x100 == b1,
{
}

/// The integer made of the bytes of an encoding is the integer that was
/// encoded.
pub proof fn lemma_u16_undigits(value: u16)
    ensures
        be_u16((value / 0x100) as u8, (value % 0x100) as u8) == value,
{
}

/// The big-endian encoding of the integer made of four bytes is those
/// bytes.
pub proof fn lemma_u32_digits(b0: u8, b1: u8, b2: u8, b3: u8)
    ensures
        be_u32(b0, b1, b2, b3) / 0x100_0000 == b0,
        be_u32(b0, b1, b2, b3) / 0x1_0000 % 0x100 == b1,
        be_u32(b0, b1, b2, b3) / 0x100 % 0x100 == b2,
        be_u32(b0, b1, b2, b3) % 0x100 == b3,
{
}

/// The integer made of the bytes of an encoding is the integer that was
/// encoded.
pub proof fn lemma_u32_undigits(value: u32)
    ensures
        be_u32(
            (value / 0x100_0000) as u8,
            (value / 0x1_0000 % 0x100) as u8,
            (value / 0x100 % 0x100) as u8,
            (value % 0x100) as u8,
        ) == value,
{
}

/// The two bytes from which a `u16` is read are its encoding.
pub proof fn lemma_u16_bytes_at(s: Seq<u8>, pos: int)
    requires
        has_bytes(s, pos, 2),
    ensures
        u16_bytes(u16_at(s, pos)) == s.subrange(pos, pos + 2),
{
    lemma_u16_digits(s[pos], s[pos + 1]);
    assert(u16_bytes(u16_at(s, pos)) =~= s.subrange(pos, pos + 2));
}

/// The four bytes from which a `u32` is read are its encoding.
pub proof fn lemma_u32_bytes_at(s: Seq<u8>, pos: int)
    requires
        has_bytes(s, pos, 4),
    ensures
        u32_bytes(u32_at(s, pos)) == s.subrange(pos, pos + 4),
{
    lemma_u32_digits(s[pos], s[pos + 1], s[pos + 2], s[pos + 3]);
    assert(u32_bytes(u32_at(s, pos)) =~= s.subrange(pos, pos + 4));
}

/// Whether `s` holds the bytes `part` from `pos` on.
pub closed spec fn holds_at(s: Seq<u8>, pos: int, part: Seq<u8>) -> bool {
    has_bytes(s, pos, part.len() as int) && s.subrange(pos, pos + part.len()) == part
}

/// A sequence holds a part at an offset where it has as many bytes from
/// there on as the part has, and they are the part's.
pub proof fn lemma_holds_at(s: Seq<u8>, pos: int, part: Seq<u8>)
    ensures
        holds_at(s, pos, part) <==> has_bytes(s, pos, part.len() as int) && s.subrange(
            pos,
            pos + part.len(),
        ) == part,
{
}

/// A sequence holds itself at its start.
pub proof fn lemma_holds_whole(s: Seq<u8>)
    ensures
        holds_at(s, 0, s),
{
    assert(s.subrange(0, s.len() as int) =~= s);
}

/// A sequence holds two parts one behind the other exactly where it holds
/// their concatenation.
pub proof fn lemma_holds_both(s: Seq<u8>, pos: int, first: Seq<u8>, second: Seq<u8>)
    ensures
        holds_at(s, pos, first + second) <==> holds_at(s, pos, first) && holds_at(
            s,
            pos + first.len(),
            second,
        ),
{
    let both = first + second;
    let mid = pos + first.len();
    if holds_at(s, pos, both) {
        assert(s.subrange(pos, mid) =~= both.subrange(0, first.len() as int));
        assert(both.subrange(0, first.len() as int) =~= first);
        assert(s.subrange(mid, mid + second.len()) =~= both.subrange(
            first.len() as int,
            both.len() as int,
        ));
        assert(both.subrange(first.len() as int, both.len() as int) =~= second);
    }
    if holds_at(s, pos, first) && holds_at(s, mid, second) {
        assert(s.subrange(pos, pos + both.len()) =~= s.subrange(pos, mid) + s.subrange(
            mid,
            mid + second.len(),
        ));
    }
}

/// Where a sequence holds the encoding of a `u16`, that integer is read.
pub proof fn lemma_u16_at_held(s: Seq<u8>, pos: int, value: u16)
    requires
        holds_at(s, pos, u16_bytes(value)),
    ensures
        has_bytes(s, pos, 2),
        u16_at(s, pos) == value,
{
    let part = s.subrange(pos, pos + 2);
    assert(part[0] == s[pos] && part[1] == s[pos + 1]);
    lemma_u16_undigits(value);
}

/// Where a sequence holds the encoding of a `u32`, that integer is read.
pub proof fn lemma_u32_at_held(s: Seq<u8>, pos: int, value: u32)
    requires
        holds_at(s, pos, u32_bytes(value)),
    ensures
        has_bytes(s, pos, 4),
        u32_at(s, pos) == value,
{
    let part = s.subrange(pos, pos + 4);
    assert(part[0] == s[pos] && part[1] == s[pos + 1] && part[2] == s[pos + 2] && part[3] == s[pos
        + 3]);
    lemma_u32_undigits(value);
}

/// `byteorder::ByteOrder::read_u16` of `byteorder::BigEndian`. Trusted: on a
/// buffer of at least two bytes it returns the integer whose big-endian
/// encoding is the first two of them. Shorter buffers make it panic and are
/// excluded.
#[verifier::external_body]
fn read_be_u16(buf: &[u8]) -> (value: u16)
    requires
        buf@.len() >= 2,
    ensures
        value == be_u16(buf@[0], buf@[1]),
{
    BigEndian::read_u16(buf)
}

/// `byteorder::ByteOrder::read_u32` of `byteorder::BigEndian`. Trusted: on a
/// buffer of at least four bytes it returns the integer whose big-endian
/// encoding is the first four of them. Shorter buffers make it panic and are
/// excluded.
#[verifier::external_body]
fn read_be_u32(buf: &[u8]) -> (value: u32)
    requires
        buf@.len() >= 4,
    ensures
        value == be_u32(buf@[0], buf@[1], buf@[2], buf@[3]),
{
    BigEndian::read_u32(buf)
}

/// A sequential reader over a borrowed byte buffer. Reads never go past the
/// end of the buffer: a read that would do so fails with
/// [`DecodeError::UnexpectedEnd`] and leaves the cursor where it was.
pub struct ByteCursor<'a> {
    data: &'a [u8],
    pos: usize,
}

impl<'a> ByteCursor<'a> {
    #[verifier::type_invariant]
    spec fn in_bounds(self) -> bool {
        self.pos <= self.data@.len()
    }

    /// The whole buffer that the cursor reads from.
    pub closed spec fn bytes(self) -> Seq<u8> {
        self.data@
    }

    /// The offset of the next byte to read.
    pub closed spec fn position(self) -> int {
        if self.pos <= self.data@.len() {
            self.pos as int
        } else {
            0
        }
    }

    /// The cursor never stands outside its buffer.
    pub proof fn lemma_position_in_bounds(self)
        ensures
            0 <= self.position() <= self.bytes().len(),
    {
    }

    /// A cursor at the start of `data`.
    pub fn new(data: &'a [u8]) -> (cursor: Self)
        ensures
            cursor.bytes() == data@,
            cursor.position() == 0,
    {
        ByteCursor { data, pos: 0 }
    }

    /// The offset of the next byte to read.
    pub fn offset(&self) -> (pos: usize)
        ensures
            pos == self.position(),
    {
        proof {
            use_type_invariant(self);
        }
        self.pos
    }

    /// The number of bytes that are left to read.
    pub fn remaining(&self) -> (n: usize)
        ensures
            n == self.bytes().len() - self.position(),
    {
        proof {
            use_type_invariant(self);
        }
        self.data.len() - self.pos
    }

    /// Reads one byte.
    pub fn read_u8(&mut self) -> (r: Result<u8, DecodeError>)
        ensures
            final(self).bytes() == old(self).bytes(),
            match r {
                Ok(value) => has_bytes(old(self).bytes(), old(self).position(), 1) && value
                    == old(self).bytes()[old(self).position()] && final(self).position()
                    == old(self).position() + 1,
                Err(e) => !has_bytes(old(self).bytes(), old(self).position(), 1) && e
                    == DecodeError::UnexpectedEnd && final(self).position() == old(
                    self,
                ).position(),
            },
    {
        proof {
            use_type_invariant(&*self);
        }
        if self.data.len() - self.pos < 1 {
            return Err(DecodeError::UnexpectedEnd);
        }
        let value: u8 = self.data[self.pos];
        self.pos = self.pos + 1;
        Ok(value)
    }

    /// Reads a big-endian `u16`.
    pub fn read_u16(&mut self) -> (r: Result<u16, DecodeError>)
        ensures
            final(self).bytes() == old(self).bytes(),
            match r {
                Ok(value) => has_bytes(old(self).bytes(), old(self).position(), 2) && value
                    == u16_at(old(self).bytes(), old(self).position()) && final(self).position()
                    == old(self).position() + 2,
                Err(e) => !has_bytes(old(self).bytes(), old(self).position(), 2) && e
                    == DecodeError::UnexpectedEnd && final(self).position() == old(
                    self,
                ).position(),
            },
    {
        proof {
            use_type_invariant(&*self);
        }
        if self.data.len() - self.pos < 2 {
            return Err(DecodeError::UnexpectedEnd);
        }
        let field = slice_subrange(self.data, self.pos, self.pos + 2);
        let value: u16 = read_be_u16(field);
        self.pos = self.pos + 2;
        Ok(value)
    }

    /// Reads a big-endian `u32`.
    pub fn read_u32(&mut self) -> (r: Result<u32, DecodeError>)
        ensures
            final(self).bytes() == old(self).bytes(),
            match r {
                Ok(value) => has_bytes(old(self).bytes(), old(self).position(), 4) && value
                    == u32_at(old(self).bytes(), old(self).position()) && final(self).position()
                    == old(self).position() + 4,
                Err(e) => !has_bytes(old(self).bytes(), old(self).position(), 4) && e
                    == DecodeError::UnexpectedEnd && final(self).position() == old(
                    self,
                ).position(),
            },
    {
        proof {
            use_type_invariant(&*self);
        }
        if self.data.len() - self.pos < 4 {
            return Err(DecodeError::UnexpectedEnd);
        }
        let field = slice_subrange(self.data, self.pos, self.pos + 4);
        let value: u32 = read_be_u32(field);
        self.pos = self.pos + 4;
        Ok(value)
    }

    /// Reads the next `n` bytes into an owned buffer.
    pub fn read_exact(&mut self, n: usize) -> (r: Result<Vec<u8>, DecodeError>)
        ensures
            final(self).bytes() == old(self).bytes(),
            match r {
                Ok(buf) => has_bytes(old(self).bytes(), old(self).position(), n as int) && buf@
                    == old(self).bytes().subrange(
                    old(self).position(),
                    old(self).position() + n,
                ) && final(self).position() == old(self).position() + n,
                Err(e) => !has_bytes(old(self).bytes(), old(self).position(), n as int) && e
                    == DecodeError::UnexpectedEnd && final(self).position() == old(
                    self,
                ).position(),
            },
    {
        proof {
            use_type_invariant(&*self);
        }
        if self.data.len() - self.pos < n {
            return Err(DecodeError::UnexpectedEnd);
        }
        let field = slice_subrange(self.data, self.pos, self.pos + n);
        let buf = slice_to_vec(field);
        self.pos = self.pos + n;
        Ok(buf)
    }

    /// Reads the next `limit` bytes into an owned buffer: [`Self::read_exact`]
    /// for a length of 32 bits, as the length fields of a class file are.
    pub fn read_limit(&mut self, limit: u32) -> (r: Result<Vec<u8>, DecodeError>)
        ensures
            final(self).bytes() == old(self).bytes(),
            match r {
                Ok(buf) => has_bytes(old(self).bytes(), old(self).position(), limit as int) && buf@
                    == old(self).bytes().subrange(
                    old(self).position(),
                    old(self).position() + limit,
                ) && final(self).position() == old(self).position() + limit,
                Err(e) => !has_bytes(old(self).bytes(), old(self).position(), limit as int) && e
                    == DecodeError::UnexpectedEnd && final(self).position() == old(
                    self,
                ).position(),
            },
    {
        self.read_exact(limit as usize)
    }
}

} // verus!
