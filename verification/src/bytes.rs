//! Fixed-width integer encodings and an in-memory byte reader.
//!
//! Cell files store their header and overflow records little-endian and their
//! points (and the occupancy bit sets) big-endian. Floating-point values are
//! carried as their IEEE-754 bit patterns, so an `f32` field is a `u32` here.
use vstd::prelude::*;

verus! {

/// The big-endian bytes of a `u32`.
pub open spec fn u32_be(v: u32) -> Seq<u8> {
    seq![(v >> 24u32) as u8, (v >> 16u32) as u8, (v >> 8u32) as u8, v as u8]
}

/// The little-endian bytes of a `u32`.
pub open spec fn u32_le(v: u32) -> Seq<u8> {
    seq![v as u8, (v >> 8u32) as u8, (v >> 16u32) as u8, (v >> 24u32) as u8]
}

/// The little-endian bytes of an `i32` (two's complement).
pub open spec fn i32_le(v: i32) -> Seq<u8> {
    u32_le(v as u32)
}

/// The `u32` whose big-endian bytes are `b0 b1 b2 b3`.
pub open spec fn be_u32(b0: u8, b1: u8, b2: u8, b3: u8) -> u32 {
    ((b0 as u32) << 24u32) | ((b1 as u32) << 16u32) | ((b2 as u32) << 8u32) | (b3 as u32)
}

/// The `u32` whose little-endian bytes are `b0 b1 b2 b3`.
pub open spec fn le_u32(b0: u8, b1: u8, b2: u8, b3: u8) -> u32 {
    be_u32(b3, b2, b1, b0)
}

/// Decoding the big-endian bytes of `v` gives `v` back.
pub proof fn lemma_be_u32_roundtrip(v: u32)
    ensures
        be_u32(u32_be(v)[0], u32_be(v)[1], u32_be(v)[2], u32_be(v)[3]) == v,
{
    let b0 = (v >> 24u32) as u8;
    let b1 = (v >> 16u32) as u8;
    let b2 = (v >> 8u32) as u8;
    let b3 = v as u8;
    assert(be_u32(b0, b1, b2, b3) == v) by (bit_vector)
        requires
            b0 == (v >> 24u32) as u8,
            b1 == (v >> 16u32) as u8,
            b2 == (v >> 8u32) as u8,
            b3 == v as u8,
    ;
}

/// Encoding the `u32` decoded from four big-endian bytes gives those bytes back.
pub proof fn lemma_u32_be_of_decoded(b0: u8, b1: u8, b2: u8, b3: u8)
    ensures
        u32_be(be_u32(b0, b1, b2, b3)) == seq![b0, b1, b2, b3],
{
    let v = be_u32(b0, b1, b2, b3);
    assert((v >> 24u32) as u8 == b0 && (v >> 16u32) as u8 == b1 && (v >> 8u32) as u8 == b2
        && v as u8 == b3) by (bit_vector)
        requires
            v == ((b0 as u32) << 24u32) | ((b1 as u32) << 16u32) | ((b2 as u32) << 8u32) | (
            b3 as u32),
    ;
    assert(u32_be(v) =~= seq![b0, b1, b2, b3]);
}

/// Encoding the `u32` decoded from four little-endian bytes gives those bytes back.
pub proof fn lemma_u32_le_of_decoded(b0: u8, b1: u8, b2: u8, b3: u8)
    ensures
        u32_le(le_u32(b0, b1, b2, b3)) == seq![b0, b1, b2, b3],
{
    lemma_u32_be_of_decoded(b3, b2, b1, b0);
    assert(u32_le(le_u32(b0, b1, b2, b3)) =~= seq![b0, b1, b2, b3]);
}

/// Decoding the little-endian bytes of `v` gives `v` back.
pub proof fn lemma_le_u32_roundtrip(v: u32)
    ensures
        le_u32(u32_le(v)[0], u32_le(v)[1], u32_le(v)[2], u32_le(v)[3]) == v,
{
    lemma_be_u32_roundtrip(v);
}

/// An `i32` survives the trip through its little-endian bytes.
pub proof fn lemma_le_i32_roundtrip(v: i32)
    ensures
        le_u32(i32_le(v)[0], i32_le(v)[1], i32_le(v)[2], i32_le(v)[3]) as i32 == v,
{
    lemma_le_u32_roundtrip(v as u32);
    assert((v as u32) as i32 == v) by (bit_vector);
}

/// Four big-endian bytes followed by anything determine the `u32` and what follows.
pub proof fn lemma_u32_be_prefix(a: u32, b: u32, s: Seq<u8>, t: Seq<u8>)
    requires
        u32_be(a) + s == u32_be(b) + t,
    ensures
        a == b,
        s == t,
{
    let x = u32_be(a) + s;
    assert(u32_be(a) =~= x.take(4));
    assert(u32_be(b) =~= x.take(4));
    lemma_be_u32_roundtrip(a);
    lemma_be_u32_roundtrip(b);
    assert(s =~= x.skip(4));
    assert(t =~= x.skip(4));
}

/// Four little-endian bytes followed by anything determine the `u32` and what follows.
pub proof fn lemma_u32_le_prefix(a: u32, b: u32, s: Seq<u8>, t: Seq<u8>)
    requires
        u32_le(a) + s == u32_le(b) + t,
    ensures
        a == b,
        s == t,
{
    let x = u32_le(a) + s;
    assert(u32_le(a) =~= x.take(4));
    assert(u32_le(b) =~= x.take(4));
    lemma_le_u32_roundtrip(a);
    lemma_le_u32_roundtrip(b);
    assert(s =~= x.skip(4));
    assert(t =~= x.skip(4));
}

/// Four little-endian bytes followed by anything determine the `i32` and what follows.
pub proof fn lemma_i32_le_prefix(a: i32, b: i32, s: Seq<u8>, t: Seq<u8>)
    requires
        i32_le(a) + s == i32_le(b) + t,
    ensures
        a == b,
        s == t,
{
    lemma_u32_le_prefix(a as u32, b as u32, s, t);
    assert((a as u32) == (b as u32) ==> a == b) by (bit_vector);
}

/// Appends the big-endian bytes of `v`.
pub fn push_u32_be(out: &mut Vec<u8>, v: u32)
    ensures
        final(out)@ == old(out)@ + u32_be(v),
{
    out.push((v >> 24u32) as u8);
    out.push((v >> 16u32) as u8);
    out.push((v >> 8u32) as u8);
    out.push(v as u8);
    assert(final(out)@ =~= old(out)@ + u32_be(v));
}

/// Appends the little-endian bytes of `v`.
pub fn push_u32_le(out: &mut Vec<u8>, v: u32)
    ensures
        final(out)@ == old(out)@ + u32_le(v),
{
    out.push(v as u8);
    out.push((v >> 8u32) as u8);
    out.push((v >> 16u32) as u8);
    out.push((v >> 24u32) as u8);
    assert(final(out)@ =~= old(out)@ + u32_le(v));
}

/// Appends the little-endian bytes of `v`.
pub fn push_i32_le(out: &mut Vec<u8>, v: i32)
    ensures
        final(out)@ == old(out)@ + i32_le(v),
{
    push_u32_le(out, v as u32);
}

/// Why a read failed: the input ended before the value did.
#[derive(Debug, Clone, Copy, PartialEq, Eq)]
pub enum ReadError {
    UnexpectedEof,
}

/// A cursor over an owned byte buffer, read front to back.
pub struct ByteReader {
    data: Vec<u8>,
    pos: usize,
}

impl ByteReader {
    /// The position never passes the end of the buffer.
    pub closed spec fn wf(&self) -> bool {
        self.pos <= self.data.len()
    }

    /// The bytes not read yet.
    pub closed spec fn rest(&self) -> Seq<u8> {
        self.data@.subrange(self.pos as int, self.data@.len() as int)
    }

    /// A reader at the start of `data`.
    pub fn new(data: Vec<u8>) -> (r: Self)
        ensures
            r.wf(),
            r.rest() == data@,
    {
        let r = ByteReader { data, pos: 0 };
        assert(r.rest() =~= r.data@);
        r
    }

    /// Number of bytes not read yet.
    pub fn remaining(&self) -> (n: usize)
        requires
            self.wf(),
        ensures
            n == self.rest().len(),
    {
        self.data.len() - self.pos
    }

    /// Reads one byte.
    pub fn read_u8(&mut self) -> (r: Result<u8, ReadError>)
        requires
            old(self).wf(),
        ensures
            final(self).wf(),
            old(self).rest().len() >= 1 ==> r == Ok::<u8, ReadError>(old(self).rest()[0])
                && final(self).rest() == old(self).rest().skip(1),
            old(self).rest().len() < 1 ==> r == Err::<u8, ReadError>(ReadError::UnexpectedEof)
                && final(self).rest() == old(self).rest(),
            r matches Ok(v) ==> old(self).rest() == seq![v] + final(self).rest(),
    {
        if self.pos < self.data.len() {
            let b = self.data[self.pos];
            self.pos = self.pos + 1;
            assert(self.rest() =~= old(self).rest().skip(1));
            assert(old(self).rest() =~= seq![b] + self.rest());
            Ok(b)
        } else {
            Err(ReadError::UnexpectedEof)
        }
    }

    /// Reads four bytes as a big-endian `u32`.
    pub fn read_u32_be(&mut self) -> (r: Result<u32, ReadError>)
        requires
            old(self).wf(),
        ensures
            final(self).wf(),
            old(self).rest().len() >= 4 ==> r == Ok::<u32, ReadError>(
                be_u32(old(self).rest()[0], old(self).rest()[1], old(self).rest()[2], old(self).rest()[3]),
            ) && final(self).rest() == old(self).rest().skip(4),
            old(self).rest().len() < 4 ==> r == Err::<u32, ReadError>(ReadError::UnexpectedEof)
                && final(self).rest() == old(self).rest(),
            r matches Ok(v) ==> old(self).rest() == u32_be(v) + final(self).rest(),
    {
        if self.data.len() - self.pos >= 4 {
            let p = self.pos;
            let b0 = self.data[p];
            let b1 = self.data[p + 1];
            let b2 = self.data[p + 2];
            let b3 = self.data[p + 3];
            self.pos = p + 4;
            assert(self.rest() =~= old(self).rest().skip(4));
            proof {
                lemma_u32_be_of_decoded(b0, b1, b2, b3);
                assert(old(self).rest() =~= u32_be(be_u32(b0, b1, b2, b3)) + self.rest());
            }
            Ok(((b0 as u32) << 24u32) | ((b1 as u32) << 16u32) | ((b2 as u32) << 8u32) | (b3 as u32))
        } else {
            Err(ReadError::UnexpectedEof)
        }
    }

    /// Reads four bytes as a little-endian `u32`.
    pub fn read_u32_le(&mut self) -> (r: Result<u32, ReadError>)
        requires
            old(self).wf(),
        ensures
            final(self).wf(),
            old(self).rest().len() >= 4 ==> r == Ok::<u32, ReadError>(
                le_u32(old(self).rest()[0], old(self).rest()[1], old(self).rest()[2], old(self).rest()[3]),
            ) && final(self).rest() == old(self).rest().skip(4),
            old(self).rest().len() < 4 ==> r == Err::<u32, ReadError>(ReadError::UnexpectedEof)
                && final(self).rest() == old(self).rest(),
            r matches Ok(v) ==> old(self).rest() == u32_le(v) + final(self).rest(),
    {
        if self.data.len() - self.pos >= 4 {
            let p = self.pos;
            let b0 = self.data[p];
            let b1 = self.data[p + 1];
            let b2 = self.data[p + 2];
            let b3 = self.data[p + 3];
            self.pos = p + 4;
            assert(self.rest() =~= old(self).rest().skip(4));
            proof {
                lemma_u32_le_of_decoded(b0, b1, b2, b3);
                assert(old(self).rest() =~= u32_le(le_u32(b0, b1, b2, b3)) + self.rest());
            }
            Ok(((b3 as u32) << 24u32) | ((b2 as u32) << 16u32) | ((b1 as u32) << 8u32) | (b0 as u32))
        } else {
            Err(ReadError::UnexpectedEof)
        }
    }

    /// Reads four bytes as a little-endian `i32`.
    pub fn read_i32_le(&mut self) -> (r: Result<i32, ReadError>)
        requires
            old(self).wf(),
        ensures
            final(self).wf(),
            old(self).rest().len() >= 4 ==> r == Ok::<i32, ReadError>(
                le_u32(old(self).rest()[0], old(self).rest()[1], old(self).rest()[2], old(self).rest()[3]) as i32,
            ) && final(self).rest() == old(self).rest().skip(4),
            old(self).rest().len() < 4 ==> r == Err::<i32, ReadError>(ReadError::UnexpectedEof)
                && final(self).rest() == old(self).rest(),
            r matches Ok(v) ==> old(self).rest() == i32_le(v) + final(self).rest(),
    {
        match self.read_u32_le() {
            Ok(v) => {
                assert(((v as i32) as u32) == v) by (bit_vector);
                Ok(v as i32)
            },
            Err(e) => Err(e),
        }
    }
    /// Reads four bytes, known to be there, as a little-endian `u32`.
    pub fn take_u32_le(&mut self) -> (v: u32)
        requires
            old(self).wf(),
            old(self).rest().len() >= 4,
        ensures
            final(self).wf(),
            old(self).rest() == u32_le(v) + final(self).rest(),
            final(self).rest().len() == old(self).rest().len() - 4,
    {
        match self.read_u32_le() {
            Ok(v) => v,
            Err(_) => 0,
        }
    }

    /// Reads four bytes, known to be there, as a little-endian `i32`.
    pub fn take_i32_le(&mut self) -> (v: i32)
        requires
            old(self).wf(),
            old(self).rest().len() >= 4,
        ensures
            final(self).wf(),
            old(self).rest() == i32_le(v) + final(self).rest(),
            final(self).rest().len() == old(self).rest().len() - 4,
    {
        match self.read_i32_le() {
            Ok(v) => v,
            Err(_) => 0,
        }
    }

    /// Reads four bytes, known to be there, as a big-endian `u32`.
    pub fn take_u32_be(&mut self) -> (v: u32)
        requires
            old(self).wf(),
            old(self).rest().len() >= 4,
        ensures
            final(self).wf(),
            old(self).rest() == u32_be(v) + final(self).rest(),
            final(self).rest().len() == old(self).rest().len() - 4,
    {
        match self.read_u32_be() {
            Ok(v) => v,
            Err(_) => 0,
        }
    }

    /// Reads a byte known to be there.
    pub fn take_u8(&mut self) -> (v: u8)
        requires
            old(self).wf(),
            old(self).rest().len() >= 1,
        ensures
            final(self).wf(),
            old(self).rest() == seq![v] + final(self).rest(),
            final(self).rest().len() == old(self).rest().len() - 1,
    {
        match self.read_u8() {
            Ok(v) => v,
            Err(_) => 0,
        }
    }
}

} // verus!
