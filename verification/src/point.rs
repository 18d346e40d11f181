//! A colored point and its 16-byte big-endian record.
use vstd::prelude::*;

use crate::bytes::{lemma_u32_be_of_decoded, lemma_u32_be_prefix, push_u32_be, u32_be, ByteReader, ReadError};

verus! {

/// A point of the cloud. The coordinates are IEEE-754 single-precision values,
/// held as their bit patterns.
#[derive(Debug, Copy, Clone)]
pub struct Point {
    /// Bit patterns of the `x`, `y` and `z` coordinates.
    pub pos: [u32; 3],
    /// RGBA color value 0..=255.
    pub color: [u8; 4],
}

/// The bytes of a point: each coordinate big-endian, then the four color bytes.
pub open spec fn point_bytes(p: Point) -> Seq<u8> {
    u32_be(p.pos[0]) + u32_be(p.pos[1]) + u32_be(p.pos[2]) + seq![
        p.color[0],
        p.color[1],
        p.color[2],
        p.color[3],
    ]
}

/// The bytes of a sequence of points, one record after the other.
pub open spec fn points_bytes(ps: Seq<Point>) -> Seq<u8>
    decreases ps.len(),
{
    if ps.len() == 0 {
        seq![]
    } else {
        point_bytes(ps[0]) + points_bytes(ps.drop_first())
    }
}

/// Appending a point appends its record.
pub proof fn lemma_points_bytes_push(ps: Seq<Point>, p: Point)
    ensures
        points_bytes(ps.push(p)) == points_bytes(ps) + point_bytes(p),
    decreases ps.len(),
{
    if ps.len() == 0 {
        let e = ps.push(p).drop_first();
        assert(e =~= Seq::<Point>::empty());
        assert(points_bytes(e) == Seq::<u8>::empty());
        assert(points_bytes(ps) == Seq::<u8>::empty());
        assert(points_bytes(ps.push(p)) == point_bytes(p) + points_bytes(e));
        assert(points_bytes(ps.push(p)) =~= points_bytes(ps) + point_bytes(p));
    } else {
        lemma_points_bytes_push(ps.drop_first(), p);
        assert(ps.push(p).drop_first() =~= ps.drop_first().push(p));
        assert(points_bytes(ps.push(p)) =~= points_bytes(ps) + point_bytes(p));
    }
}

/// Each record takes 16 bytes.
pub proof fn lemma_points_bytes_len(ps: Seq<Point>)
    ensures
        points_bytes(ps).len() == 16 * ps.len(),
    decreases ps.len(),
{
    if ps.len() > 0 {
        lemma_points_bytes_len(ps.drop_first());
    }
}

/// A point record followed by anything determines the point and what follows.
pub proof fn lemma_point_bytes_prefix(p: Point, q: Point, s: Seq<u8>, t: Seq<u8>)
    requires
        point_bytes(p) + s == point_bytes(q) + t,
    ensures
        p == q,
        s == t,
{
    let a = point_bytes(p) + s;
    let b = point_bytes(q) + t;
    assert(a =~= u32_be(p.pos[0]) + a.skip(4));
    assert(b =~= u32_be(q.pos[0]) + b.skip(4));
    lemma_u32_be_prefix(p.pos[0], q.pos[0], a.skip(4), b.skip(4));
    assert(a.skip(4) =~= u32_be(p.pos[1]) + a.skip(8));
    assert(b.skip(4) =~= u32_be(q.pos[1]) + b.skip(8));
    lemma_u32_be_prefix(p.pos[1], q.pos[1], a.skip(8), b.skip(8));
    assert(a.skip(8) =~= u32_be(p.pos[2]) + a.skip(12));
    assert(b.skip(8) =~= u32_be(q.pos[2]) + b.skip(12));
    lemma_u32_be_prefix(p.pos[2], q.pos[2], a.skip(12), b.skip(12));
    assert(a[12] == b[12] && a[13] == b[13] && a[14] == b[14] && a[15] == b[15]);
    assert(p.pos =~= q.pos);
    assert(p.color =~= q.color);
    assert(s =~= a.skip(16));
    assert(t =~= b.skip(16));
}

/// The records of as many points followed by anything determine the points
/// and what follows.
pub proof fn lemma_points_bytes_prefix(ps: Seq<Point>, qs: Seq<Point>, s: Seq<u8>, t: Seq<u8>)
    requires
        ps.len() == qs.len(),
        points_bytes(ps) + s == points_bytes(qs) + t,
    ensures
        ps == qs,
        s == t,
    decreases ps.len(),
{
    if ps.len() == 0 {
        assert(s =~= points_bytes(ps) + s);
        assert(t =~= points_bytes(qs) + t);
    } else {
        let s1 = points_bytes(ps.drop_first()) + s;
        let t1 = points_bytes(qs.drop_first()) + t;
        assert(points_bytes(ps) + s =~= point_bytes(ps[0]) + s1);
        assert(points_bytes(qs) + t =~= point_bytes(qs[0]) + t1);
        lemma_point_bytes_prefix(ps[0], qs[0], s1, t1);
        lemma_points_bytes_prefix(ps.drop_first(), qs.drop_first(), s, t);
        assert(ps =~= seq![ps[0]] + ps.drop_first());
        assert(qs =~= seq![qs[0]] + qs.drop_first());
    }
}

/// Bit pattern of `0.0f32`.
pub const ZERO_BITS: u32 = 0u32;

impl Default for Point {
    /// The origin, opaque black.
    fn default() -> (p: Self)
        ensures
            p.pos@ == seq![ZERO_BITS, ZERO_BITS, ZERO_BITS],
            p.color@ == seq![0u8, 0u8, 0u8, 255u8],
    {
        let p = Point { pos: [ZERO_BITS, ZERO_BITS, ZERO_BITS], color: [0u8, 0u8, 0u8, 255u8] };
        assert(p.pos@ =~= seq![ZERO_BITS, ZERO_BITS, ZERO_BITS]);
        assert(p.color@ =~= seq![0u8, 0u8, 0u8, 255u8]);
        p
    }
}

impl Point {
    /// A point at the given coordinate bit patterns with the given color.
    pub fn new(x: u32, y: u32, z: u32, color: [u8; 4]) -> (p: Self)
        ensures
            p.pos@ == seq![x, y, z],
            p.color == color,
    {
        let p = Point { pos: [x, y, z], color };
        assert(p.pos@ =~= seq![x, y, z]);
        p
    }

    /// Appends the 16-byte record of the point.
    pub fn write_to(&self, out: &mut Vec<u8>)
        ensures
            final(out)@ == old(out)@ + point_bytes(*self),
    {
        push_u32_be(out, self.pos[0]);
        push_u32_be(out, self.pos[1]);
        push_u32_be(out, self.pos[2]);
        out.push(self.color[0]);
        out.push(self.color[1]);
        out.push(self.color[2]);
        out.push(self.color[3]);
        assert(final(out)@ =~= old(out)@ + point_bytes(*self));
    }

    /// Reads a 16-byte record. Fails when fewer than 16 bytes remain.
    pub fn read_from(reader: &mut ByteReader) -> (r: Result<Self, ReadError>)
        requires
            old(reader).wf(),
        ensures
            final(reader).wf(),
            old(reader).rest().len() >= 16 <==> r is Ok,
            r matches Ok(p) ==> old(reader).rest() == point_bytes(p) + final(reader).rest(),
    {
        if reader.remaining() < 16 {
            return Err(ReadError::UnexpectedEof);
        }
        let ghost s0 = reader.rest();
        let x = reader.take_u32_be();
        let y = reader.take_u32_be();
        let z = reader.take_u32_be();
        let r = reader.take_u8();
        let g = reader.take_u8();
        let b = reader.take_u8();
        let a = reader.take_u8();
        let p = Point::new(x, y, z, [r, g, b, a]);
        proof {
            assert(s0 =~= point_bytes(p) + reader.rest());
        }
        Ok(p)
    }
}

/// The field of a point that a named PLY vertex property sets: a coordinate
/// or a colour channel, by its position.
#[derive(Debug, Clone, Copy, PartialEq, Eq)]
pub enum PointField {
    Position(usize),
    Color(usize),
}

/// The field named `name`: `x`, `y`, `z`; `red` or `r`, `green` or `g`,
/// `blue` or `b`, `alpha` or `a`; no field for any other name. Names are
/// written here by their ASCII codes.
pub open spec fn field_named(name: Seq<u8>) -> Option<PointField> {
    if name == seq![120u8] {
        Some(PointField::Position(0))
    } else if name == seq![121u8] {
        Some(PointField::Position(1))
    } else if name == seq![122u8] {
        Some(PointField::Position(2))
    } else if name == seq![114u8, 101u8, 100u8] || name == seq![114u8] {
        Some(PointField::Color(0))
    } else if name == seq![103u8, 114u8, 101u8, 101u8, 110u8] || name == seq![103u8] {
        Some(PointField::Color(1))
    } else if name == seq![98u8, 108u8, 117u8, 101u8] || name == seq![98u8] {
        Some(PointField::Color(2))
    } else if name == seq![97u8, 108u8, 112u8, 104u8, 97u8] || name == seq![97u8] {
        Some(PointField::Color(3))
    } else {
        None
    }
}

/// The field that the PLY vertex property `name` sets, if any.
pub fn point_field(name: &[u8]) -> (r: Option<PointField>)
    ensures
        r == field_named(name@),
{
    let n = name.len();
    if n == 1 {
        let c = name[0];
        assert(name@ =~= seq![c]);
        if c == 120 {
            Some(PointField::Position(0))
        } else if c == 121 {
            Some(PointField::Position(1))
        } else if c == 122 {
            Some(PointField::Position(2))
        } else if c == 114 {
            Some(PointField::Color(0))
        } else if c == 103 {
            Some(PointField::Color(1))
        } else if c == 98 {
            Some(PointField::Color(2))
        } else if c == 97 {
            Some(PointField::Color(3))
        } else {
            None
        }
    } else if n == 3 && name[0] == 114 && name[1] == 101 && name[2] == 100 {
        assert(name@ =~= seq![114u8, 101u8, 100u8]);
        Some(PointField::Color(0))
    } else if n == 4 && name[0] == 98 && name[1] == 108 && name[2] == 117 && name[3] == 101 {
        assert(name@ =~= seq![98u8, 108u8, 117u8, 101u8]);
        Some(PointField::Color(2))
    } else if n == 5 && name[0] == 103 && name[1] == 114 && name[2] == 101 && name[3] == 101
        && name[4] == 110 {
        assert(name@ =~= seq![103u8, 114u8, 101u8, 101u8, 110u8]);
        Some(PointField::Color(1))
    } else if n == 5 && name[0] == 97 && name[1] == 108 && name[2] == 112 && name[3] == 104
        && name[4] == 97 {
        assert(name@ =~= seq![97u8, 108u8, 112u8, 104u8, 97u8]);
        Some(PointField::Color(3))
    } else {
        None
    }
}

} // verus!
