//! The byte layout of a cell file, and what reading it yields.
//!
//! A cell file is its header (48 bytes, little-endian), the sub grid's points
//! (16 bytes each, as many as the header counts), one byte with the number of
//! overflow records, then the records: the child cell index (three
//! little-endian `i32`), the number of points (little-endian `u32`, zero for a
//! child whose points are handed on) and the points.
use vstd::prelude::*;

use crate::bytes::{be_u32, i32_le, le_u32, lemma_be_u32_roundtrip, lemma_le_i32_roundtrip, lemma_le_u32_roundtrip, lemma_u32_be_of_decoded, lemma_u32_le_of_decoded, u32_be, u32_le};
use crate::cell::{header_bytes, CellId, CellIndex, Header};
use crate::bytes::{ByteReader, ReadError};
use crate::fxmap::{opt_points, opt_seq_entries};
use crate::point::{point_bytes, points_bytes, lemma_points_bytes_len, lemma_points_bytes_push, Point};

verus! {

/// The bytes of one overflow record.
#[verifier::opaque]
pub open spec fn record_bytes(k: CellIndex, v: Option<Seq<Point>>) -> Seq<u8> {
    i32_le(k.x) + i32_le(k.y) + i32_le(k.z) + match v {
        Some(ps) => u32_le(ps.len() as u32) + points_bytes(ps),
        None => u32_le(0),
    }
}

/// The bytes of a sequence of overflow records.
pub open spec fn records_bytes(rs: Seq<(CellIndex, Option<Seq<Point>>)>) -> Seq<u8>
    decreases rs.len(),
{
    if rs.len() == 0 {
        seq![]
    } else {
        record_bytes(rs[0].0, rs[0].1) + records_bytes(rs.drop_first())
    }
}

/// Appending a record appends its bytes.
pub proof fn lemma_records_bytes_push(rs: Seq<(CellIndex, Option<Seq<Point>>)>, r: (CellIndex, Option<Seq<Point>>))
    ensures
        records_bytes(rs.push(r)) == records_bytes(rs) + record_bytes(r.0, r.1),
    decreases rs.len(),
{
    if rs.len() == 0 {
        let e = rs.push(r).drop_first();
        assert(e =~= Seq::<(CellIndex, Option<Seq<Point>>)>::empty());
        assert(records_bytes(e) == Seq::<u8>::empty());
        assert(records_bytes(rs) == Seq::<u8>::empty());
        assert(records_bytes(rs.push(r)) =~= records_bytes(rs) + record_bytes(r.0, r.1));
    } else {
        lemma_records_bytes_push(rs.drop_first(), r);
        assert(rs.push(r).drop_first() =~= rs.drop_first().push(r));
        assert(records_bytes(rs.push(r)) =~= records_bytes(rs) + record_bytes(r.0, r.1));
    }
}

/// The bytes of a cell file.
pub open spec fn cell_bytes(h: Header, points: Seq<Point>, records: Seq<(CellIndex, Option<Seq<Point>>)>) -> Seq<u8> {
    header_bytes(h) + points_bytes(points) + seq![records.len() as u8] + records_bytes(records)
}

/// A cell file that reads back as written: the header counts the points, there
/// are fewer than 256 records, and a record with points has between 1 and
/// `u32::MAX` of them.
pub open spec fn cell_parts_wf(h: Header, points: Seq<Point>, records: Seq<(CellIndex, Option<Seq<Point>>)>) -> bool {
    &&& points.len() == h.number_of_points
    &&& records.len() < 256
    &&& forall|i: int| 0 <= i < records.len() ==> #[trigger] record_wf(records[i].1)
}

/// A record with points has between 1 and `u32::MAX` of them.
pub open spec fn record_wf(v: Option<Seq<Point>>) -> bool {
    match v {
        Some(ps) => 0 < ps.len() <= u32::MAX,
        None => true,
    }
}

/// The little-endian `u32` at the start of `b`.
pub open spec fn le_at(b: Seq<u8>, i: int) -> u32 {
    le_u32(b[i], b[i + 1], b[i + 2], b[i + 3])
}

/// The point whose record starts `b`.
#[verifier::opaque]
pub open spec fn decode_point(b: Seq<u8>) -> Point {
    Point {
        pos: [be_u32(b[0], b[1], b[2], b[3]), be_u32(b[4], b[5], b[6], b[7]), be_u32(b[8], b[9], b[10], b[11])],
        color: [b[12], b[13], b[14], b[15]],
    }
}

/// The header whose record starts `b`.
#[verifier::opaque]
pub open spec fn decode_header(b: Seq<u8>) -> Header {
    Header {
        id: CellId {
            hierarchy: le_at(b, 0),
            index: CellIndex { x: le_at(b, 4) as i32, y: le_at(b, 8) as i32, z: le_at(b, 12) as i32 },
        },
        total_number_of_points: le_at(b, 16),
        number_of_points: le_at(b, 20),
        number_of_overflow_points: le_at(b, 24),
        sub_grid_dimension: le_at(b, 28),
        size: le_at(b, 32),
        pos: [le_at(b, 36), le_at(b, 40), le_at(b, 44)],
    }
}

/// `n` point records at the start of `b`, if `b` is long enough.
#[verifier::opaque]
pub open spec fn parse_points(b: Seq<u8>, n: nat) -> Option<Seq<Point>> {
    if b.len() >= 16 * n {
        Some(Seq::new(n, |i: int| decode_point(b.skip(16 * i))))
    } else {
        None
    }
}

/// One overflow record at the start of `b`, and its length, if `b` holds one.
#[verifier::opaque]
pub open spec fn parse_record(b: Seq<u8>) -> Option<((CellIndex, Option<Seq<Point>>), nat)> {
    if b.len() < 16 {
        None
    } else {
        let k = CellIndex { x: le_at(b, 0) as i32, y: le_at(b, 4) as i32, z: le_at(b, 8) as i32 };
        let n = le_at(b, 12) as nat;
        if n == 0 {
            Some(((k, None), 16))
        } else {
            match parse_points(b.skip(16), n) {
                Some(ps) => Some(((k, Some(ps)), 16 + 16 * n)),
                None => None,
            }
        }
    }
}

/// `n` overflow records at the start of `b`, and their length, if `b` holds them.
pub open spec fn parse_records(b: Seq<u8>, n: nat) -> Option<(Seq<(CellIndex, Option<Seq<Point>>)>, nat)>
    decreases n,
{
    if n == 0 {
        Some((seq![], 0))
    } else {
        match parse_record(b) {
            Some((r, c)) => match parse_records(b.skip(c as int), (n - 1) as nat) {
                Some((rs, c2)) => Some((seq![r] + rs, c + c2)),
                None => None,
            },
            None => None,
        }
    }
}

/// A cell file at the start of `b`: its header, grid points, overflow records
/// and length, if `b` holds one.
pub open spec fn parse_cell(b: Seq<u8>) -> Option<(Header, Seq<Point>, Seq<(CellIndex, Option<Seq<Point>>)>, nat)> {
    if b.len() < 48 {
        None
    } else {
        let h = decode_header(b);
        let n = h.number_of_points as nat;
        match parse_points(b.skip(48), n) {
            Some(ps) => {
                let after = b.skip((48 + 16 * n) as int);
                if after.len() < 1 {
                    None
                } else {
                    match parse_records(after.skip(1), after[0] as nat) {
                        Some((rs, c)) => Some((h, ps, rs, 48 + 16 * n + 1 + c)),
                        None => None,
                    }
                }
            },
            None => None,
        }
    }
}

/// An `i32` taken as `u32` and back is unchanged.
pub proof fn lemma_i32_through_u32(v: i32)
    ensures
        (v as u32) as i32 == v,
{
    assert((v as u32) as i32 == v) by (bit_vector);
}

/// The little-endian `u32` at the start of the bytes of `v` is `v`.
pub proof fn lemma_le_at_u32(v: u32, s: Seq<u8>)
    ensures
        le_at(u32_le(v) + s, 0) == v,
{
    lemma_le_u32_roundtrip(v);
    let b = u32_le(v) + s;
    assert(b[0] == u32_le(v)[0] && b[1] == u32_le(v)[1] && b[2] == u32_le(v)[2] && b[3] == u32_le(v)[3]);
}

/// Reading at an offset is reading at the start of what follows the offset.
pub proof fn lemma_le_at_skip(b: Seq<u8>, i: int)
    requires
        0 <= i,
        i + 4 <= b.len(),
    ensures
        le_at(b, i) == le_at(b.skip(i), 0),
{
    let c = b.skip(i);
    assert(c[0] == b[i] && c[1] == b[i + 1] && c[2] == b[i + 2] && c[3] == b[i + 3]);
}

/// Parsed points take no more than the bytes there are.
pub proof fn lemma_parse_points_len(b: Seq<u8>, n: nat)
    ensures
        parse_points(b, n) is Some ==> 16 * n <= b.len(),
{
    reveal(parse_points);
}

/// A parsed record takes no more than the bytes there are.
pub proof fn lemma_parse_record_len(b: Seq<u8>)
    ensures
        parse_record(b) matches Some((r, c)) ==> c <= b.len(),
{
    reveal(parse_record);
    if b.len() >= 16 {
        lemma_parse_points_len(b.skip(16), le_at(b, 12) as nat);
    }
}

/// Parsed records take no more than the bytes there are.
pub proof fn lemma_parse_records_len(b: Seq<u8>, n: nat)
    ensures
        parse_records(b, n) matches Some((rs, c)) ==> c <= b.len(),
    decreases n,
{
    if n > 0 {
        lemma_parse_record_len(b);
        if let Some((r, c)) = parse_record(b) {
            lemma_parse_records_len(b.skip(c as int), (n - 1) as nat);
        }
    }
}

/// A point record decodes to its point.
pub proof fn lemma_decode_point(p: Point, t: Seq<u8>)
    ensures
        decode_point(point_bytes(p) + t) == p,
{
    reveal(decode_point);
    let b = point_bytes(p) + t;
    lemma_be_u32_roundtrip(p.pos[0]);
    lemma_be_u32_roundtrip(p.pos[1]);
    lemma_be_u32_roundtrip(p.pos[2]);
    assert(b[0] == u32_be(p.pos[0])[0] && b[1] == u32_be(p.pos[0])[1] && b[2] == u32_be(p.pos[0])[2] && b[3] == u32_be(p.pos[0])[3]);
    assert(b[4] == u32_be(p.pos[1])[0] && b[5] == u32_be(p.pos[1])[1] && b[6] == u32_be(p.pos[1])[2] && b[7] == u32_be(p.pos[1])[3]);
    assert(b[8] == u32_be(p.pos[2])[0] && b[9] == u32_be(p.pos[2])[1] && b[10] == u32_be(p.pos[2])[2] && b[11] == u32_be(p.pos[2])[3]);
    assert(decode_point(b).pos =~= p.pos);
    assert(decode_point(b).color =~= p.color);
}

/// Point records decode to their points.
pub proof fn lemma_parse_points(ps: Seq<Point>, t: Seq<u8>)
    ensures
        parse_points(points_bytes(ps) + t, ps.len()) == Some(ps),
    decreases ps.len(),
{
    reveal(parse_points);
    lemma_points_bytes_len(ps);
    let b = points_bytes(ps) + t;
    if ps.len() > 0 {
        let rest = ps.drop_first();
        lemma_parse_points(rest, t);
        lemma_points_bytes_len(rest);
        let b1 = points_bytes(rest) + t;
        assert(b =~= point_bytes(ps[0]) + b1);
        let got = Seq::new(ps.len(), |i: int| decode_point(b.skip(16 * i)));
        let got1 = Seq::new(rest.len(), |i: int| decode_point(b1.skip(16 * i)));
        assert(got1 == rest);
        assert forall|i: int| 0 <= i < ps.len() implies got[i] == ps[i] by {
            if i == 0 {
                assert(b.skip(0) =~= b);
                lemma_decode_point(ps[0], b1);
            } else {
                assert(b.skip(16 * i) =~= b1.skip(16 * (i - 1)));
                assert(got1[i - 1] == rest[i - 1]);
            }
        }
        assert(got =~= ps);
    }
}

/// A header record decodes to its header.
pub proof fn lemma_decode_header(h: Header, t: Seq<u8>)
    ensures
        decode_header(header_bytes(h) + t) == h,
{
    reveal(decode_header);
    let b = header_bytes(h) + t;
    lemma_le_u32_roundtrip(h.id.hierarchy);
    lemma_le_i32_roundtrip(h.id.index.x);
    lemma_le_i32_roundtrip(h.id.index.y);
    lemma_le_i32_roundtrip(h.id.index.z);
    lemma_le_u32_roundtrip(h.total_number_of_points);
    lemma_le_u32_roundtrip(h.number_of_points);
    lemma_le_u32_roundtrip(h.number_of_overflow_points);
    lemma_le_u32_roundtrip(h.sub_grid_dimension);
    lemma_le_u32_roundtrip(h.size);
    lemma_le_u32_roundtrip(h.pos[0]);
    lemma_le_u32_roundtrip(h.pos[1]);
    lemma_le_u32_roundtrip(h.pos[2]);
    assert(b.take(48) =~= header_bytes(h));
    let d = decode_header(b);
    assert(d.id.hierarchy == h.id.hierarchy);
    assert(d.id.index.x == h.id.index.x);
    assert(d.id.index.y == h.id.index.y);
    assert(d.id.index.z == h.id.index.z);
    assert(d.total_number_of_points == h.total_number_of_points);
    assert(d.number_of_points == h.number_of_points);
    assert(d.number_of_overflow_points == h.number_of_overflow_points);
    assert(d.sub_grid_dimension == h.sub_grid_dimension);
    assert(d.size == h.size);
    assert(d.pos =~= h.pos);
}

/// Law: reading a header takes each field from its place in the record (see
/// `lemma_header_layout`): the little-endian bytes of every field decoded from
/// `b` are the bytes of `b` at that field's offset.
pub proof fn lemma_decode_header_layout(b: Seq<u8>)
    requires
        b.len() >= 48,
    ensures
        u32_le(decode_header(b).id.hierarchy) == b.subrange(0, 4),
        i32_le(decode_header(b).id.index.x) == b.subrange(4, 8),
        i32_le(decode_header(b).id.index.y) == b.subrange(8, 12),
        i32_le(decode_header(b).id.index.z) == b.subrange(12, 16),
        u32_le(decode_header(b).total_number_of_points) == b.subrange(16, 20),
        u32_le(decode_header(b).number_of_points) == b.subrange(20, 24),
        u32_le(decode_header(b).number_of_overflow_points) == b.subrange(24, 28),
        u32_le(decode_header(b).sub_grid_dimension) == b.subrange(28, 32),
        u32_le(decode_header(b).size) == b.subrange(32, 36),
        u32_le(decode_header(b).pos[0]) == b.subrange(36, 40),
        u32_le(decode_header(b).pos[1]) == b.subrange(40, 44),
        u32_le(decode_header(b).pos[2]) == b.subrange(44, 48),
{
    reveal(decode_header);
    let d = decode_header(b);
    assert forall|o: int| 0 <= o <= 44 && o % 4 == 0 implies #[trigger] u32_le(le_at(b, o))
        == b.subrange(o, o + 4) by {
        lemma_u32_le_of_decoded(b[o], b[o + 1], b[o + 2], b[o + 3]);
        assert(b.subrange(o, o + 4) =~= seq![b[o], b[o + 1], b[o + 2], b[o + 3]]);
    }
    assert(u32_le(le_at(b, 4)) == b.subrange(4, 8));
    assert(u32_le(le_at(b, 8)) == b.subrange(8, 12));
    assert(u32_le(le_at(b, 12)) == b.subrange(12, 16));
    let x = le_at(b, 4);
    let y = le_at(b, 8);
    let z = le_at(b, 12);
    assert((x as i32) as u32 == x) by (bit_vector);
    assert((y as i32) as u32 == y) by (bit_vector);
    assert((z as i32) as u32 == z) by (bit_vector);
    assert(u32_le(le_at(b, 0)) == b.subrange(0, 4));
    assert(u32_le(le_at(b, 16)) == b.subrange(16, 20));
    assert(u32_le(le_at(b, 20)) == b.subrange(20, 24));
    assert(u32_le(le_at(b, 24)) == b.subrange(24, 28));
    assert(u32_le(le_at(b, 28)) == b.subrange(28, 32));
    assert(u32_le(le_at(b, 32)) == b.subrange(32, 36));
    assert(u32_le(le_at(b, 36)) == b.subrange(36, 40));
    assert(u32_le(le_at(b, 40)) == b.subrange(40, 44));
    assert(u32_le(le_at(b, 44)) == b.subrange(44, 48));
}

/// Law: the layout of a point record: the coordinates big-endian, 4 bytes
/// each, then the four colour bytes.
pub proof fn lemma_point_layout(p: Point)
    ensures
        point_bytes(p).len() == 16,
        point_bytes(p).subrange(0, 4) == u32_be(p.pos[0]),
        point_bytes(p).subrange(4, 8) == u32_be(p.pos[1]),
        point_bytes(p).subrange(8, 12) == u32_be(p.pos[2]),
        point_bytes(p)[12] == p.color[0],
        point_bytes(p)[13] == p.color[1],
        point_bytes(p)[14] == p.color[2],
        point_bytes(p)[15] == p.color[3],
{
    let b = point_bytes(p);
    assert(b.subrange(0, 4) =~= u32_be(p.pos[0]));
    assert(b.subrange(4, 8) =~= u32_be(p.pos[1]));
    assert(b.subrange(8, 12) =~= u32_be(p.pos[2]));
}

/// Law: reading a point takes each coordinate from its big-endian bytes at
/// its place in the record, and the colour from the last four bytes.
pub proof fn lemma_decode_point_layout(b: Seq<u8>)
    requires
        b.len() >= 16,
    ensures
        u32_be(decode_point(b).pos[0]) == b.subrange(0, 4),
        u32_be(decode_point(b).pos[1]) == b.subrange(4, 8),
        u32_be(decode_point(b).pos[2]) == b.subrange(8, 12),
        decode_point(b).color[0] == b[12],
        decode_point(b).color[1] == b[13],
        decode_point(b).color[2] == b[14],
        decode_point(b).color[3] == b[15],
{
    reveal(decode_point);
    lemma_u32_be_of_decoded(b[0], b[1], b[2], b[3]);
    lemma_u32_be_of_decoded(b[4], b[5], b[6], b[7]);
    lemma_u32_be_of_decoded(b[8], b[9], b[10], b[11]);
    assert(b.subrange(0, 4) =~= seq![b[0], b[1], b[2], b[3]]);
    assert(b.subrange(4, 8) =~= seq![b[4], b[5], b[6], b[7]]);
    assert(b.subrange(8, 12) =~= seq![b[8], b[9], b[10], b[11]]);
}

/// Law: the layout of an overflow record: the child cell's index x, y, z, each
/// little-endian, then the number of its points (0 for a child whose points
/// were handed on), then the points.
pub proof fn lemma_record_layout(k: CellIndex, v: Option<Seq<Point>>)
    ensures
        record_bytes(k, v).subrange(0, 4) == i32_le(k.x),
        record_bytes(k, v).subrange(4, 8) == i32_le(k.y),
        record_bytes(k, v).subrange(8, 12) == i32_le(k.z),
        record_bytes(k, v).subrange(12, 16) == u32_le(
            match v {
                Some(ps) => ps.len() as u32,
                None => 0u32,
            },
        ),
        record_bytes(k, v).skip(16) == match v {
            Some(ps) => points_bytes(ps),
            None => Seq::<u8>::empty(),
        },
{
    reveal(record_bytes);
    let b = record_bytes(k, v);
    assert(b.subrange(0, 4) =~= i32_le(k.x));
    assert(b.subrange(4, 8) =~= i32_le(k.y));
    assert(b.subrange(8, 12) =~= i32_le(k.z));
    match v {
        Some(ps) => {
            assert(b.subrange(12, 16) =~= u32_le(ps.len() as u32));
            assert(b.skip(16) =~= points_bytes(ps));
        },
        None => {
            assert(b.subrange(12, 16) =~= u32_le(0u32));
            assert(b.skip(16) =~= Seq::<u8>::empty());
        },
    }
}

/// Law: reading an overflow record takes the child cell's index from its
/// first 12 bytes and the number of points from the next 4; a child read
/// without points has the number 0 there.
pub proof fn lemma_parse_record_layout(b: Seq<u8>)
    ensures
        parse_record(b) matches Some((r, n)) ==> {
            &&& i32_le(r.0.x) == b.subrange(0, 4)
            &&& i32_le(r.0.y) == b.subrange(4, 8)
            &&& i32_le(r.0.z) == b.subrange(8, 12)
            &&& (r.1 is None <==> b.subrange(12, 16) == u32_le(0u32))
            &&& (r.1 matches Some(ps) ==> u32_le(ps.len() as u32) == b.subrange(12, 16))
        },
{
    reveal(parse_record);
    reveal(parse_points);
    if b.len() >= 16 {
        assert forall|o: int| 0 <= o <= 12 && o % 4 == 0 implies #[trigger] u32_le(le_at(b, o))
            == b.subrange(o, o + 4) by {
            lemma_u32_le_of_decoded(b[o], b[o + 1], b[o + 2], b[o + 3]);
            assert(b.subrange(o, o + 4) =~= seq![b[o], b[o + 1], b[o + 2], b[o + 3]]);
        }
        assert(u32_le(le_at(b, 0)) == b.subrange(0, 4));
        assert(u32_le(le_at(b, 4)) == b.subrange(4, 8));
        assert(u32_le(le_at(b, 8)) == b.subrange(8, 12));
        assert(u32_le(le_at(b, 12)) == b.subrange(12, 16));
        let x = le_at(b, 0);
        let y = le_at(b, 4);
        let z = le_at(b, 8);
        assert((x as i32) as u32 == x) by (bit_vector);
        assert((y as i32) as u32 == y) by (bit_vector);
        assert((z as i32) as u32 == z) by (bit_vector);
        let n = le_at(b, 12);
        assert((0u32 >> 8u32) as u8 == 0u8 && (0u32 >> 16u32) as u8 == 0u8 && (0u32 >> 24u32) as u8
            == 0u8 && 0u32 as u8 == 0u8) by (bit_vector);
        assert(u32_le(0u32) =~= seq![0u8, 0u8, 0u8, 0u8]);
        if b.subrange(12, 16) == u32_le(0u32) {
            assert(b[12] == 0 && b[13] == 0 && b[14] == 0 && b[15] == 0) by {
                assert(b.subrange(12, 16)[0] == b[12]);
                assert(b.subrange(12, 16)[1] == b[13]);
                assert(b.subrange(12, 16)[2] == b[14]);
                assert(b.subrange(12, 16)[3] == b[15]);
            }
            assert(n == le_u32(0, 0, 0, 0));
            assert(le_u32(0, 0, 0, 0) == 0) by (bit_vector);
        }
        if n == 0 {
            assert(u32_le(n) == u32_le(0u32));
        }
    }
}

/// Law: the layout of a cell file: the 48-byte header, the grid points, one
/// byte with the number of overflow records (truncated), then the records.
pub proof fn lemma_cell_layout(
    h: Header,
    points: Seq<Point>,
    records: Seq<(CellIndex, Option<Seq<Point>>)>,
)
    ensures
        cell_bytes(h, points, records).subrange(0, 48) == header_bytes(h),
        cell_bytes(h, points, records).subrange(48, 48 + 16 * points.len() as int) == points_bytes(points),
        cell_bytes(h, points, records)[48 + 16 * points.len() as int] == records.len() as u8,
        cell_bytes(h, points, records).skip(49 + 16 * points.len() as int) == records_bytes(records),
{
    crate::cell::lemma_header_layout(h);
    lemma_points_bytes_len(points);
    let b = cell_bytes(h, points, records);
    let n = 16 * points.len() as int;
    assert(b.subrange(0, 48) =~= header_bytes(h));
    assert(b.subrange(48, 48 + n) =~= points_bytes(points));
    assert(b[48 + n] == records.len() as u8);
    assert(b.skip(49 + n) =~= records_bytes(records));
}

/// A record decodes to itself, and tells its length.
pub proof fn lemma_parse_record(k: CellIndex, v: Option<Seq<Point>>, t: Seq<u8>)
    requires
        record_wf(v),
    ensures
        parse_record(record_bytes(k, v) + t) == Some(((k, v), record_bytes(k, v).len())),
{
    reveal(parse_record);
    reveal(record_bytes);
    let count: u32 = match v {
        Some(ps) => ps.len() as u32,
        None => 0,
    };
    let payload = match v {
        Some(ps) => points_bytes(ps),
        None => Seq::<u8>::empty(),
    };
    let tail = u32_le(count) + payload + t;
    let b = record_bytes(k, v) + t;
    assert(b =~= i32_le(k.x) + (i32_le(k.y) + (i32_le(k.z) + tail)));
    lemma_le_at_u32(k.x as u32, i32_le(k.y) + (i32_le(k.z) + tail));
    lemma_le_at_skip(b, 4);
    assert(b.skip(4) =~= i32_le(k.y) + (i32_le(k.z) + tail));
    lemma_le_at_u32(k.y as u32, i32_le(k.z) + tail);
    lemma_le_at_skip(b, 8);
    assert(b.skip(8) =~= i32_le(k.z) + tail);
    lemma_le_at_u32(k.z as u32, tail);
    lemma_le_at_skip(b, 12);
    assert(b.skip(12) =~= tail);
    lemma_le_at_u32(count, payload + t);
    lemma_i32_through_u32(k.x);
    lemma_i32_through_u32(k.y);
    lemma_i32_through_u32(k.z);
    match v {
        Some(ps) => {
            lemma_points_bytes_len(ps);
            assert(b.skip(16) =~= points_bytes(ps) + t);
            lemma_parse_points(ps, t);
        },
        None => {},
    }
}

/// Records decode to themselves, and tell their length.
pub proof fn lemma_parse_records(rs: Seq<(CellIndex, Option<Seq<Point>>)>, t: Seq<u8>)
    requires
        forall|i: int| 0 <= i < rs.len() ==> #[trigger] record_wf(rs[i].1),
    ensures
        parse_records(records_bytes(rs) + t, rs.len()) == Some((rs, records_bytes(rs).len())),
    decreases rs.len(),
{
    if rs.len() > 0 {
        let rest = rs.drop_first();
        assert(record_wf(rs[0].1));
        assert forall|i: int| 0 <= i < rest.len() implies #[trigger] record_wf(rest[i].1) by {
            assert(record_wf(rs[i + 1].1));
        }
        lemma_parse_records(rest, t);
        let b1 = records_bytes(rest) + t;
        assert(records_bytes(rs) + t =~= record_bytes(rs[0].0, rs[0].1) + b1);
        lemma_parse_record(rs[0].0, rs[0].1, b1);
        assert((records_bytes(rs) + t).skip(record_bytes(rs[0].0, rs[0].1).len() as int) =~= b1);
        assert(seq![(rs[0].0, rs[0].1)] + rest =~= rs);
    }
}

/// What a cell file's parts are written as, reading gives back, with the
/// length of the file, whatever follows it.
pub proof fn lemma_parse_cell(
    h: Header,
    points: Seq<Point>,
    records: Seq<(CellIndex, Option<Seq<Point>>)>,
    t: Seq<u8>,
)
    requires
        cell_parts_wf(h, points, records),
    ensures
        parse_cell(cell_bytes(h, points, records) + t) == Some(
            (h, points, records, cell_bytes(h, points, records).len()),
        ),
{
    let b = cell_bytes(h, points, records) + t;
    let rec = records_bytes(records) + t;
    let after_points = seq![records.len() as u8] + rec;
    let after_header = points_bytes(points) + after_points;
    assert(b =~= header_bytes(h) + after_header);
    lemma_decode_header(h, after_header);
    assert(b.skip(48) =~= after_header);
    lemma_parse_points(points, after_points);
    lemma_points_bytes_len(points);
    let n = h.number_of_points as nat;
    assert(b.skip((48 + 16 * n) as int) =~= after_points);
    assert(after_points.skip(1) =~= rec);
    assert(after_points[0] as nat == records.len());
    lemma_parse_records(records, t);
    assert(cell_bytes(h, points, records).len() == 48 + 16 * n + 1 + records_bytes(records).len());
}

/// A cell file as read: its header, its grid's points and its overflow records.
#[derive(Debug)]
pub struct CellRecord {
    pub header: Header,
    pub points: Vec<Point>,
    pub overflow: Vec<(CellIndex, Option<Vec<Point>>)>,
}

/// Reads `n` point records.
pub fn read_points(reader: &mut ByteReader, n: u32) -> (r: Result<Vec<Point>, ReadError>)
    requires
        old(reader).wf(),
    ensures
        final(reader).wf(),
        match parse_points(old(reader).rest(), n as nat) {
            Some(ps) => r matches Ok(v) && v@ == ps
                && final(reader).rest() == old(reader).rest().skip(16 * n),
            None => r is Err,
        },
{
    let ghost start = reader.rest();
    let mut points: Vec<Point> = Vec::new();
    let mut i: u32 = 0;
    while i < n
        invariant
            reader.wf(),
            i <= n,
            points@.len() == i,
            start == points_bytes(points@) + reader.rest(),
            start == old(reader).rest(),
        decreases n - i,
    {
        match Point::read_from(reader) {
            Ok(p) => {
                proof {
                    lemma_points_bytes_push(points@, p);
                    assert(start =~= points_bytes(points@.push(p)) + reader.rest());
                }
                points.push(p);
            },
            Err(e) => {
                proof {
                    reveal(parse_points);
                    lemma_points_bytes_len(points@);
                }
                return Err(e);
            },
        }
        i = i + 1;
    }
    proof {
        lemma_parse_points(points@, reader.rest());
        lemma_points_bytes_len(points@);
        assert(start.skip(16 * n) =~= reader.rest());
    }
    Ok(points)
}

/// Reads one overflow record.
pub fn read_record(reader: &mut ByteReader) -> (r: Result<(CellIndex, Option<Vec<Point>>), ReadError>)
    requires
        old(reader).wf(),
    ensures
        final(reader).wf(),
        match parse_record(old(reader).rest()) {
            Some((rec, c)) => r matches Ok(v) && v.0 == rec.0 && opt_points(v.1) == rec.1
                && final(reader).rest() == old(reader).rest().skip(c as int),
            None => r is Err,
        },
{
    let ghost s0 = reader.rest();
    if reader.remaining() < 16 {
        proof {
            reveal(parse_record);
        }
        return Err(ReadError::UnexpectedEof);
    }
    let x = reader.take_i32_le();
    let ghost s1 = reader.rest();
    let y = reader.take_i32_le();
    let ghost s2 = reader.rest();
    let z = reader.take_i32_le();
    let ghost s3 = reader.rest();
    let count = reader.take_u32_le();
    let ghost s4 = reader.rest();
    let k = CellIndex { x, y, z };
    proof {
        reveal(parse_record);
        lemma_le_at_u32(x as u32, s1);
        lemma_le_at_u32(y as u32, s2);
        lemma_le_at_u32(z as u32, s3);
        lemma_le_at_u32(count, s4);
        assert(s0.skip(4) =~= s1);
        assert(s0.skip(8) =~= s2);
        assert(s0.skip(12) =~= s3);
        assert(s0.skip(16) =~= s4);
        lemma_le_at_skip(s0, 4);
        lemma_le_at_skip(s0, 8);
        lemma_le_at_skip(s0, 12);
        lemma_i32_through_u32(x);
        lemma_i32_through_u32(y);
        lemma_i32_through_u32(z);
    }
    if count == 0 {
        Ok((k, None))
    } else {
        match read_points(reader, count) {
            Ok(points) => {
                proof {
                    lemma_parse_points_len(s4, count as nat);
                    assert(s4.skip(16 * count) =~= s0.skip(16 + 16 * count));
                }
                Ok((k, Some(points)))
            },
            Err(e) => Err(e),
        }
    }
}

/// Reads `n` overflow records.
pub fn read_records(reader: &mut ByteReader, n: u8) -> (r: Result<Vec<(CellIndex, Option<Vec<Point>>)>, ReadError>)
    requires
        old(reader).wf(),
    ensures
        final(reader).wf(),
        match parse_records(old(reader).rest(), n as nat) {
            Some((rs, c)) => r matches Ok(v) && opt_seq_entries(v@) == rs && final(reader).rest()
                == old(reader).rest().skip(c as int),
            None => r is Err,
        },
{
    let ghost start = reader.rest();
    let mut records: Vec<(CellIndex, Option<Vec<Point>>)> = Vec::new();
    let ghost mut consumed: nat = 0;
    let mut i: u8 = 0;
    while i < n
        invariant
            reader.wf(),
            i <= n,
            start == old(reader).rest(),
            consumed <= start.len(),
            reader.rest() == start.skip(consumed as int),
            parse_records(start, n as nat) == match parse_records(reader.rest(), (n - i) as nat) {
                Some((rs, c)) => Some((opt_seq_entries(records@) + rs, consumed + c)),
                None => None,
            },
        decreases n - i,
    {
        let ghost before = reader.rest();
        match read_record(reader) {
            Ok(rec) => {
                proof {
                    let (prec, c) = parse_record(before).unwrap();
                    lemma_parse_record_len(before);
                    let ghost nr = records@.push(rec);
                    assert(opt_seq_entries(nr) =~= opt_seq_entries(records@).push((rec.0, opt_points(rec.1))));
                    match parse_records(reader.rest(), (n - i - 1) as nat) {
                        Some((rs, c2)) => {
                            assert(opt_seq_entries(records@) + (seq![prec] + rs) =~= opt_seq_entries(nr) + rs);
                        },
                        None => {},
                    }
                    assert(reader.rest() =~= start.skip((consumed + c) as int));
                    consumed = consumed + c;
                }
                records.push(rec);
            },
            Err(e) => {
                return Err(e);
            },
        }
        i = i + 1;
    }
    proof {
        assert(opt_seq_entries(records@) + seq![] =~= opt_seq_entries(records@));
    }
    Ok(records)
}

/// Reads a cell file.
pub fn read_cell_record(reader: &mut ByteReader) -> (r: Result<CellRecord, ReadError>)
    requires
        old(reader).wf(),
    ensures
        final(reader).wf(),
        match parse_cell(old(reader).rest()) {
            Some((h, ps, rs, c)) => r matches Ok(rec) && rec.header == h && rec.points@ == ps
                && opt_seq_entries(rec.overflow@) == rs
                && final(reader).rest() == old(reader).rest().skip(c as int),
            None => r is Err,
        },
{
    let ghost s0 = reader.rest();
    let header = match Header::read_from(reader) {
        Ok(h) => h,
        Err(e) => {
            return Err(e);
        },
    };
    let ghost s1 = reader.rest();
    proof {
        lemma_decode_header(header, s1);
        assert(s0.skip(48) =~= s1);
    }
    let points = match read_points(reader, header.number_of_points) {
        Ok(ps) => ps,
        Err(e) => {
            return Err(e);
        },
    };
    let ghost s2 = reader.rest();
    proof {
        lemma_parse_points_len(s1, header.number_of_points as nat);
        assert(s2 =~= s0.skip(48 + 16 * header.number_of_points));
    }
    let count = match reader.read_u8() {
        Ok(c) => c,
        Err(e) => {
            return Err(e);
        },
    };
    proof {
        assert(reader.rest() =~= s2.skip(1));
    }
    let overflow = match read_records(reader, count) {
        Ok(rs) => rs,
        Err(e) => {
            return Err(e);
        },
    };
    proof {
        let (rs, c) = parse_records(s2.skip(1), count as nat).unwrap();
        lemma_parse_records_len(s2.skip(1), count as nat);
        assert(reader.rest() =~= s0.skip(48 + 16 * header.number_of_points + 1 + c));
    }
    Ok(CellRecord { header, points, overflow })
}

} // verus!
