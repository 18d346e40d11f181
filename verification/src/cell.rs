//! Cells of the point hierarchy: identity, header, sub grid and overflow.
//!
//! A cell keeps at most one point per sub grid slot. Points that lose their slot
//! overflow into the cells of the next hierarchy level; a cell keeps such points
//! per child cell as long as a child has few of them.
use vstd::prelude::*;

use crate::bytes::{
    i32_le, push_i32_le, push_u32_le, u32_le, ByteReader, ReadError,
};
use crate::fxmap::{
    groups_contents, groups_entries, groups_insert, groups_into_entries, groups_new, groups_remove, seq_entries, PointGroups,
    grid_contents, grid_entries, grid_get, grid_insert, grid_len, grid_with_capacity, lists_map,
    opt_points, opt_seq_entries, overflow_contents, overflow_entries, overflow_insert, overflow_len,
    overflow_get, overflow_new, overflow_remove, OverflowMap, PointGrid,
};
use crate::format::{CellRecord, cell_bytes, lemma_parse_cell, parse_cell, record_wf, lemma_records_bytes_push, record_bytes, records_bytes};
use crate::hex::OffsetIndex;
use crate::point::{lemma_points_bytes_push, point_bytes, points_bytes, Point};
use crate::total::{lemma_pairs_total_listing, lemma_pairs_total_prefix, pairs_total, map_total, lemma_map_total_empty, lemma_map_total_insert, lemma_map_total_remove};

verus! {

broadcast use vstd::set::group_set_axioms;

/// Index of a cell within its hierarchy level.
#[derive(Debug, Default, Copy, Clone, PartialEq, Eq, Hash)]
pub struct CellIndex {
    pub x: i32,
    pub y: i32,
    pub z: i32,
}

/// A unique id over all cells: the hierarchy level and the index within it.
#[derive(Debug, Copy, Clone, PartialEq, Eq, Hash)]
pub struct CellId {
    pub hierarchy: u32,
    pub index: CellIndex,
}

/// The fixed-size part of a cell.
#[derive(Debug, Clone, Copy)]
pub struct Header {
    /// A unique id over all cells
    pub id: CellId,
    /// Number of points in this cell.
    pub total_number_of_points: u32,
    /// Number of points.
    pub number_of_points: u32,
    /// Number of overflowing points which would belong to the next hierarchy.
    pub number_of_overflow_points: u32,
    /// Inner sub grid. [sub_grid_dimension]^3 is the number of points a cell can hold.
    pub sub_grid_dimension: u32,
    /// Bit pattern of the side length (an `f32`) of the cubic cell.
    pub size: u32,
    /// Bit patterns of the position of the cell's center in the world.
    pub pos: [u32; 3],
}

/// The 48 little-endian bytes of a header.
pub open spec fn header_bytes(h: Header) -> Seq<u8> {
    u32_le(h.id.hierarchy) + i32_le(h.id.index.x) + i32_le(h.id.index.y) + i32_le(h.id.index.z)
        + u32_le(h.total_number_of_points) + u32_le(h.number_of_points) + u32_le(
        h.number_of_overflow_points,
    ) + u32_le(h.sub_grid_dimension) + u32_le(h.size) + u32_le(h.pos[0]) + u32_le(h.pos[1])
        + u32_le(h.pos[2])
}

/// Law: the layout of a header record, field by field, 4 bytes each in this
/// order: hierarchy, index x, y, z, total number of points, number of grid
/// points, number of overflow points, sub grid dimension, size, position x,
/// y, z.
pub proof fn lemma_header_layout(h: Header)
    ensures
        header_bytes(h).len() == 48,
        header_bytes(h).subrange(0, 4) == u32_le(h.id.hierarchy),
        header_bytes(h).subrange(4, 8) == i32_le(h.id.index.x),
        header_bytes(h).subrange(8, 12) == i32_le(h.id.index.y),
        header_bytes(h).subrange(12, 16) == i32_le(h.id.index.z),
        header_bytes(h).subrange(16, 20) == u32_le(h.total_number_of_points),
        header_bytes(h).subrange(20, 24) == u32_le(h.number_of_points),
        header_bytes(h).subrange(24, 28) == u32_le(h.number_of_overflow_points),
        header_bytes(h).subrange(28, 32) == u32_le(h.sub_grid_dimension),
        header_bytes(h).subrange(32, 36) == u32_le(h.size),
        header_bytes(h).subrange(36, 40) == u32_le(h.pos[0]),
        header_bytes(h).subrange(40, 44) == u32_le(h.pos[1]),
        header_bytes(h).subrange(44, 48) == u32_le(h.pos[2]),
{
    let b = header_bytes(h);
    assert(b.subrange(0, 4) =~= u32_le(h.id.hierarchy));
    assert(b.subrange(4, 8) =~= i32_le(h.id.index.x));
    assert(b.subrange(8, 12) =~= i32_le(h.id.index.y));
    assert(b.subrange(12, 16) =~= i32_le(h.id.index.z));
    assert(b.subrange(16, 20) =~= u32_le(h.total_number_of_points));
    assert(b.subrange(20, 24) =~= u32_le(h.number_of_points));
    assert(b.subrange(24, 28) =~= u32_le(h.number_of_overflow_points));
    assert(b.subrange(28, 32) =~= u32_le(h.sub_grid_dimension));
    assert(b.subrange(32, 36) =~= u32_le(h.size));
    assert(b.subrange(36, 40) =~= u32_le(h.pos[0]));
    assert(b.subrange(40, 44) =~= u32_le(h.pos[1]));
    assert(b.subrange(44, 48) =~= u32_le(h.pos[2]));
}

impl Header {
    /// A header for a cell without points.
    pub fn new(id: CellId, sub_grid_dimension: u32, size: u32, pos: [u32; 3]) -> (h: Self)
        ensures
            h.id == id,
            h.total_number_of_points == 0,
            h.number_of_points == 0,
            h.number_of_overflow_points == 0,
            h.sub_grid_dimension == sub_grid_dimension,
            h.size == size,
            h.pos == pos,
    {
        Header {
            id,
            total_number_of_points: 0,
            number_of_points: 0,
            number_of_overflow_points: 0,
            sub_grid_dimension,
            size,
            pos,
        }
    }

    /// Appends the 48-byte record of the header.
    pub fn write_to(&self, out: &mut Vec<u8>)
        ensures
            final(out)@ == old(out)@ + header_bytes(*self),
    {
        push_u32_le(out, self.id.hierarchy);
        push_i32_le(out, self.id.index.x);
        push_i32_le(out, self.id.index.y);
        push_i32_le(out, self.id.index.z);
        push_u32_le(out, self.total_number_of_points);
        push_u32_le(out, self.number_of_points);
        push_u32_le(out, self.number_of_overflow_points);
        push_u32_le(out, self.sub_grid_dimension);
        push_u32_le(out, self.size);
        push_u32_le(out, self.pos[0]);
        push_u32_le(out, self.pos[1]);
        push_u32_le(out, self.pos[2]);
        assert(final(out)@ =~= old(out)@ + header_bytes(*self));
    }

    /// Reads a 48-byte header record. Fails when fewer than 48 bytes remain.
    pub fn read_from(reader: &mut ByteReader) -> (r: Result<Self, ReadError>)
        requires
            old(reader).wf(),
        ensures
            final(reader).wf(),
            old(reader).rest().len() >= 48 <==> r is Ok,
            r matches Ok(h) ==> old(reader).rest() == header_bytes(h) + final(reader).rest(),
    {
        if reader.remaining() < 48 {
            return Err(ReadError::UnexpectedEof);
        }
        let ghost s0 = reader.rest();
        let hierarchy = reader.take_u32_le();
        let ghost s1 = reader.rest();
        let x = reader.take_i32_le();
        let ghost s2 = reader.rest();
        let y = reader.take_i32_le();
        let ghost s3 = reader.rest();
        let z = reader.take_i32_le();
        let ghost s4 = reader.rest();
        let total = reader.take_u32_le();
        let ghost s5 = reader.rest();
        let number = reader.take_u32_le();
        let ghost s6 = reader.rest();
        let overflow = reader.take_u32_le();
        let ghost s7 = reader.rest();
        let dimension = reader.take_u32_le();
        let ghost s8 = reader.rest();
        let size = reader.take_u32_le();
        let ghost s9 = reader.rest();
        let px = reader.take_u32_le();
        let ghost s10 = reader.rest();
        let py = reader.take_u32_le();
        let ghost s11 = reader.rest();
        let pz = reader.take_u32_le();
        let h = Header {
            id: CellId { hierarchy, index: CellIndex { x, y, z } },
            total_number_of_points: total,
            number_of_points: number,
            number_of_overflow_points: overflow,
            sub_grid_dimension: dimension,
            size,
            pos: [px, py, pz],
        };
        proof {
            let t = reader.rest();
            assert(s0 =~= u32_le(hierarchy) + i32_le(x) + i32_le(y) + i32_le(z) + u32_le(total)
                + u32_le(number) + u32_le(overflow) + u32_le(dimension) + u32_le(size) + u32_le(px)
                + u32_le(py) + u32_le(pz) + t);
        }
        Ok(h)
    }
}

/// Settings of the point hierarchy that cells depend on.
#[derive(Debug, Clone, Copy)]
pub struct MetadataConfig {
    /// Number of points a cell can hold additionally before creating new cells in the next lower
    /// hierarchy level.
    pub cell_point_overflow_limit: u32,
    /// [sub_grid_dimension]^3 is the number of points a cell can hold.
    pub sub_grid_dimension: u32,
    /// Bit pattern of the size (an `f32`) of the largest cell of the largest hierarchy level.
    pub max_cell_size: u32,
}

/// Bit pattern of `1000.0f32`.
pub const DEFAULT_MAX_CELL_SIZE_BITS: u32 = 0x447a_0000u32;

impl Default for MetadataConfig {
    /// Sub grids of 96 per side, 5000 overflow points per child cell, largest cells 1000 wide.
    fn default() -> (c: Self)
        ensures
            c.sub_grid_dimension == 96,
            c.cell_point_overflow_limit == 5000,
            c.max_cell_size == DEFAULT_MAX_CELL_SIZE_BITS,
    {
        MetadataConfig {
            sub_grid_dimension: 96,
            cell_point_overflow_limit: 5_000,
            max_cell_size: DEFAULT_MAX_CELL_SIZE_BITS,
        }
    }
}

/// Length of an optional sequence of points, zero for `None`.
pub open spec fn opt_len(v: Option<Seq<Point>>) -> nat {
    match v {
        Some(s) => s.len(),
        None => 0,
    }
}

/// `opt_len` as a value.
pub open spec fn opt_len_fn() -> spec_fn(Option<Seq<Point>>) -> nat {
    |v: Option<Seq<Point>>| opt_len(v)
}

/// Length of a sequence of points, as a value.
pub open spec fn seq_len_fn() -> spec_fn(Seq<Point>) -> nat {
    |v: Seq<Point>| v.len()
}

/// Number of points kept in overflow records.
pub open spec fn overflow_count(m: Map<CellIndex, Option<Seq<Point>>>) -> nat {
    map_total(m, opt_len_fn())
}

/// Number of points in groups.
pub open spec fn groups_count(m: Map<CellIndex, Seq<Point>>) -> nat {
    map_total(m, seq_len_fn())
}

/// What one group of overflow points for child cell `k` does to the record of
/// `k`, given the record before (`None` if there was none): the record after,
/// and the points handed on to the next hierarchy level, if any.
///
/// A child without a record keeps up to `limit` points; one that already has
/// points keeps them while it holds at most `limit` in all. Once a child has
/// too many, its record becomes `None` and all its points are handed on; from
/// then on its points are always handed on.
pub open spec fn overflow_step(
    before: Option<Option<Seq<Point>>>,
    points: Seq<Point>,
    limit: nat,
) -> (Option<Seq<Point>>, Option<Seq<Point>>) {
    match before {
        None => if points.len() <= limit {
            (Some(points), None)
        } else {
            (None, Some(points))
        },
        Some(None) => (None, Some(points)),
        Some(Some(kept)) => if kept.len() + points.len() <= limit {
            (Some(kept + points), None)
        } else {
            (None, Some(kept + points))
        },
    }
}

/// The record of `k` in `m`, if `m` has one.
pub open spec fn record_of(m: Map<CellIndex, Option<Seq<Point>>>, k: CellIndex) -> Option<
    Option<Seq<Point>>,
> {
    if m.contains_key(k) {
        Some(m[k])
    } else {
        None
    }
}

/// The overflow records after adding the groups `input`.
pub open spec fn overflow_after(
    m: Map<CellIndex, Option<Seq<Point>>>,
    input: Map<CellIndex, Seq<Point>>,
    limit: nat,
) -> Map<CellIndex, Option<Seq<Point>>> {
    Map::new(
        |k: CellIndex| m.contains_key(k) || input.contains_key(k),
        |k: CellIndex|
            if input.contains_key(k) {
                overflow_step(record_of(m, k), input[k], limit).0
            } else {
                m[k]
            },
    )
}

/// The points handed on to the next hierarchy level after adding the groups `input`.
pub open spec fn handed_on(
    m: Map<CellIndex, Option<Seq<Point>>>,
    input: Map<CellIndex, Seq<Point>>,
    limit: nat,
) -> Map<CellIndex, Seq<Point>> {
    Map::new(
        |k: CellIndex|
            input.contains_key(k) && overflow_step(record_of(m, k), input[k], limit).1 is Some,
        |k: CellIndex| overflow_step(record_of(m, k), input[k], limit).1.unwrap(),
    )
}

/// Whether the group `points` for child cell `k` is kept in its record.
pub open spec fn is_kept(
    m: Map<CellIndex, Option<Seq<Point>>>,
    k: CellIndex,
    points: Seq<Point>,
    limit: nat,
) -> bool {
    overflow_step(record_of(m, k), points, limit).0 is Some
}

/// The groups of `input` that are kept in their records.
pub open spec fn kept_groups(
    m: Map<CellIndex, Option<Seq<Point>>>,
    input: Map<CellIndex, Seq<Point>>,
    limit: nat,
) -> Map<CellIndex, Seq<Point>> {
    Map::new(
        |k: CellIndex| input.contains_key(k) && is_kept(m, k, input[k], limit),
        |k: CellIndex| input[k],
    )
}

/// The number of points of `input` that are kept: what adding it adds to
/// the cell's point counters before the records that overflow are handed on.
pub open spec fn kept_count(
    m: Map<CellIndex, Option<Seq<Point>>>,
    input: Map<CellIndex, Seq<Point>>,
    limit: nat,
) -> nat {
    groups_count(kept_groups(m, input, limit))
}

/// One group more, for a child not counted yet, adds its points to the kept
/// count when it is kept; one group fewer takes them away.
proof fn lemma_kept_step(
    m: Map<CellIndex, Option<Seq<Point>>>,
    done: Map<CellIndex, Seq<Point>>,
    rest: Map<CellIndex, Seq<Point>>,
    k: CellIndex,
    points: Seq<Point>,
    limit: nat,
)
    requires
        done.dom().finite(),
        rest.dom().finite(),
        !done.contains_key(k),
        rest.contains_key(k),
        rest[k] == points,
    ensures
        kept_count(m, done.insert(k, points), limit) == kept_count(m, done, limit) + (if is_kept(
            m,
            k,
            points,
            limit,
        ) {
            points.len()
        } else {
            0
        }),
        kept_count(m, rest.remove(k), limit) + (if is_kept(m, k, points, limit) {
            points.len()
        } else {
            0
        }) == kept_count(m, rest, limit),
{
    broadcast use vstd::set_lib::lemma_set_subset_finite;

    let kd = kept_groups(m, done, limit);
    let kr = kept_groups(m, rest, limit);
    assert(kd.dom().subset_of(done.dom()));
    assert(kr.dom().subset_of(rest.dom()));
    assert(kept_groups(m, rest.remove(k), limit) =~= kr.remove(k));
    if is_kept(m, k, points, limit) {
        assert(kept_groups(m, done.insert(k, points), limit) =~= kd.insert(k, points));
        lemma_map_total_insert(kd, k, points, seq_len_fn());
        assert(kd.remove(k) =~= kd);
        lemma_map_total_remove(kr, k, seq_len_fn());
    } else {
        assert(kept_groups(m, done.insert(k, points), limit) =~= kd);
        assert(kr.remove(k) =~= kr);
    }
}

/// No group is kept from no groups.
proof fn lemma_kept_empty(m: Map<CellIndex, Option<Seq<Point>>>, input: Map<CellIndex, Seq<Point>>, limit: nat)
    requires
        input.dom() =~= Set::empty(),
    ensures
        kept_count(m, input, limit) == 0,
{
    assert(kept_groups(m, input, limit).dom() =~= Set::empty());
    lemma_map_total_empty(kept_groups(m, input, limit), seq_len_fn());
}

/// Adding one more group, for a child not handled yet, changes the records and
/// the handed-on points at that child only.
proof fn lemma_overflow_after_insert(
    m: Map<CellIndex, Option<Seq<Point>>>,
    done: Map<CellIndex, Seq<Point>>,
    k: CellIndex,
    points: Seq<Point>,
    limit: nat,
)
    requires
        !done.contains_key(k),
    ensures
        record_of(overflow_after(m, done, limit), k) == record_of(m, k),
        overflow_after(m, done.insert(k, points), limit) == overflow_after(m, done, limit).insert(
            k,
            overflow_step(record_of(m, k), points, limit).0,
        ),
        handed_on(m, done.insert(k, points), limit) == (match overflow_step(
            record_of(m, k),
            points,
            limit,
        ).1 {
            Some(p) => handed_on(m, done, limit).insert(k, p),
            None => handed_on(m, done, limit),
        }),
{
    assert(overflow_after(m, done.insert(k, points), limit) =~= overflow_after(m, done, limit).insert(
        k,
        overflow_step(record_of(m, k), points, limit).0,
    ));
    match overflow_step(record_of(m, k), points, limit).1 {
        Some(p) => {
            assert(handed_on(m, done.insert(k, points), limit) =~= handed_on(m, done, limit).insert(
                k,
                p,
            ));
        },
        None => {
            assert(handed_on(m, done.insert(k, points), limit) =~= handed_on(m, done, limit));
        },
    }
}

/// The overflow records after adding no groups are the records before.
proof fn lemma_overflow_after_empty(m: Map<CellIndex, Option<Seq<Point>>>, limit: nat)
    ensures
        overflow_after(m, Map::empty(), limit) == m,
        handed_on(m, Map::empty(), limit) == Map::<CellIndex, Seq<Point>>::empty(),
{
    assert(overflow_after(m, Map::empty(), limit) =~= m);
    assert(handed_on(m, Map::empty(), limit) =~= Map::<CellIndex, Seq<Point>>::empty());
}

/// The points a child cell's record holds: none without a record, or once
/// the child has overflowed.
pub open spec fn record_points(r: Option<Option<Seq<Point>>>) -> Seq<Point> {
    match r {
        Some(Some(kept)) => kept,
        _ => Seq::empty(),
    }
}

/// The points handed on for child cell `k`, if any.
pub open spec fn handed_points(h: Map<CellIndex, Seq<Point>>, k: CellIndex) -> Seq<Point> {
    if h.contains_key(k) {
        h[k]
    } else {
        Seq::empty()
    }
}

/// Law: adding overflow points loses none and makes none up. For each child
/// cell given points, the points its record holds afterwards, followed by
/// those handed on, are the points it held before followed by the new ones.
pub proof fn lemma_overflow_keeps_points(
    m: Map<CellIndex, Option<Seq<Point>>>,
    input: Map<CellIndex, Seq<Point>>,
    limit: nat,
    k: CellIndex,
)
    requires
        input.contains_key(k),
    ensures
        record_points(record_of(overflow_after(m, input, limit), k)) + handed_points(
            handed_on(m, input, limit),
            k,
        ) == record_points(record_of(m, k)) + input[k],
{
    let before = record_of(m, k);
    let points = input[k];
    let after = record_of(overflow_after(m, input, limit), k);
    assert(after == Some(overflow_step(before, points, limit).0));
    match before {
        None => {
            assert(Seq::<Point>::empty() + points =~= points);
            if points.len() <= limit {
                assert(points + Seq::<Point>::empty() =~= points);
            } else {
                assert(Seq::<Point>::empty() + points =~= points);
            }
        },
        Some(None) => {
            assert(Seq::<Point>::empty() + points =~= points);
        },
        Some(Some(kept)) => {
            if kept.len() + points.len() <= limit {
                assert((kept + points) + Seq::<Point>::empty() =~= kept + points);
            } else {
                assert(Seq::<Point>::empty() + (kept + points) =~= kept + points);
            }
        },
    }
}

/// Law: how adding overflow points changes the records. Child cells keep
/// their records and only the children given points gain one; a child not
/// given points keeps its record unchanged. A record that has overflowed
/// (`None`) stays so, and all points given to such a child are handed on.
/// Points are handed on only for children given points, and each such child's
/// record is `None` afterwards. If every kept list held at most `limit` points
/// before, every kept list does afterwards.
pub proof fn lemma_overflow_records_evolve(
    m: Map<CellIndex, Option<Seq<Point>>>,
    input: Map<CellIndex, Seq<Point>>,
    limit: nat,
)
    ensures
        overflow_after(m, input, limit).dom() == m.dom().union(input.dom()),
        forall|k: CellIndex|
            m.contains_key(k) && !input.contains_key(k) ==> #[trigger] overflow_after(
                m,
                input,
                limit,
            )[k] == m[k],
        forall|k: CellIndex|
            #[trigger] m.contains_key(k) && m[k] is None ==> overflow_after(m, input, limit)[k] is None,
        forall|k: CellIndex|
            m.contains_key(k) && m[k] is None && #[trigger] input.contains_key(k) ==> handed_on(
                m,
                input,
                limit,
            ).contains_key(k) && handed_on(m, input, limit)[k] == input[k],
        handed_on(m, input, limit).dom().subset_of(input.dom()),
        forall|k: CellIndex|
            #[trigger] handed_on(m, input, limit).contains_key(k) ==> overflow_after(
                m,
                input,
                limit,
            )[k] is None,
        (forall|k: CellIndex| #[trigger] m.contains_key(k) && m[k] is Some ==> m[k].unwrap().len() <= limit)
            ==> (forall|k: CellIndex|
            #[trigger] overflow_after(m, input, limit).contains_key(k) && overflow_after(
                m,
                input,
                limit,
            )[k] is Some ==> overflow_after(m, input, limit)[k].unwrap().len() <= limit),
{
    let after = overflow_after(m, input, limit);
    assert(after.dom() =~= m.dom().union(input.dom()));
    assert forall|k: CellIndex| #[trigger] handed_on(m, input, limit).contains_key(k) implies after[k] is None by {
        match record_of(m, k) {
            None => {},
            Some(None) => {},
            Some(Some(kept)) => {},
        }
    }
    if forall|k: CellIndex| #[trigger] m.contains_key(k) && m[k] is Some ==> m[k].unwrap().len() <= limit {
        assert forall|k: CellIndex| #[trigger] after.contains_key(k) && after[k] is Some implies after[k].unwrap().len() <= limit by {
            if input.contains_key(k) {
                match record_of(m, k) {
                    None => {},
                    Some(None) => {},
                    Some(Some(kept)) => {},
                }
            }
        }
    }
}

/// How often `p` occurs in a record's points.
pub open spec fn record_occurrences_fn(p: Point) -> spec_fn(Option<Seq<Point>>) -> nat {
    |v: Option<Seq<Point>>| record_points(Some(v)).to_multiset().count(p)
}

/// How often `p` occurs in a group of points.
pub open spec fn group_occurrences_fn(p: Point) -> spec_fn(Seq<Point>) -> nat {
    |v: Seq<Point>| v.to_multiset().count(p)
}

/// How often `p` occurs among the points kept in the records of `m`.
pub open spec fn records_occurrences(m: Map<CellIndex, Option<Seq<Point>>>, p: Point) -> nat {
    map_total(m, record_occurrences_fn(p))
}

/// How often `p` occurs among the points of the groups of `g`.
pub open spec fn groups_occurrences(g: Map<CellIndex, Seq<Point>>, p: Point) -> nat {
    map_total(g, group_occurrences_fn(p))
}

/// Law: adding overflow points loses none and makes none up, over all child
/// cells at once. The points kept in the records afterwards together with the
/// points handed on are, as a multiset, the points kept before together with
/// the points given: each point `p` occurs as often on both sides.
pub proof fn lemma_overflow_keeps_all_points(
    m: Map<CellIndex, Option<Seq<Point>>>,
    input: Map<CellIndex, Seq<Point>>,
    limit: nat,
    p: Point,
)
    requires
        m.dom().finite(),
        input.dom().finite(),
    ensures
        records_occurrences(overflow_after(m, input, limit), p) + groups_occurrences(
            handed_on(m, input, limit),
            p,
        ) == records_occurrences(m, p) + groups_occurrences(input, p),
    decreases input.dom().len(),
{
    broadcast use vstd::seq_lib::lemma_multiset_commutative, vstd::multiset::group_multiset_axioms, vstd::seq_lib::group_to_multiset_ensures;

    let rf = record_occurrences_fn(p);
    let gf = group_occurrences_fn(p);
    if input.dom().len() == 0 {
        assert(input.dom() =~= Set::empty());
        assert(input =~= Map::<CellIndex, Seq<Point>>::empty());
        lemma_overflow_after_empty(m, limit);
        lemma_map_total_empty(input, gf);
        lemma_map_total_empty(handed_on(m, input, limit), gf);
    } else {
        let k = input.dom().choose();
        let points = input[k];
        let rest = input.remove(k);
        assert(rest.dom().len() < input.dom().len());
        lemma_overflow_keeps_all_points(m, rest, limit, p);
        assert(rest.insert(k, points) =~= input);
        lemma_overflow_after_insert(m, rest, k, points, limit);
        lemma_overflow_records_evolve(m, rest, limit);
        let before = record_of(m, k);
        let step = overflow_step(before, points, limit);
        let a0 = overflow_after(m, rest, limit);
        let h0 = handed_on(m, rest, limit);
        assert(a0.dom().finite());
        assert(h0.dom().finite()) by {
            vstd::set_lib::lemma_set_subset_finite(rest.dom(), h0.dom());
        }
        // the records: the entry at `k` changes from what `m` had to `step.0`
        lemma_map_total_insert(a0, k, step.0, rf);
        if a0.contains_key(k) {
            lemma_map_total_remove(a0, k, rf);
            assert(record_of(a0, k) == before);
        } else {
            assert(a0.remove(k) =~= a0);
            assert(before is None);
        }
        // the points handed on: one group more at `k`, if any
        assert(!h0.contains_key(k));
        match step.1 {
            Some(q) => {
                lemma_map_total_insert(h0, k, q, gf);
                assert(h0.remove(k) =~= h0);
            },
            None => {},
        }
        // the points given: one group more at `k`
        lemma_map_total_remove(input, k, gf);
        // at `k` itself nothing is lost or made up
        match before {
            None => {
                assert(!Seq::<Point>::empty().contains(p));
            },
            Some(None) => {
                assert(!Seq::<Point>::empty().contains(p));
            },
            Some(Some(kept)) => {
                assert(!Seq::<Point>::empty().contains(p));
            },
        }
    }
}

/// Points grouped by their cell index: `points[i]` falls in cell `indices[i]`;
/// each group keeps the order of the points.
pub open spec fn grouped(points: Seq<Point>, indices: Seq<CellIndex>) -> Map<CellIndex, Seq<Point>>
    decreases points.len(),
{
    if points.len() == 0 {
        Map::empty()
    } else {
        let m = grouped(points.drop_last(), indices.take(points.len() - 1));
        let k = indices[points.len() - 1];
        let p = points.last();
        if m.contains_key(k) {
            m.insert(k, m[k].push(p))
        } else {
            m.insert(k, seq![p])
        }
    }
}

/// The groups of `left` and `right` together; a cell in both gets the points
/// of `left`, then those of `right`.
pub open spec fn merged(left: Map<CellIndex, Seq<Point>>, right: Map<CellIndex, Seq<Point>>) -> Map<
    CellIndex,
    Seq<Point>,
> {
    Map::new(
        |k: CellIndex| left.contains_key(k) || right.contains_key(k),
        |k: CellIndex|
            if left.contains_key(k) && right.contains_key(k) {
                left[k] + right[k]
            } else if right.contains_key(k) {
                right[k]
            } else {
                left[k]
            },
    )
}

/// Groups points by the cells they fall in; `indices[i]` is the cell of
/// `points[i]`.
pub fn group_points(points: Vec<Point>, indices: &Vec<CellIndex>) -> (groups: PointGroups)
    requires
        points@.len() == indices@.len(),
    ensures
        groups_contents(groups) == grouped(points@, indices@),
        groups_contents(groups).dom().finite(),
{
    let mut groups = groups_new();
    let mut i: usize = 0;
    while i < points.len()
        invariant
            i <= points@.len(),
            points@.len() == indices@.len(),
            groups_contents(groups) == grouped(points@.take(i as int), indices@.take(i as int)),
            groups_contents(groups).dom().finite(),
        decreases points@.len() - i,
    {
        let k = indices[i];
        let p = points[i];
        proof {
            assert(points@.take(i + 1).drop_last() =~= points@.take(i as int));
            assert(indices@.take(i + 1).take(i as int) =~= indices@.take(i as int));
        }
        match groups_remove(&mut groups, &k) {
            Some(mut group) => {
                group.push(p);
                groups_insert(&mut groups, k, group);
            },
            None => {
                let mut group = Vec::new();
                group.push(p);
                proof {
                    assert(group@ =~= seq![p]);
                }
                groups_insert(&mut groups, k, group);
            },
        }
        proof {
            let m = grouped(points@.take(i as int), indices@.take(i as int));
            assert(groups_contents(groups) =~= grouped(points@.take(i + 1), indices@.take(i + 1)));
        }
        i = i + 1;
    }
    proof {
        assert(points@.take(i as int) =~= points@);
        assert(indices@.take(i as int) =~= indices@);
    }
    groups
}

/// Moves the groups of `right` into `left`, appending to a group of the same
/// cell.
pub fn merge_point_maps(left: &mut PointGroups, right: PointGroups)
    requires
        groups_contents(*old(left)).dom().finite(),
    ensures
        groups_contents(*final(left)) == merged(groups_contents(*old(left)), groups_contents(right)),
        groups_contents(*final(left)).dom().finite(),
{
    let ghost l0 = groups_contents(*left);
    let ghost r0 = groups_contents(right);
    let mut entries = groups_into_entries(right);
    let ghost all = seq_entries(entries@);
    let ghost mut done: Map<CellIndex, Seq<Point>> = Map::empty();
    proof {
        assert(merged(l0, done) =~= l0);
    }
    while entries.len() > 0
        invariant
            lists_map(all, r0),
            entries@.len() <= all.len(),
            seq_entries(entries@) == all.take(entries@.len() as int),
            forall|j: int| entries@.len() <= j < all.len() ==> #[trigger] done.contains_key(all[j].0),
            forall|j: int| 0 <= j < entries@.len() ==> !#[trigger] done.contains_key(all[j].0),
            forall|k: CellIndex| #[trigger] done.contains_key(k) ==> r0.contains_key(k) && done[k]
                == r0[k],
            groups_contents(*left) == merged(l0, done),
            groups_contents(*left).dom().finite(),
            l0.dom().finite(),
        decreases entries@.len(),
    {
        let ghost n = entries@.len() as int;
        let ghost before = entries@;
        let (k, mut points) = match entries.pop() {
            Some(e) => e,
            None => {
                return;
            },
        };
        let ghost ps = points@;
        proof {
            assert(before[n - 1] == (k, points));
            assert(seq_entries(before)[n - 1] == (k, ps));
            assert(all.take(n)[n - 1] == all[n - 1]);
            assert(seq_entries(entries@) =~= all.take(n - 1));
            assert(!done.contains_key(all[n - 1].0));
            assert(r0.contains_key(all[n - 1].0));
        }
        match groups_remove(left, &k) {
            Some(mut existing) => {
                existing.append(&mut points);
                groups_insert(left, k, existing);
            },
            None => {
                groups_insert(left, k, points);
            },
        }
        proof {
            done = done.insert(k, ps);
            assert(groups_contents(*left) =~= merged(l0, done));
        }
    }
    proof {
        assert(done =~= r0) by {
            assert forall|k: CellIndex| #[trigger] r0.contains_key(k) implies done.contains_key(k) by {
                let j = choose|j: int| 0 <= j < all.len() && all[j].0 == k;
                assert(done.contains_key(all[j].0));
            }
        }
    }
}

/// The sub grid that placing `points[i]` in slot `indices[i]`, in order, gives;
/// a later point in the same slot replaces an earlier one.
pub open spec fn grid_of(points: Seq<Point>, indices: Seq<OffsetIndex>) -> Map<OffsetIndex, Point>
    decreases points.len(),
{
    if points.len() == 0 {
        Map::empty()
    } else {
        grid_of(points.drop_last(), indices.take(points.len() - 1)).insert(
            indices[points.len() - 1],
            points.last(),
        )
    }
}

/// The overflow records that a sequence of records gives; a later record for
/// the same child replaces an earlier one.
pub open spec fn records_map(records: Seq<(CellIndex, Option<Seq<Point>>)>) -> Map<
    CellIndex,
    Option<Seq<Point>>,
>
    decreases records.len(),
{
    if records.len() == 0 {
        Map::empty()
    } else {
        records_map(records.drop_last()).insert(records.last().0, records.last().1)
    }
}

/// Putting a record in front changes the records only where the rest has none.
pub proof fn lemma_records_map_prepend(
    r: (CellIndex, Option<Seq<Point>>),
    rs: Seq<(CellIndex, Option<Seq<Point>>)>,
)
    ensures
        records_map(seq![r] + rs) == if records_map(rs).contains_key(r.0) {
            records_map(rs)
        } else {
            records_map(rs).insert(r.0, r.1)
        },
        records_map(rs).dom().finite(),
    decreases rs.len(),
{
    if rs.len() == 0 {
        let e = seq![r] + rs;
        assert(e.drop_last() =~= Seq::<(CellIndex, Option<Seq<Point>>)>::empty());
        assert(records_map(e.drop_last()) == Map::<CellIndex, Option<Seq<Point>>>::empty());
        assert(records_map(rs) == Map::<CellIndex, Option<Seq<Point>>>::empty());
        assert(e.last() == r);
        assert(records_map(e) =~= records_map(rs).insert(r.0, r.1));
    } else {
        let n = rs.len() - 1;
        lemma_records_map_prepend(r, rs.drop_last());
        assert((seq![r] + rs).drop_last() =~= seq![r] + rs.drop_last());
        assert((seq![r] + rs).last() == rs.last());
        let m0 = records_map(rs.drop_last());
        if records_map(rs).contains_key(r.0) {
            assert(records_map(seq![r] + rs) =~= records_map(rs));
        } else {
            assert(records_map(seq![r] + rs) =~= records_map(rs).insert(r.0, r.1));
        }
    }
}

/// Placing the points of a listing of a sub grid in the slots the listing
/// gives them rebuilds the sub grid.
pub proof fn lemma_grid_of_listing(g: Seq<(OffsetIndex, Point)>, m: Map<OffsetIndex, Point>)
    requires
        lists_map(g, m),
    ensures
        grid_of(
            g.map_values(|e: (OffsetIndex, Point)| e.1),
            g.map_values(|e: (OffsetIndex, Point)| e.0),
        ) == m,
    decreases g.len(),
{
    let ps = g.map_values(|e: (OffsetIndex, Point)| e.1);
    let ks = g.map_values(|e: (OffsetIndex, Point)| e.0);
    if g.len() == 0 {
        assert(m.dom() =~= Set::empty()) by {
            assert forall|k: OffsetIndex| !m.contains_key(k) by {
                if m.contains_key(k) {
                    let i = choose|i: int| 0 <= i < g.len() && g[i].0 == k;
                }
            }
        }
        assert(grid_of(ps, ks) =~= m);
    } else {
        let n = g.len() - 1;
        let g0 = g.drop_last();
        let k = g[n].0;
        let m0 = m.remove(k);
        assert forall|i: int, j: int|
            0 <= i < g0.len() && 0 <= j < g0.len() && i != j implies #[trigger] g0[i].0
            != #[trigger] g0[j].0 by {
            assert(g[i].0 != g[j].0);
        }
        assert forall|i: int| 0 <= i < g0.len() implies m0.contains_key(#[trigger] g0[i].0)
            && m0[g0[i].0] == g0[i].1 by {
            assert(g[i].0 != g[n].0);
            assert(m.contains_key(g[i].0));
        }
        assert forall|kk: OffsetIndex| #[trigger] m0.contains_key(kk) implies exists|i: int|
            0 <= i < g0.len() && g0[i].0 == kk by {
            let i = choose|i: int| 0 <= i < g.len() && g[i].0 == kk;
            assert(i != n);
            assert(g0[i].0 == kk);
        }
        assert(m.contains_key(k));
        assert(m0.dom() =~= m.dom().remove(k));
        lemma_grid_of_listing(g0, m0);
        assert(ps.drop_last() =~= g0.map_values(|e: (OffsetIndex, Point)| e.1));
        assert(ks.take(n) =~= g0.map_values(|e: (OffsetIndex, Point)| e.0));
        assert(grid_of(ps, ks) =~= m0.insert(k, g[n].1));
        assert(m0.insert(k, g[n].1) =~= m);
    }
}

/// Taking the records of a listing of overflow records rebuilds the records.
pub proof fn lemma_records_map_listing(o: Seq<(CellIndex, Option<Seq<Point>>)>, m: Map<CellIndex, Option<Seq<Point>>>)
    requires
        lists_map(o, m),
    ensures
        records_map(o) == m,
    decreases o.len(),
{
    if o.len() == 0 {
        assert(m.dom() =~= Set::empty()) by {
            assert forall|k: CellIndex| !m.contains_key(k) by {
                if m.contains_key(k) {
                    let i = choose|i: int| 0 <= i < o.len() && o[i].0 == k;
                }
            }
        }
        assert(records_map(o) =~= m);
    } else {
        let n = o.len() - 1;
        let o0 = o.drop_last();
        let k = o[n].0;
        let m0 = m.remove(k);
        assert forall|i: int, j: int|
            0 <= i < o0.len() && 0 <= j < o0.len() && i != j implies #[trigger] o0[i].0
            != #[trigger] o0[j].0 by {
            assert(o[i].0 != o[j].0);
        }
        assert forall|i: int| 0 <= i < o0.len() implies m0.contains_key(#[trigger] o0[i].0)
            && m0[o0[i].0] == o0[i].1 by {
            assert(o[i].0 != o[n].0);
            assert(m.contains_key(o[i].0));
        }
        assert forall|kk: CellIndex| #[trigger] m0.contains_key(kk) implies exists|i: int|
            0 <= i < o0.len() && o0[i].0 == kk by {
            let i = choose|i: int| 0 <= i < o.len() && o[i].0 == kk;
            assert(i != n);
            assert(o0[i].0 == kk);
        }
        assert(m.contains_key(k));
        assert(m0.dom() =~= m.dom().remove(k));
        lemma_records_map_listing(o0, m0);
        assert(records_map(o) =~= m0.insert(k, o[n].1));
        assert(m0.insert(k, o[n].1) =~= m);
    }
}

/// The points of the records with points, record after record.
pub open spec fn concat_records(rs: Seq<(CellIndex, Option<Seq<Point>>)>) -> Seq<Point>
    decreases rs.len(),
{
    if rs.len() == 0 {
        seq![]
    } else {
        concat_records(rs.drop_last()) + match rs.last().1 {
            Some(ps) => ps,
            None => seq![],
        }
    }
}

/// Appending a record appends its points.
proof fn lemma_concat_records_push(rs: Seq<(CellIndex, Option<Seq<Point>>)>, r: (CellIndex, Option<Seq<Point>>))
    ensures
        concat_records(rs.push(r)) == concat_records(rs) + match r.1 {
            Some(ps) => ps,
            None => seq![],
        },
{
    assert(rs.push(r).drop_last() =~= rs);
}

/// Counts one for each value equal to `p`.
pub open spec fn point_occurrence_fn(p: Point) -> spec_fn(Point) -> nat {
    |v: Point| if v == p { 1nat } else { 0nat }
}

/// How often `p` occurs among the points of a sub grid.
pub open spec fn grid_occurrences(g: Map<OffsetIndex, Point>, p: Point) -> nat {
    map_total(g, point_occurrence_fn(p))
}

/// How often `p` occurs in an optional point: once or not at all.
pub open spec fn opt_occurrences(r: Option<Point>, p: Point) -> nat {
    match r {
        Some(x) => if x == p { 1 } else { 0 },
        None => 0,
    }
}

/// A cell: its header, at most one point per sub grid slot, and overflow records.
#[derive(Debug)]
pub struct Cell {
    header: Header,
    points_grid: PointGrid,
    pub(crate) overflow: OverflowMap,
}

impl Cell {
    /// The header.
    pub closed spec fn head(&self) -> Header {
        self.header
    }

    /// The points of the sub grid, by slot.
    pub closed spec fn grid(&self) -> Map<OffsetIndex, Point> {
        grid_contents(self.points_grid)
    }

    /// The overflow records, by child cell.
    pub closed spec fn overflow_records(&self) -> Map<CellIndex, Option<Seq<Point>>> {
        overflow_contents(self.overflow)
    }

    /// The sub grid and the overflow records have finitely many entries.
    pub open spec fn wf(&self) -> bool {
        &&& self.grid().dom().finite()
        &&& self.overflow_records().dom().finite()
    }

    /// The header's overflow counter agrees with the overflow records, and its
    /// total is the sum of its two counters.
    pub open spec fn overflow_counts_consistent(&self) -> bool {
        &&& self.head().number_of_overflow_points == overflow_count(self.overflow_records())
        &&& self.head().total_number_of_points == self.head().number_of_points
            + self.head().number_of_overflow_points
    }

    /// The header's counters agree with what the cell holds.
    pub open spec fn counts_consistent(&self) -> bool {
        &&& self.head().number_of_points == self.grid().len()
        &&& self.overflow_counts_consistent()
    }

    /// An empty cell with a fresh header.
    pub fn new(id: CellId, sub_grid_dimension: u32, size: u32, pos: [u32; 3], capacity: usize) -> (c:
        Self)
        ensures
            c.wf(),
            c.counts_consistent(),
            c.head() == (Header {
                id,
                total_number_of_points: 0,
                number_of_points: 0,
                number_of_overflow_points: 0,
                sub_grid_dimension,
                size,
                pos,
            }),
            c.grid() == Map::<OffsetIndex, Point>::empty(),
            c.overflow_records() == Map::<CellIndex, Option<Seq<Point>>>::empty(),
    {
        let c = Cell {
            header: Header::new(id, sub_grid_dimension, size, pos),
            points_grid: grid_with_capacity(capacity),
            overflow: overflow_new(),
        };
        proof {
            lemma_map_total_empty(c.overflow_records(), opt_len_fn());
        }
        c
    }

    /// The header.
    pub fn header(&self) -> (h: &Header)
        ensures
            *h == self.head(),
    {
        &self.header
    }

    /// The point in a sub grid slot, if any.
    pub fn point_at(&self, index: &OffsetIndex) -> (p: Option<Point>)
        ensures
            self.grid().contains_key(*index) ==> p == Some(self.grid()[*index]),
            !self.grid().contains_key(*index) ==> p is None,
    {
        grid_get(&self.points_grid, index)
    }

    /// Number of points in the sub grid.
    pub fn number_of_grid_points(&self) -> (n: usize)
        ensures
            n == self.grid().len(),
    {
        grid_len(&self.points_grid)
    }

    /// Adds a point to the sub grid slot `index`.
    ///
    /// A free slot takes the point, and both point counters grow by one. In a
    /// taken slot the point closer to the slot's center stays: `is_closer` says
    /// whether the new point is closer than the one there. The point that stays
    /// out of the grid is returned: no point is lost or made up, as the grid's
    /// points and the one returned are the old grid's points and the new one.
    pub fn add_point(&mut self, point: Point, index: OffsetIndex, is_closer: bool) -> (r: Option<Point>)
        requires
            old(self).wf(),
            !old(self).grid().contains_key(index) ==> old(self).head().total_number_of_points
                < u32::MAX && old(self).head().number_of_points < u32::MAX,
        ensures
            final(self).wf(),
            final(self).overflow_records() == old(self).overflow_records(),
            !old(self).grid().contains_key(index) ==> {
                &&& r is None
                &&& final(self).grid() == old(self).grid().insert(index, point)
                &&& final(self).head() == (Header {
                    total_number_of_points: (old(self).head().total_number_of_points + 1) as u32,
                    number_of_points: (old(self).head().number_of_points + 1) as u32,
                    ..old(self).head()
                })
            },
            old(self).grid().contains_key(index) && is_closer ==> {
                &&& r == Some(old(self).grid()[index])
                &&& final(self).grid() == old(self).grid().insert(index, point)
                &&& final(self).head() == old(self).head()
            },
            old(self).grid().contains_key(index) && !is_closer ==> {
                &&& r == Some(point)
                &&& final(self).grid() == old(self).grid()
                &&& final(self).head() == old(self).head()
            },
            old(self).counts_consistent() ==> final(self).counts_consistent(),
            forall|p: Point|
                #[trigger] grid_occurrences(final(self).grid(), p) + opt_occurrences(r, p)
                    == grid_occurrences(old(self).grid(), p) + opt_occurrences(Some(point), p),
    {
        let ghost g = self.grid();
        match grid_get(&self.points_grid, &index) {
            Some(_) => {
                if is_closer {
                    let r = grid_insert(&mut self.points_grid, index, point);
                    proof {
                        assert forall|p: Point|
                            #[trigger] grid_occurrences(self.grid(), p) + opt_occurrences(r, p)
                                == grid_occurrences(g, p) + opt_occurrences(Some(point), p) by {
                            lemma_map_total_insert(g, index, point, point_occurrence_fn(p));
                            lemma_map_total_remove(g, index, point_occurrence_fn(p));
                        }
                    }
                    r
                } else {
                    Some(point)
                }
            },
            None => {
                grid_insert(&mut self.points_grid, index, point);
                self.header.total_number_of_points = self.header.total_number_of_points + 1;
                self.header.number_of_points = self.header.number_of_points + 1;
                proof {
                    assert(self.grid().dom() =~= old(self).grid().dom().insert(index));
                    assert(g.remove(index) =~= g);
                    assert forall|p: Point|
                        #[trigger] grid_occurrences(self.grid(), p) + opt_occurrences(None, p)
                            == grid_occurrences(g, p) + opt_occurrences(Some(point), p) by {
                        lemma_map_total_insert(g, index, point, point_occurrence_fn(p));
                    }
                }
                None
            },
        }
    }
    /// Whether adding the groups of overflow points keeps the point counters
    /// within `u32`: the cell's total plus the points that would be kept (see
    /// `kept_count`) fit.
    pub fn overflow_fits(&self, groups: &PointGroups, config: &MetadataConfig) -> (r: bool)
        requires
            groups_contents(*groups).dom().finite(),
        ensures
            r == (self.head().total_number_of_points + kept_count(
                self.overflow_records(),
                groups_contents(*groups),
                config.cell_point_overflow_limit as nat,
            ) <= u32::MAX),
    {
        let limit = config.cell_point_overflow_limit;
        let ghost lim = limit as nat;
        let ghost m = self.overflow_records();
        let ghost input = groups_contents(*groups);
        let es = groups_entries(groups);
        let ghost all = seq_entries(es@);
        let ghost mut done: Map<CellIndex, Seq<Point>> = Map::empty();
        let mut acc: u64 = self.header.total_number_of_points as u64;
        proof {
            lemma_kept_empty(m, done, lim);
            assert(input.remove_keys(done.dom()) =~= input);
        }
        let mut i: usize = 0;
        while i < es.len()
            invariant
                i <= es@.len(),
                all == seq_entries(es@),
                input == groups_contents(*groups),
                lists_map(all, input),
                input.dom().finite(),
                m == self.overflow_records(),
                lim == limit as nat,
                limit == config.cell_point_overflow_limit,
                done.dom().finite(),
                forall|j: int| 0 <= j < i ==> #[trigger] done.contains_key(all[j].0),
                forall|j: int| i <= j < all.len() ==> !#[trigger] done.contains_key(all[j].0),
                forall|k: CellIndex| #[trigger] done.contains_key(k) ==> input.contains_key(k)
                    && done[k] == input[k],
                kept_count(m, done, lim) + kept_count(m, input.remove_keys(done.dom()), lim)
                    == kept_count(m, input, lim),
                acc == self.head().total_number_of_points + kept_count(m, done, lim),
                acc <= u32::MAX,
            decreases es@.len() - i,
        {
            let k = es[i].0;
            let n = es[i].1.len();
            let ghost ps = es@[i as int].1@;
            proof {
                assert(all.len() == es@.len());
                assert(all[i as int] == (k, ps));
                assert(input.contains_key(all[i as int].0));
                assert(input.contains_key(k) && input[k] == ps);
                let rest = input.remove_keys(done.dom());
                assert(rest.dom().finite()) by {
                    assert(rest.dom().subset_of(input.dom()));
                    vstd::set_lib::lemma_set_subset_finite(input.dom(), rest.dom());
                }
                assert(!done.contains_key(k));
                assert(rest.contains_key(k));
                lemma_kept_step(m, done, rest, k, ps, lim);
                assert(rest.remove(k) =~= input.remove_keys(done.insert(k, ps).dom()));
            }
            let kept = match overflow_get(&self.overflow, &k) {
                None => n <= limit as usize,
                Some(None) => false,
                Some(Some(v)) => v.len() <= limit as usize && n <= limit as usize - v.len(),
            };
            assert(kept == is_kept(m, k, ps, lim));
            if kept {
                if n as u64 > 0xffff_ffffu64 - acc {
                    proof {
                        let rest = input.remove_keys(done.dom());
                        assert(kept_count(m, rest.remove(k), lim) + ps.len() == kept_count(
                            m,
                            rest,
                            lim,
                        ));
                        assert(ps.len() == n);
                    }
                    return false;
                }
                acc = acc + n as u64;
            }
            proof {
                assert forall|j: int| 0 <= j < i + 1 implies #[trigger] done.insert(k, ps).contains_key(
                    all[j].0,
                ) by {}
                assert forall|j: int| i + 1 <= j < all.len() implies !#[trigger] done.insert(
                    k,
                    ps,
                ).contains_key(all[j].0) by {
                    assert(all[j].0 != all[i as int].0);
                }
                done = done.insert(k, ps);
            }
            i = i + 1;
        }
        proof {
            assert forall|k: CellIndex| #[trigger] input.contains_key(k) implies done.contains_key(k) by {
                let j = choose|j: int| 0 <= j < all.len() && all[j].0 == k;
            }
            assert(done =~= input);
        }
        true
    }

    /// Adds groups of overflow points, each for a child cell of the next
    /// hierarchy level, to the overflow records (see `overflow_step`), and
    /// returns the points handed on to the next level, grouped by child cell.
    /// The overflow counter and the total follow the points kept.
    pub fn add_points_in_overflow(&mut self, overflow_points: PointGroups, config: &MetadataConfig) -> (remaining:
        PointGroups)
        requires
            old(self).wf(),
            old(self).overflow_counts_consistent(),
            groups_contents(overflow_points).dom().finite(),
            old(self).head().total_number_of_points + kept_count(
                old(self).overflow_records(),
                groups_contents(overflow_points),
                config.cell_point_overflow_limit as nat,
            ) <= u32::MAX,
        ensures
            final(self).wf(),
            final(self).overflow_counts_consistent(),
            old(self).counts_consistent() ==> final(self).counts_consistent(),
            final(self).grid() == old(self).grid(),
            final(self).overflow_records() == overflow_after(
                old(self).overflow_records(),
                groups_contents(overflow_points),
                config.cell_point_overflow_limit as nat,
            ),
            groups_contents(remaining) == handed_on(
                old(self).overflow_records(),
                groups_contents(overflow_points),
                config.cell_point_overflow_limit as nat,
            ),
            final(self).head() == (Header {
                total_number_of_points: (old(self).head().number_of_points + overflow_count(
                    final(self).overflow_records(),
                )) as u32,
                number_of_overflow_points: overflow_count(final(self).overflow_records()) as u32,
                ..old(self).head()
            }),
    {
        let limit = config.cell_point_overflow_limit;
        let ghost lim = limit as nat;
        let ghost input = groups_contents(overflow_points);
        let ghost old_ov = self.overflow_records();
        let ghost old_head = self.head();
        let mut remaining = groups_new();
        let mut entries = groups_into_entries(overflow_points);
        let ghost all = seq_entries(entries@);
        let ghost mut done: Map<CellIndex, Seq<Point>> = Map::empty();
        proof {
            lemma_overflow_after_empty(old_ov, lim);
            lemma_kept_empty(old_ov, done, lim);
            assert(input.remove_keys(done.dom()) =~= input);
        }
        while entries.len() > 0
            invariant
                self.wf(),
                self.grid() == old(self).grid(),
                lists_map(all, input),
                entries@.len() <= all.len(),
                seq_entries(entries@) == all.take(entries@.len() as int),
                done.dom().finite(),
                forall|j: int|
                    entries@.len() <= j < all.len() ==> #[trigger] done.contains_key(all[j].0),
                forall|j: int| 0 <= j < entries@.len() ==> !#[trigger] done.contains_key(all[j].0),
                forall|k: CellIndex| #[trigger] done.contains_key(k) ==> input.contains_key(k) && done[k]
                    == input[k],
                kept_count(old_ov, done, lim) + kept_count(old_ov, input.remove_keys(done.dom()), lim)
                    == kept_count(old_ov, input, lim),
                self.overflow_records() == overflow_after(old_ov, done, lim),
                groups_contents(remaining) == handed_on(old_ov, done, lim),
                self.overflow_counts_consistent(),
                self.head() == (Header {
                    total_number_of_points: self.head().total_number_of_points,
                    number_of_overflow_points: self.head().number_of_overflow_points,
                    ..old_head
                }),
                overflow_count(self.overflow_records()) <= overflow_count(old_ov) + kept_count(
                    old_ov,
                    done,
                    lim,
                ),
                old_head.number_of_points == self.head().number_of_points,
                old_head.total_number_of_points == old_head.number_of_points + overflow_count(old_ov),
                old_head.total_number_of_points + kept_count(old_ov, input, lim) <= u32::MAX,
                limit as nat == lim,
            decreases entries@.len(),
        {
            let ghost n = entries@.len() as int;
            let ghost before = entries@;
            let (k, points) = match entries.pop() {
                Some(e) => e,
                None => {
                    return remaining;
                },
            };
            let ghost cur = self.overflow_records();
            let ghost ps = points@;
            proof {
                assert(before[n - 1] == (k, points));
                assert(seq_entries(before)[n - 1] == (k, ps));
                assert(all.take(n)[n - 1] == all[n - 1]);
                assert(all[n - 1] == (k, ps));
                assert(seq_entries(entries@) =~= all.take(n - 1));
                assert(!done.contains_key(all[n - 1].0));
                assert(input.contains_key(all[n - 1].0));
                assert(input[k] == ps);
                lemma_overflow_after_insert(old_ov, done, k, ps, lim);
                let rest = input.remove_keys(done.dom());
                assert(rest.contains_key(k));
                assert(rest.dom() =~= input.dom().difference(done.dom()));
                assert(rest.dom().finite());
                lemma_kept_step(old_ov, done, rest, k, ps, lim);
                assert(rest.remove(k) =~= input.remove_keys(done.insert(k, ps).dom()));
                if cur.contains_key(k) {
                    lemma_map_total_remove(cur, k, opt_len_fn());
                } else {
                    assert(cur.remove(k) =~= cur);
                }
            }
            match overflow_remove(&mut self.overflow, &k) {
                None => {
                    if points.len() <= limit as usize {
                        let n_points = points.len() as u32;
                        self.header.total_number_of_points = self.header.total_number_of_points
                            + n_points;
                        self.header.number_of_overflow_points = self.header.number_of_overflow_points
                            + n_points;
                        overflow_insert(&mut self.overflow, k, Some(points));
                        proof {
                            lemma_map_total_insert(cur, k, Some(ps), opt_len_fn());
                        }
                    } else {
                        groups_insert(&mut remaining, k, points);
                        overflow_insert(&mut self.overflow, k, None);
                        proof {
                            lemma_map_total_insert(cur, k, None, opt_len_fn());
                        }
                    }
                },
                Some(None) => {
                    groups_insert(&mut remaining, k, points);
                    overflow_insert(&mut self.overflow, k, None);
                    proof {
                        lemma_map_total_insert(cur, k, None, opt_len_fn());
                    }
                },
                Some(Some(mut cell_points)) => {
                    let ghost kept = cell_points@;
                    let cell_points_len = cell_points.len() as u32;
                    let points_len = points.len() as u32;
                    let mut points = points;
                    cell_points.append(&mut points);
                    if cell_points.len() <= limit as usize {
                        self.header.total_number_of_points = self.header.total_number_of_points
                            + points_len;
                        self.header.number_of_overflow_points = self.header.number_of_overflow_points
                            + points_len;
                        proof {
                            lemma_map_total_insert(cur, k, Some(cell_points@), opt_len_fn());
                        }
                        overflow_insert(&mut self.overflow, k, Some(cell_points));
                    } else {
                        self.header.total_number_of_points = self.header.total_number_of_points
                            - cell_points_len;
                        self.header.number_of_overflow_points = self.header.number_of_overflow_points
                            - cell_points_len;
                        overflow_insert(&mut self.overflow, k, None);
                        proof {
                            lemma_map_total_insert(cur, k, None, opt_len_fn());
                        }
                        groups_insert(&mut remaining, k, cell_points);
                    }
                },
            }
            proof {
                done = done.insert(k, ps);
                assert(self.overflow_records() =~= overflow_after(old_ov, done, lim));
            }
        }
        proof {
            assert(done =~= input) by {
                assert forall|k: CellIndex| #[trigger] input.contains_key(k) implies done.contains_key(
                    k,
                ) by {
                    let j = choose|j: int| 0 <= j < all.len() && all[j].0 == k;
                    assert(done.contains_key(all[j].0));
                }
            }
        }
        remaining
    }
    /// Appends the cell file: the header, the sub grid's points in the order the
    /// map lists them, the number of overflow records as one byte (truncated),
    /// then the records in the order the map lists them.
    pub fn write_to(&self, out: &mut Vec<u8>)
        requires
            self.wf(),
        ensures
            exists|g: Seq<(OffsetIndex, Point)>, o: Seq<(CellIndex, Option<Seq<Point>>)>|
                {
                    &&& lists_map(g, self.grid())
                    &&& lists_map(o, self.overflow_records())
                    &&& final(out)@ == old(out)@ + cell_bytes(
                        self.head(),
                        g.map_values(|e: (OffsetIndex, Point)| e.1),
                        o,
                    )
                },
    {
        self.header.write_to(out);
        let ghost after_header = out@;
        let grid = grid_entries(&self.points_grid);
        let ghost gv = grid@.map_values(|e: (OffsetIndex, Point)| e.1);
        let mut i: usize = 0;
        while i < grid.len()
            invariant
                i <= grid@.len(),
                gv == grid@.map_values(|e: (OffsetIndex, Point)| e.1),
                out@ == after_header + points_bytes(gv.take(i as int)),
            decreases grid@.len() - i,
        {
            let p = grid[i].1;
            p.write_to(out);
            proof {
                assert(gv.take(i + 1) =~= gv.take(i as int).push(p));
                lemma_points_bytes_push(gv.take(i as int), p);
            }
            i = i + 1;
        }
        proof {
            assert(gv.take(i as int) =~= gv);
        }
        let n = overflow_len(&self.overflow);
        out.push(n as u8);
        let ghost after_count = out@;
        let records = overflow_entries(&self.overflow);
        let ghost os = opt_seq_entries(records@);
        let mut j: usize = 0;
        while j < records.len()
            invariant
                j <= records@.len(),
                os == opt_seq_entries(records@),
                out@ == after_count + records_bytes(os.take(j as int)),
            decreases records@.len() - j,
        {
            let ghost before = out@;
            let k = records[j].0;
            push_i32_le(out, k.x);
            push_i32_le(out, k.y);
            push_i32_le(out, k.z);
            match &records[j].1 {
                Some(points) => {
                    push_u32_le(out, points.len() as u32);
                    let ghost start = out@;
                    let mut m: usize = 0;
                    while m < points.len()
                        invariant
                            m <= points@.len(),
                            out@ == start + points_bytes(points@.take(m as int)),
                        decreases points@.len() - m,
                    {
                        let p = points[m];
                        p.write_to(out);
                        proof {
                            assert(points@.take(m + 1) =~= points@.take(m as int).push(p));
                            lemma_points_bytes_push(points@.take(m as int), p);
                        }
                        m = m + 1;
                    }
                    proof {
                        assert(points@.take(m as int) =~= points@);
                    }
                },
                None => {
                    push_u32_le(out, 0);
                },
            }
            proof {
                reveal(record_bytes);
                assert(os[j as int] == (k, opt_points(records@[j as int].1)));
                assert(out@ =~= before + record_bytes(k, os[j as int].1));
                lemma_records_bytes_push(os.take(j as int), os[j as int]);
                assert(os.take(j + 1) =~= os.take(j as int).push(os[j as int]));
            }
            j = j + 1;
        }
        proof {
            assert(os.take(j as int) =~= os);
            assert(out@ =~= old(out)@ + cell_bytes(self.head(), gv, os));
        }
    }
    /// A cell from a cell file as read: the header as it is, `record.points[i]`
    /// placed in the sub grid slot `indices[i]`, and the overflow records.
    pub fn from_record(record: CellRecord, indices: &Vec<OffsetIndex>) -> (c: Self)
        requires
            indices@.len() == record.points@.len(),
        ensures
            c.wf(),
            c.head() == record.header,
            c.grid() == grid_of(record.points@, indices@),
            c.overflow_records() == records_map(opt_seq_entries(record.overflow@)),
    {
        let CellRecord { header, points, overflow: records } = record;
        let mut grid = grid_with_capacity(points.len());
        let mut i: usize = 0;
        while i < points.len()
            invariant
                i <= points@.len(),
                indices@.len() == points@.len(),
                grid_contents(grid) == grid_of(points@.take(i as int), indices@.take(i as int)),
                grid_contents(grid).dom().finite(),
            decreases points@.len() - i,
        {
            grid_insert(&mut grid, indices[i], points[i]);
            proof {
                assert(points@.take(i + 1).drop_last() =~= points@.take(i as int));
                assert(indices@.take(i + 1).take(i as int) =~= indices@.take(i as int));
            }
            i = i + 1;
        }
        proof {
            assert(points@.take(i as int) =~= points@);
            assert(indices@.take(i as int) =~= indices@);
        }
        let ghost rs = opt_seq_entries(records@);
        let mut overflow = overflow_new();
        let mut records = records;
        let ghost mut tail: Seq<(CellIndex, Option<Seq<Point>>)> = seq![];
        while records.len() > 0
            invariant
                opt_seq_entries(records@) + tail == rs,
                overflow_contents(overflow) == records_map(tail),
                overflow_contents(overflow).dom().finite(),
            decreases records@.len(),
        {
            let ghost before = records@;
            let e = records.pop().unwrap();
            let k = e.0;
            let ghost v = opt_points(e.1);
            proof {
                assert(before =~= records@.push(e));
                assert(opt_seq_entries(before) =~= opt_seq_entries(records@).push((k, v)));
                lemma_records_map_prepend((k, v), tail);
                assert(opt_seq_entries(records@) + (seq![(k, v)] + tail) =~= rs);
            }
            match overflow_remove(&mut overflow, &k) {
                Some(later) => {
                    overflow_insert(&mut overflow, k, later);
                    proof {
                        assert(overflow_contents(overflow) =~= records_map(tail));
                    }
                },
                None => {
                    overflow_insert(&mut overflow, k, e.1);
                },
            }
            proof {
                tail = seq![(k, v)] + tail;
            }
        }
        proof {
            assert(opt_seq_entries(records@) =~= Seq::<(CellIndex, Option<Seq<Point>>)>::empty());
            assert(tail =~= rs);
        }
        Cell { header, points_grid: grid, overflow }
    }
    /// The points of the sub grid, in the order the map lists them.
    pub fn points(&self) -> (r: Vec<Point>)
        ensures
            exists|g: Seq<(OffsetIndex, Point)>|
                lists_map(g, self.grid()) && r@ == g.map_values(|e: (OffsetIndex, Point)| e.1),
    {
        let grid = grid_entries(&self.points_grid);
        let ghost gv = grid@.map_values(|e: (OffsetIndex, Point)| e.1);
        let mut r: Vec<Point> = Vec::new();
        let mut i: usize = 0;
        while i < grid.len()
            invariant
                i <= grid@.len(),
                gv == grid@.map_values(|e: (OffsetIndex, Point)| e.1),
                r@ == gv.take(i as int),
            decreases grid@.len() - i,
        {
            r.push(grid[i].1);
            proof {
                assert(gv.take(i + 1) =~= gv.take(i as int).push(grid@[i as int].1));
            }
            i = i + 1;
        }
        proof {
            assert(gv.take(i as int) =~= gv);
            assert(lists_map(grid@, self.grid()) && r@ == grid@.map_values(|e: (OffsetIndex, Point)| e.1));
        }
        r
    }

    /// The points kept in overflow records, record after record in the order
    /// the map lists them.
    pub fn overflow_points(&self) -> (r: Vec<Point>)
        ensures
            exists|o: Seq<(CellIndex, Option<Seq<Point>>)>|
                lists_map(o, self.overflow_records()) && r@ == concat_records(o),
    {
        let records = overflow_entries(&self.overflow);
        let ghost os = opt_seq_entries(records@);
        let mut r: Vec<Point> = Vec::new();
        let mut j: usize = 0;
        while j < records.len()
            invariant
                j <= records@.len(),
                os == opt_seq_entries(records@),
                r@ == concat_records(os.take(j as int)),
            decreases records@.len() - j,
        {
            let ghost before = r@;
            match &records[j].1 {
                Some(points) => {
                    let mut m: usize = 0;
                    while m < points.len()
                        invariant
                            m <= points@.len(),
                            r@ == before + points@.take(m as int),
                        decreases points@.len() - m,
                    {
                        r.push(points[m]);
                        proof {
                            assert(points@.take(m + 1) =~= points@.take(m as int).push(points@[m as int]));
                            assert(r@ =~= before + points@.take(m + 1));
                        }
                        m = m + 1;
                    }
                    proof {
                        assert(points@.take(m as int) =~= points@);
                    }
                },
                None => {
                    assert(r@ =~= before + Seq::<Point>::empty());
                },
            }
            proof {
                lemma_concat_records_push(os.take(j as int), os[j as int]);
                assert(os.take(j + 1) =~= os.take(j as int).push(os[j as int]));
            }
            j = j + 1;
        }
        proof {
            assert(os.take(j as int) =~= os);
        }
        r
    }

    /// The points of the sub grid, then those kept in overflow records.
    pub fn all_points(&self) -> (r: Vec<Point>)
        ensures
            exists|g: Seq<(OffsetIndex, Point)>, o: Seq<(CellIndex, Option<Seq<Point>>)>|
                {
                    &&& lists_map(g, self.grid())
                    &&& lists_map(o, self.overflow_records())
                    &&& r@ == g.map_values(|e: (OffsetIndex, Point)| e.1) + concat_records(o)
                },
    {
        let mut r = self.points();
        let mut o = self.overflow_points();
        r.append(&mut o);
        r
    }
    /// Whether the header's counters agree with what the cell holds.
    pub fn has_consistent_counts(&self) -> (r: bool)
        requires
            self.wf(),
        ensures
            r == self.counts_consistent(),
    {
        let grid_points = grid_len(&self.points_grid);
        self.header.number_of_points as usize == grid_points && self.has_consistent_overflow_counts()
    }

    /// Whether the header's overflow counter agrees with the overflow records
    /// and its total is the sum of its two counters.
    pub fn has_consistent_overflow_counts(&self) -> (r: bool)
        requires
            self.wf(),
        ensures
            r == self.overflow_counts_consistent(),
    {
        let records = overflow_entries(&self.overflow);
        let ghost os = opt_seq_entries(records@);
        proof {
            lemma_pairs_total_listing(os, self.overflow_records(), opt_len_fn());
        }
        let mut sum: u64 = 0;
        let mut j: usize = 0;
        while j < records.len()
            invariant
                j <= records@.len(),
                os == opt_seq_entries(records@),
                sum as nat == pairs_total(os.take(j as int), opt_len_fn()),
                sum <= 0xffff_ffffu64,
                pairs_total(os, opt_len_fn()) == overflow_count(self.overflow_records()),
            decreases records@.len() - j,
        {
            let len: usize = match &records[j].1 {
                Some(points) => points.len(),
                None => 0,
            };
            proof {
                assert(os.take(j + 1).drop_last() =~= os.take(j as int));
            }
            if len as u64 > 0xffff_ffffu64 - sum {
                proof {
                    lemma_pairs_total_prefix(os, j + 1, opt_len_fn());
                }
                return false;
            }
            sum = sum + len as u64;
            j = j + 1;
        }
        proof {
            assert(os.take(j as int) =~= os);
        }
        self.header.number_of_overflow_points as u64 == sum && self.header.total_number_of_points as u64
            == self.header.number_of_points as u64 + self.header.number_of_overflow_points as u64
    }
}

/// What `Cell::write_to` writes, reading gives back: for the listings of the
/// sub grid and of the overflow records that the file was written in, the file
/// reads as the cell's header, the listed points and the listed records;
/// placing each point back in the slot it was listed with rebuilds the sub
/// grid, and the records rebuild the overflow records. This holds when the
/// header counts the grid's points, there are fewer than 256 records (their
/// number is written as one byte) and no record is an empty list of points
/// (which is written like a record whose points were handed on).
pub proof fn lemma_cell_write_read(
    c: Cell,
    g: Seq<(OffsetIndex, Point)>,
    o: Seq<(CellIndex, Option<Seq<Point>>)>,
    after: Seq<u8>,
)
    requires
        c.wf(),
        c.head().number_of_points == c.grid().len(),
        c.overflow_records().len() < 256,
        forall|k: CellIndex| #[trigger] c.overflow_records().contains_key(k) ==> record_wf(
            c.overflow_records()[k],
        ),
        lists_map(g, c.grid()),
        lists_map(o, c.overflow_records()),
    ensures
        ({
            let points = g.map_values(|e: (OffsetIndex, Point)| e.1);
            let slots = g.map_values(|e: (OffsetIndex, Point)| e.0);
            &&& parse_cell(cell_bytes(c.head(), points, o) + after) == Some(
                (c.head(), points, o, cell_bytes(c.head(), points, o).len()),
            )
            &&& grid_of(points, slots) == c.grid()
            &&& records_map(o) == c.overflow_records()
        }),
{
    let points = g.map_values(|e: (OffsetIndex, Point)| e.1);
    assert forall|i: int| 0 <= i < o.len() implies #[trigger] record_wf(o[i].1) by {
        assert(c.overflow_records().contains_key(o[i].0));
    }
    lemma_parse_cell(c.head(), points, o, after);
    lemma_grid_of_listing(g, c.grid());
    lemma_records_map_listing(o, c.overflow_records());
}

} // verus!
