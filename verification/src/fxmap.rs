//! The `rustc_hash` maps that cells are built from, and what their methods do.
//!
//! `FxHashMap<K, V>` is std's `HashMap` with `rustc_hash::FxBuildHasher`. Verus
//! does not know that this hasher behaves as a hasher of its map model, so the
//! maps here get names for their contents and one small trusted wrapper per
//! method that the cells call.
use vstd::prelude::*;

use rustc_hash::{FxBuildHasher, FxHashMap};

use crate::cell::CellIndex;
use crate::hex::OffsetIndex;
use crate::point::Point;

verus! {

/// The points of a cell's sub grid, keyed by their sub grid index.
pub type PointGrid = FxHashMap<OffsetIndex, Point>;

/// Per child cell, its overflow points, or `None` once there are too many.
pub type OverflowMap = FxHashMap<CellIndex, Option<Vec<Point>>>;

/// Points grouped by the cell they fall in.
pub type PointGroups = FxHashMap<CellIndex, Vec<Point>>;

#[verifier::external_type_specification]
#[verifier::external_body]
pub struct ExFxBuildHasher(FxBuildHasher);

/// `entries` holds each key of `m` exactly once, with its value.
pub open spec fn lists_map<K, V>(entries: Seq<(K, V)>, m: Map<K, V>) -> bool {
    &&& m.dom().finite()
    &&& entries.len() == m.len()
    &&& forall|i: int, j: int|
        0 <= i < entries.len() && 0 <= j < entries.len() && i != j ==> #[trigger] entries[i].0
            != #[trigger] entries[j].0
    &&& forall|i: int|
        0 <= i < entries.len() ==> m.contains_key(#[trigger] entries[i].0) && m[entries[i].0]
            == entries[i].1
    &&& forall|k: K| #[trigger] m.contains_key(k) ==> exists|i: int| 0 <= i < entries.len() && entries[i].0 == k
}

/// Pushing onto a sequence adds to its set of elements.
pub proof fn lemma_push_to_set<A>(s: Seq<A>, x: A)
    ensures
        s.push(x).to_set() == s.to_set().insert(x),
{
    let t = s.push(x);
    assert forall|y: A| t.to_set().contains(y) <==> s.to_set().insert(x).contains(y) by {
        if t.contains(y) {
            let i = choose|i: int| 0 <= i < t.len() && t[i] == y;
            if i < s.len() {
                assert(s[i] == y);
            }
        }
        if s.contains(y) {
            let i = choose|i: int| 0 <= i < s.len() && s[i] == y;
            assert(t[i] == y);
        }
        if y == x {
            assert(t[s.len() as int] == x);
        }
    }
    assert(t.to_set() =~= s.to_set().insert(x));
}

/// A vector of points as a sequence, inside an option.
pub open spec fn opt_points(v: Option<Vec<Point>>) -> Option<Seq<Point>> {
    match v {
        Some(ps) => Some(ps@),
        None => None,
    }
}

/// Pairs of key and vector of points as pairs of key and sequence.
pub open spec fn seq_entries<K>(es: Seq<(K, Vec<Point>)>) -> Seq<(K, Seq<Point>)> {
    es.map_values(|e: (K, Vec<Point>)| (e.0, e.1@))
}

/// Pairs of key and optional vector of points as pairs of key and optional sequence.
pub open spec fn opt_seq_entries<K>(es: Seq<(K, Option<Vec<Point>>)>) -> Seq<(K, Option<Seq<Point>>)> {
    es.map_values(|e: (K, Option<Vec<Point>>)| (e.0, opt_points(e.1)))
}

/// A sub grid without points.
pub open spec fn empty_grid() -> Map<OffsetIndex, Point> {
    Map::empty()
}

/// No overflow records.
pub open spec fn empty_overflow() -> Map<CellIndex, Option<Seq<Point>>> {
    Map::empty()
}

/// No groups.
pub open spec fn empty_groups() -> Map<CellIndex, Seq<Point>> {
    Map::empty()
}

/// The points of a cell's sub grid, keyed by their sub grid index.
pub uninterp spec fn grid_contents(m: PointGrid) -> Map<OffsetIndex, Point>;

/// The overflow records of a cell: per child cell, its points, or `None` once
/// the child holds too many points to be kept as overflow.
pub uninterp spec fn overflow_contents(m: OverflowMap) -> Map<
    CellIndex,
    Option<Seq<Point>>,
>;

/// Points grouped by the cell they fall in.
pub uninterp spec fn groups_contents(m: PointGroups) -> Map<
    CellIndex,
    Seq<Point>,
>;

/// `FxHashMap::with_capacity_and_hasher`: a new map is empty.
#[verifier::external_body]
pub(crate) fn grid_with_capacity(capacity: usize) -> (m: PointGrid)
    ensures
        grid_contents(m) == empty_grid(),
{
    FxHashMap::with_capacity_and_hasher(capacity, FxBuildHasher)
}

/// `HashMap::len`: the number of keys, of which there are finitely many.
#[verifier::external_body]
pub(crate) fn grid_len(m: &PointGrid) -> (n: usize)
    ensures
        n == grid_contents(*m).len(),
{
    m.len()
}

/// `HashMap::get`: the value at a key, copied out.
#[verifier::external_body]
pub(crate) fn grid_get(m: &PointGrid, key: &OffsetIndex) -> (r: Option<Point>)
    ensures
        grid_contents(*m).contains_key(*key) ==> r == Some(grid_contents(*m)[*key]),
        !grid_contents(*m).contains_key(*key) ==> r is None,
{
    m.get(key).copied()
}

/// `HashMap::insert`: maps the key to the value and returns the value it had.
#[verifier::external_body]
pub(crate) fn grid_insert(m: &mut PointGrid, key: OffsetIndex, value: Point) -> (r:
    Option<Point>)
    ensures
        grid_contents(*final(m)) == grid_contents(*old(m)).insert(key, value),
        grid_contents(*old(m)).contains_key(key) ==> r == Some(grid_contents(*old(m))[key]),
        !grid_contents(*old(m)).contains_key(key) ==> r is None,
{
    m.insert(key, value)
}

/// `HashMap::iter`: every entry once, in an order that the map chooses.
#[verifier::external_body]
pub(crate) fn grid_entries(m: &PointGrid) -> (es: Vec<(OffsetIndex, Point)>)
    ensures
        lists_map(es@, grid_contents(*m)),
{
    m.iter().map(|(k, v)| (*k, *v)).collect()
}

/// `FxHashMap::default`: a new map is empty.
#[verifier::external_body]
pub(crate) fn overflow_new() -> (m: OverflowMap)
    ensures
        overflow_contents(m) == empty_overflow(),
{
    FxHashMap::default()
}

/// `HashMap::len`: the number of keys, of which there are finitely many.
#[verifier::external_body]
pub(crate) fn overflow_len(m: &OverflowMap) -> (n: usize)
    ensures
        n == overflow_contents(*m).len(),
{
    m.len()
}

/// `HashMap::remove`: takes the value at a key out of the map.
#[verifier::external_body]
pub(crate) fn overflow_remove(
    m: &mut OverflowMap,
    key: &CellIndex,
) -> (r: Option<Option<Vec<Point>>>)
    ensures
        overflow_contents(*final(m)) == overflow_contents(*old(m)).remove(*key),
        overflow_contents(*old(m)).contains_key(*key) ==> (r matches Some(v) && opt_points(v)
            == overflow_contents(*old(m))[*key]),
        !overflow_contents(*old(m)).contains_key(*key) ==> r is None,
{
    m.remove(key)
}

/// `HashMap::get`: the record of a child cell, cloned out.
#[verifier::external_body]
pub(crate) fn overflow_get(
    m: &OverflowMap,
    key: &CellIndex,
) -> (r: Option<Option<Vec<Point>>>)
    ensures
        (r is None) == !overflow_contents(*m).contains_key(*key),
        r matches Some(v) ==> opt_points(v) == overflow_contents(*m)[*key],
{
    m.get(key).cloned()
}

/// `HashMap::insert`: maps the key to the value; the value it had is dropped.
#[verifier::external_body]
pub(crate) fn overflow_insert(
    m: &mut OverflowMap,
    key: CellIndex,
    value: Option<Vec<Point>>,
)
    ensures
        overflow_contents(*final(m)) == overflow_contents(*old(m)).insert(key, opt_points(value)),
{
    m.insert(key, value);
}

/// `HashMap::iter`: every entry once, in an order that the map chooses, the
/// vectors cloned.
#[verifier::external_body]
pub(crate) fn overflow_entries(m: &OverflowMap) -> (es: Vec<
    (CellIndex, Option<Vec<Point>>),
>)
    ensures
        lists_map(opt_seq_entries(es@), overflow_contents(*m)),
{
    m.iter().map(|(k, v)| (*k, v.clone())).collect()
}

/// `FxHashMap::default`: a new map is empty.
#[verifier::external_body]
pub(crate) fn groups_new() -> (m: PointGroups)
    ensures
        groups_contents(m) == empty_groups(),
{
    FxHashMap::default()
}

/// `HashMap::len`: the number of keys, of which there are finitely many.
#[verifier::external_body]
pub(crate) fn groups_len(m: &PointGroups) -> (n: usize)
    ensures
        n == groups_contents(*m).len(),
{
    m.len()
}

/// `HashMap::remove`: takes the value at a key out of the map.
#[verifier::external_body]
pub(crate) fn groups_remove(
    m: &mut PointGroups,
    key: &CellIndex,
) -> (r: Option<Vec<Point>>)
    ensures
        groups_contents(*final(m)) == groups_contents(*old(m)).remove(*key),
        groups_contents(*old(m)).contains_key(*key) ==> (r matches Some(v) && v@
            == groups_contents(*old(m))[*key]),
        !groups_contents(*old(m)).contains_key(*key) ==> r is None,
{
    m.remove(key)
}

/// `HashMap::insert`: maps the key to the value; the value it had is dropped.
#[verifier::external_body]
pub(crate) fn groups_insert(
    m: &mut PointGroups,
    key: CellIndex,
    value: Vec<Point>,
)
    ensures
        groups_contents(*final(m)) == groups_contents(*old(m)).insert(key, value@),
{
    m.insert(key, value);
}

/// `HashMap::iter`: every entry once, in an order that the map chooses, the
/// vectors cloned.
#[verifier::external_body]
pub(crate) fn groups_entries(m: &PointGroups) -> (es: Vec<(CellIndex, Vec<Point>)>)
    ensures
        lists_map(seq_entries(es@), groups_contents(*m)),
{
    m.iter().map(|(k, v)| (*k, v.clone())).collect()
}

/// `HashMap::into_iter`: every entry once, in an order that the map chooses.
#[verifier::external_body]
pub(crate) fn groups_into_entries(m: PointGroups) -> (es: Vec<
    (CellIndex, Vec<Point>),
>)
    ensures
        lists_map(seq_entries(es@), groups_contents(m)),
{
    m.into_iter().collect()
}

} // verus!
