//! The `rustc_hash` maps and set that the asset book keeps its entries in:
//! the status, source and asset of each entry, the number of handles to each,
//! and the assets freed by a batch of handle changes.
//!
//! Verus does not see inside them, so each gets a name for what it holds and
//! one small trusted wrapper per method that the book calls.
use vstd::prelude::*;

use rustc_hash::{FxBuildHasher, FxHashMap, FxHashSet};

use crate::assets::AssetStatus;
use crate::cell::{Cell, CellId};
use crate::source::AssetSource;

verus! {

/// The status of each asset in the book.
pub type StatusMap = FxHashMap<CellId, AssetStatus>;

/// The source of each asset in the book.
pub type SourceMap = FxHashMap<CellId, AssetSource>;

/// The assets that are there.
pub type AssetMap = FxHashMap<CellId, Cell>;

/// The number of handles to each asset.
pub type CountMap = FxHashMap<CellId, u32>;

/// Assets that no handle refers to any more.
pub type FreedSet = FxHashSet<CellId>;

/// No asset.
pub open spec fn no_statuses() -> Map<CellId, AssetStatus> {
    Map::empty()
}

/// No source.
pub open spec fn no_sources() -> Map<CellId, AssetSource> {
    Map::empty()
}

/// No cell.
pub open spec fn no_assets() -> Map<CellId, Cell> {
    Map::empty()
}

/// No count.
pub open spec fn no_counts() -> Map<CellId, u32> {
    Map::empty()
}

/// The statuses a map holds.
pub uninterp spec fn status_contents(m: StatusMap) -> Map<CellId, AssetStatus>;

/// The sources a map holds.
pub uninterp spec fn source_contents(m: SourceMap) -> Map<CellId, AssetSource>;

/// The assets a map holds.
pub uninterp spec fn asset_contents(m: AssetMap) -> Map<CellId, Cell>;

/// The counts a map holds.
pub uninterp spec fn count_contents(m: CountMap) -> Map<CellId, u32>;

/// The assets a set holds.
pub uninterp spec fn freed_contents(s: FreedSet) -> Set<CellId>;

/// `FxHashMap::default`: an empty map.
#[verifier::external_body]
pub(crate) fn status_new() -> (m: StatusMap)
    ensures
        status_contents(m) == no_statuses(),
{
    FxHashMap::default()
}

/// `HashMap::get`: the status of an asset, copied out.
#[verifier::external_body]
pub(crate) fn status_get(m: &StatusMap, id: &CellId) -> (r: Option<AssetStatus>)
    ensures
        status_contents(*m).contains_key(*id) ==> r == Some(status_contents(*m)[*id]),
        !status_contents(*m).contains_key(*id) ==> r is None,
{
    m.get(id).copied()
}

/// `HashMap::insert`: sets the status of an asset; the one it had is dropped.
#[verifier::external_body]
pub(crate) fn status_insert(m: &mut StatusMap, id: CellId, status: AssetStatus)
    ensures
        status_contents(*final(m)) == status_contents(*old(m)).insert(id, status),
{
    m.insert(id, status);
}

/// `HashMap::remove`: takes the status of an asset out of the map.
#[verifier::external_body]
pub(crate) fn status_remove(m: &mut StatusMap, id: &CellId) -> (r: Option<AssetStatus>)
    ensures
        status_contents(*final(m)) == status_contents(*old(m)).remove(*id),
        status_contents(*old(m)).contains_key(*id) ==> r == Some(status_contents(*old(m))[*id]),
        !status_contents(*old(m)).contains_key(*id) ==> r is None,
{
    m.remove(id)
}

/// `FxHashMap::default`: an empty map.
#[verifier::external_body]
pub(crate) fn source_new() -> (m: SourceMap)
    ensures
        source_contents(m) == no_sources(),
{
    FxHashMap::default()
}

/// `HashMap::get`: the source of an asset, by reference.
#[verifier::external_body]
pub(crate) fn source_get<'a>(m: &'a SourceMap, id: &CellId) -> (r: Option<&'a AssetSource>)
    ensures
        source_contents(*m).contains_key(*id) ==> r == Some(&source_contents(*m)[*id]),
        !source_contents(*m).contains_key(*id) ==> r is None,
{
    m.get(id)
}

/// `HashMap::insert`: sets the source of an asset; the one it had is dropped.
#[verifier::external_body]
pub(crate) fn source_insert(m: &mut SourceMap, id: CellId, source: AssetSource)
    ensures
        source_contents(*final(m)) == source_contents(*old(m)).insert(id, source),
{
    m.insert(id, source);
}

/// `HashMap::remove`: takes the source of an asset out of the map.
#[verifier::external_body]
pub(crate) fn source_remove(m: &mut SourceMap, id: &CellId) -> (r: Option<AssetSource>)
    ensures
        source_contents(*final(m)) == source_contents(*old(m)).remove(*id),
        source_contents(*old(m)).contains_key(*id) ==> r == Some(source_contents(*old(m))[*id]),
        !source_contents(*old(m)).contains_key(*id) ==> r is None,
{
    m.remove(id)
}

/// `FxHashMap::default`: an empty map.
#[verifier::external_body]
pub(crate) fn asset_new() -> (m: AssetMap)
    ensures
        asset_contents(m) == no_assets(),
{
    FxHashMap::default()
}

/// `HashMap::get`: an asset, by reference.
#[verifier::external_body]
pub(crate) fn asset_get<'a>(m: &'a AssetMap, id: &CellId) -> (r: Option<&'a Cell>)
    ensures
        asset_contents(*m).contains_key(*id) ==> r == Some(&asset_contents(*m)[*id]),
        !asset_contents(*m).contains_key(*id) ==> r is None,
{
    m.get(id)
}

/// `HashMap::insert`: sets the asset of an id; the one it had is dropped.
#[verifier::external_body]
pub(crate) fn asset_insert(m: &mut AssetMap, id: CellId, asset: Cell)
    ensures
        asset_contents(*final(m)) == asset_contents(*old(m)).insert(id, asset),
{
    m.insert(id, asset);
}

/// `HashMap::remove`: takes an asset out of the map.
#[verifier::external_body]
pub(crate) fn asset_remove(m: &mut AssetMap, id: &CellId) -> (r: Option<Cell>)
    ensures
        asset_contents(*final(m)) == asset_contents(*old(m)).remove(*id),
        asset_contents(*old(m)).contains_key(*id) ==> r == Some(asset_contents(*old(m))[*id]),
        !asset_contents(*old(m)).contains_key(*id) ==> r is None,
{
    m.remove(id)
}

/// `FxHashMap::default`: an empty map.
#[verifier::external_body]
pub(crate) fn count_new() -> (m: CountMap)
    ensures
        count_contents(m) == no_counts(),
{
    FxHashMap::default()
}

/// `HashMap::get`: the count of an asset, copied out.
#[verifier::external_body]
pub(crate) fn count_get(m: &CountMap, id: &CellId) -> (r: Option<u32>)
    ensures
        count_contents(*m).contains_key(*id) ==> r == Some(count_contents(*m)[*id]),
        !count_contents(*m).contains_key(*id) ==> r is None,
{
    m.get(id).copied()
}

/// `HashMap::insert`: sets the count of an asset; the one it had is dropped.
#[verifier::external_body]
pub(crate) fn count_insert(m: &mut CountMap, id: CellId, count: u32)
    ensures
        count_contents(*final(m)) == count_contents(*old(m)).insert(id, count),
{
    m.insert(id, count);
}

/// `FxHashSet::default`: an empty set.
#[verifier::external_body]
pub(crate) fn freed_new() -> (s: FreedSet)
    ensures
        freed_contents(s) == Set::<CellId>::empty(),
{
    FxHashSet::default()
}

/// `HashSet::insert`: adds an asset.
#[verifier::external_body]
pub(crate) fn freed_insert(s: &mut FreedSet, id: CellId)
    ensures
        freed_contents(*final(s)) == freed_contents(*old(s)).insert(id),
{
    s.insert(id);
}

/// `HashSet::remove`: removes an asset.
#[verifier::external_body]
pub(crate) fn freed_remove(s: &mut FreedSet, id: &CellId)
    ensures
        freed_contents(*final(s)) == freed_contents(*old(s)).remove(*id),
{
    s.remove(id);
}

/// `HashSet::into_iter`: every asset once, in an order that the set chooses.
#[verifier::external_body]
pub(crate) fn freed_into_vec(s: FreedSet) -> (v: Vec<CellId>)
    ensures
        v@.no_duplicates(),
        v@.to_set() == freed_contents(s),
{
    s.into_iter().collect()
}

} // verus!
