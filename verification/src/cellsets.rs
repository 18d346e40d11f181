//! The collections that the streamer tracks cells in: a `rustc_hash` map of
//! the cells on screen, a `rustc_hash` set of the cells being loaded, and a
//! `caches` LRU cache of the cells known to be missing.
//!
//! Verus does not see inside them, so each gets a name for what it holds and
//! one small trusted wrapper per method that the streamer calls.
use vstd::prelude::*;

use caches::lru::CacheError;
use caches::{Cache, DefaultEvictCallback, LRUCache, RawLRU};
use rustc_hash::{FxBuildHasher, FxHashMap, FxHashSet};

use crate::cell::{CellId, CellIndex};

verus! {

/// The cells on screen, each with the entity (as its bits) that draws it.
pub type LoadedMap = FxHashMap<CellId, u64>;

/// The cells whose loading has been asked for.
pub type LoadingSet = FxHashSet<CellId>;

/// The indices of the cells of one hierarchy that a streaming frustum holds.
pub type IndexSet = FxHashSet<CellIndex>;

/// The cells known to be missing, the most recently used first.
pub type MissingCache = LRUCache<CellId, (), FxBuildHasher>;

#[verifier::external_type_specification]
#[verifier::external_body]
#[verifier::reject_recursive_types(K)]
#[verifier::reject_recursive_types(V)]
#[verifier::reject_recursive_types(E)]
#[verifier::reject_recursive_types(S)]
pub struct ExRawLru<K, V, E, S>(RawLRU<K, V, E, S>);

#[verifier::external_type_specification]
#[verifier::external_body]
pub struct ExDefaultEvictCallback(DefaultEvictCallback);

#[verifier::external_type_specification]
#[verifier::external_body]
pub struct ExCacheError(CacheError);

/// Whether a key is another than `k`.
pub open spec fn other_than(k: CellId) -> spec_fn(CellId) -> bool {
    |x: CellId| x != k
}

/// `s` with `k` moved to the front.
pub open spec fn move_to_front(s: Seq<CellId>, k: CellId) -> Seq<CellId> {
    seq![k] + s.filter(other_than(k))
}

/// What an LRU cache holds after `put` of `k`: `k` first, and where the cache
/// was full and lacked `k`, without its least recently used key.
pub open spec fn lru_put(s: Seq<CellId>, k: CellId, cap: nat) -> Seq<CellId> {
    if s.contains(k) {
        move_to_front(s, k)
    } else if s.len() == cap {
        seq![k] + s.drop_last()
    } else {
        seq![k] + s
    }
}

/// An LRU order as a cache keeps it: no key twice, at most `cap` keys.
pub open spec fn lru_valid(s: Seq<CellId>, cap: nat) -> bool {
    s.no_duplicates() && s.len() <= cap
}

/// No cell on screen.
pub open spec fn no_loaded_cells() -> Map<CellId, u64> {
    Map::empty()
}

/// The keys and entities of a map of loaded cells.
pub uninterp spec fn loaded_contents(m: LoadedMap) -> Map<CellId, u64>;

/// The keys of a set of loading cells.
pub uninterp spec fn loading_contents(s: LoadingSet) -> Set<CellId>;

/// The indices a set holds.
pub uninterp spec fn index_set_contents(s: IndexSet) -> Set<CellIndex>;

/// No index.
pub open spec fn no_indices() -> Set<CellIndex> {
    Set::empty()
}

/// The keys of a cache of missing cells, the most recently used first.
pub uninterp spec fn missing_order(c: MissingCache) -> Seq<CellId>;

/// The number of keys a cache of missing cells was made to hold.
pub uninterp spec fn missing_capacity(c: MissingCache) -> nat;

/// `FxHashMap::default`: an empty map.
#[verifier::external_body]
pub(crate) fn loaded_new() -> (m: LoadedMap)
    ensures
        loaded_contents(m) == no_loaded_cells(),
{
    FxHashMap::default()
}

/// `HashMap::len`: the number of keys.
#[verifier::external_body]
pub(crate) fn loaded_len(m: &LoadedMap) -> (n: usize)
    ensures
        n == loaded_contents(*m).len(),
{
    m.len()
}

/// `HashMap::get`: the entity of a cell, copied out.
#[verifier::external_body]
pub(crate) fn loaded_get(m: &LoadedMap, id: &CellId) -> (r: Option<u64>)
    ensures
        loaded_contents(*m).contains_key(*id) ==> r == Some(loaded_contents(*m)[*id]),
        !loaded_contents(*m).contains_key(*id) ==> r is None,
{
    m.get(id).copied()
}

/// `HashMap::remove`: takes the entity of a cell out of the map.
#[verifier::external_body]
pub(crate) fn loaded_remove(m: &mut LoadedMap, id: &CellId) -> (r: Option<u64>)
    ensures
        loaded_contents(*final(m)) == loaded_contents(*old(m)).remove(*id),
        loaded_contents(*old(m)).contains_key(*id) ==> r == Some(loaded_contents(*old(m))[*id]),
        !loaded_contents(*old(m)).contains_key(*id) ==> r is None,
{
    m.remove(id)
}

/// `HashMap::insert`: maps the cell to the entity; the entity it had is
/// returned.
#[verifier::external_body]
pub(crate) fn loaded_insert(m: &mut LoadedMap, id: CellId, entity: u64) -> (r: Option<u64>)
    ensures
        loaded_contents(*final(m)) == loaded_contents(*old(m)).insert(id, entity),
        loaded_contents(*old(m)).contains_key(id) ==> r == Some(loaded_contents(*old(m))[id]),
        !loaded_contents(*old(m)).contains_key(id) ==> r is None,
{
    m.insert(id, entity)
}

/// `HashMap::clear`: the map is empty afterwards.
#[verifier::external_body]
pub(crate) fn loaded_clear(m: &mut LoadedMap)
    ensures
        loaded_contents(*final(m)) == no_loaded_cells(),
{
    m.clear();
}

/// `HashMap::into_iter`: every entry once, in an order that the map chooses.
#[verifier::external_body]
pub(crate) fn loaded_into_entries(m: LoadedMap) -> (es: Vec<(CellId, u64)>)
    ensures
        crate::fxmap::lists_map(es@, loaded_contents(m)),
{
    m.into_iter().collect()
}

/// `FxHashSet::with_capacity_and_hasher`: an empty set.
#[verifier::external_body]
pub(crate) fn loading_with_capacity(capacity: usize) -> (s: LoadingSet)
    ensures
        loading_contents(s) == Set::<CellId>::empty(),
{
    FxHashSet::with_capacity_and_hasher(capacity, FxBuildHasher)
}

/// `HashSet::len`: the number of keys.
#[verifier::external_body]
pub(crate) fn loading_len(s: &LoadingSet) -> (n: usize)
    ensures
        n == loading_contents(*s).len(),
{
    s.len()
}

/// `HashSet::contains`.
#[verifier::external_body]
pub(crate) fn loading_contains(s: &LoadingSet, id: &CellId) -> (r: bool)
    ensures
        r == loading_contents(*s).contains(*id),
{
    s.contains(id)
}

/// `HashSet::insert`: adds the key; returns whether it was absent.
#[verifier::external_body]
pub(crate) fn loading_insert(s: &mut LoadingSet, id: CellId) -> (r: bool)
    ensures
        loading_contents(*final(s)) == loading_contents(*old(s)).insert(id),
        r == !loading_contents(*old(s)).contains(id),
{
    s.insert(id)
}

/// `HashSet::remove`: removes the key; returns whether it was present.
#[verifier::external_body]
pub(crate) fn loading_remove(s: &mut LoadingSet, id: &CellId) -> (r: bool)
    ensures
        loading_contents(*final(s)) == loading_contents(*old(s)).remove(*id),
        r == loading_contents(*old(s)).contains(*id),
{
    s.remove(id)
}

/// `HashSet::clear`: the set is empty afterwards.
#[verifier::external_body]
pub(crate) fn loading_clear(s: &mut LoadingSet)
    ensures
        loading_contents(*final(s)) == Set::<CellId>::empty(),
{
    s.clear();
}

/// `FxHashSet::default`: an empty set.
#[verifier::external_body]
pub(crate) fn index_set_new() -> (s: IndexSet)
    ensures
        index_set_contents(s) == no_indices(),
{
    FxHashSet::default()
}

/// `HashSet::insert`: adds the index; returns whether it was absent.
#[verifier::external_body]
pub(crate) fn index_set_insert(s: &mut IndexSet, index: CellIndex) -> (r: bool)
    ensures
        index_set_contents(*final(s)) == index_set_contents(*old(s)).insert(index),
        r == !index_set_contents(*old(s)).contains(index),
{
    s.insert(index)
}

/// `HashSet::contains`.
#[verifier::external_body]
pub(crate) fn index_set_contains(s: &IndexSet, index: &CellIndex) -> (r: bool)
    ensures
        r == index_set_contents(*s).contains(*index),
{
    s.contains(index)
}

/// `HashSet::iter`: every index once, in an order that the set chooses.
#[verifier::external_body]
pub(crate) fn index_set_entries(s: &IndexSet) -> (v: Vec<CellIndex>)
    ensures
        v@.no_duplicates(),
        v@.to_set() == index_set_contents(*s),
{
    s.iter().copied().collect()
}

/// `RawLRU::with_hasher`: refused for a capacity of 0, else an empty cache
/// of that capacity.
#[verifier::external_body]
pub(crate) fn missing_with_capacity(capacity: usize) -> (r: Result<MissingCache, CacheError>)
    ensures
        r is Err <==> capacity == 0,
        r matches Ok(c) ==> missing_order(c) == Seq::<CellId>::empty() && missing_capacity(c)
            == capacity,
{
    LRUCache::with_hasher(capacity, FxBuildHasher)
}

/// `RawLRU::len`: the number of keys.
#[verifier::external_body]
pub(crate) fn missing_len(c: &MissingCache) -> (n: usize)
    ensures
        n == missing_order(*c).len(),
{
    c.len()
}

/// `Cache::get` of `RawLRU`: whether the key is present; a present key
/// becomes the most recently used.
#[verifier::external_body]
pub(crate) fn missing_get(c: &mut MissingCache, id: &CellId) -> (r: Option<()>)
    ensures
        missing_capacity(*final(c)) == missing_capacity(*old(c)),
        lru_valid(missing_order(*final(c)), missing_capacity(*final(c))),
        missing_order(*old(c)).contains(*id) ==> r is Some && missing_order(*final(c))
            == move_to_front(missing_order(*old(c)), *id),
        !missing_order(*old(c)).contains(*id) ==> r is None && missing_order(*final(c))
            == missing_order(*old(c)),
{
    c.get(id).copied()
}

/// `Cache::put` of `RawLRU`: the key becomes the most recently used; a new
/// key in a full cache evicts the least recently used one.
#[verifier::external_body]
pub(crate) fn missing_put(c: &mut MissingCache, id: CellId)
    ensures
        missing_capacity(*final(c)) == missing_capacity(*old(c)),
        lru_valid(missing_order(*final(c)), missing_capacity(*final(c))),
        missing_order(*final(c)) == lru_put(missing_order(*old(c)), id, missing_capacity(*old(c))),
{
    c.put(id, ());
}

/// `Cache::remove` of `RawLRU`: the key is no longer in the cache.
#[verifier::external_body]
pub(crate) fn missing_remove(c: &mut MissingCache, id: &CellId)
    ensures
        missing_capacity(*final(c)) == missing_capacity(*old(c)),
        lru_valid(missing_order(*final(c)), missing_capacity(*final(c))),
        missing_order(*final(c)) == missing_order(*old(c)).filter(other_than(*id)),
{
    c.remove(id);
}

/// `Cache::purge` of `RawLRU`: the cache is empty afterwards.
#[verifier::external_body]
pub(crate) fn missing_purge(c: &mut MissingCache)
    ensures
        missing_capacity(*final(c)) == missing_capacity(*old(c)),
        missing_order(*final(c)) == Seq::<CellId>::empty(),
{
    c.purge();
}

} // verus!
