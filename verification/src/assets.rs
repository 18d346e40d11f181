//! The book that an asset manager keeps of its cells: for each, the source it
//! is loaded from and saved to, whether it is loading or loaded (and then the
//! cell itself), whether it changed since, and how many handles refer to it.
//!
//! Handles report themselves as changes of their count, increases when made
//! or cloned and decreases when dropped. A batch of such changes frees the
//! assets that end up with no handle; the caller drops them, saving the ones
//! that changed.
use vstd::prelude::*;

use crate::assetmaps::{
    asset_contents, asset_get, asset_insert, asset_new, asset_remove, count_contents, count_get,
    count_insert, count_new, freed_contents, freed_insert, freed_into_vec, freed_new, freed_remove,
    source_contents, source_get, source_insert, source_new, source_remove, status_contents,
    status_get, status_insert, status_new, status_remove, AssetMap, CountMap, SourceMap, StatusMap,
};
use crate::cell::{Cell, CellId};
use crate::source::{AssetSource, SourceError};
use crate::fxmap::lemma_push_to_set;

verus! {

/// Whether an asset is being loaded or is there.
#[derive(Debug, Clone, Copy, PartialEq, Eq)]
pub enum AssetLoadStatus {
    Loading,
    Loaded,
}

/// Whether an asset changed since it was loaded or inserted.
#[derive(Debug, Clone, Copy, PartialEq, Eq)]
pub enum AssetChangeStatus {
    UnChanged,
    Changed,
}

/// The status of an asset in the book.
#[derive(Debug, Clone, Copy)]
pub struct AssetStatus {
    pub load_status: AssetLoadStatus,
    pub change_status: AssetChangeStatus,
}

/// A handle to an asset was made or cloned, or dropped.
#[derive(Debug, Clone, Copy)]
pub enum RefCountChange {
    Increase(CellId),
    Decrease(CellId),
}

/// The asset a change is about.
pub open spec fn change_id(c: RefCountChange) -> CellId {
    match c {
        RefCountChange::Increase(id) => id,
        RefCountChange::Decrease(id) => id,
    }
}

/// The counts and the freed assets after one change.
pub open spec fn ref_step(
    counts: Map<CellId, u32>,
    freed: Set<CellId>,
    c: RefCountChange,
) -> (Map<CellId, u32>, Set<CellId>) {
    match c {
        RefCountChange::Increase(id) => (
            counts.insert(id, (counts[id] + 1) as u32),
            freed.remove(id),
        ),
        RefCountChange::Decrease(id) => {
            let n = (counts[id] - 1) as u32;
            (counts.insert(id, n), if n == 0 {
                freed.insert(id)
            } else {
                freed
            })
        },
    }
}

/// The counts and the freed assets after the changes, in order.
pub open spec fn ref_all(
    counts: Map<CellId, u32>,
    freed: Set<CellId>,
    cs: Seq<RefCountChange>,
) -> (Map<CellId, u32>, Set<CellId>)
    decreases cs.len(),
{
    if cs.len() == 0 {
        (counts, freed)
    } else {
        let p = ref_all(counts, freed, cs.drop_last());
        ref_step(p.0, p.1, cs.last())
    }
}

/// A change is about a counted asset, and keeps its count within `u32`.
pub open spec fn ref_step_valid(counts: Map<CellId, u32>, c: RefCountChange) -> bool {
    match c {
        RefCountChange::Increase(id) => counts.contains_key(id) && counts[id] < u32::MAX,
        RefCountChange::Decrease(id) => counts.contains_key(id) && counts[id] > 0,
    }
}

/// Each change, in order, is valid.
pub open spec fn ref_valid(counts: Map<CellId, u32>, cs: Seq<RefCountChange>) -> bool
    decreases cs.len(),
{
    if cs.len() == 0 {
        true
    } else {
        ref_valid(counts, cs.drop_last()) && ref_step_valid(
            ref_all(counts, Set::empty(), cs.drop_last()).0,
            cs.last(),
        )
    }
}

/// The assets that some change is about.
pub open spec fn touched(cs: Seq<RefCountChange>) -> Set<CellId> {
    Set::new(|id: CellId| exists|i: int| 0 <= i < cs.len() && change_id(#[trigger] cs[i]) == id)
}

/// Law: after valid changes, the freed assets are those that a change is
/// about and that no handle refers to any more.
pub proof fn lemma_freed_are_unreferenced(counts: Map<CellId, u32>, cs: Seq<RefCountChange>)
    requires
        ref_valid(counts, cs),
    ensures
        ref_all(counts, Set::empty(), cs).1 == touched(cs).filter(
            |id: CellId| ref_all(counts, Set::empty(), cs).0[id] == 0,
        ),
        forall|id: CellId|
            #[trigger] touched(cs).contains(id) ==> ref_all(counts, Set::empty(), cs).0.contains_key(
                id,
            ),
    decreases cs.len(),
{
    let r = ref_all(counts, Set::empty(), cs);
    if cs.len() == 0 {
        assert(touched(cs) =~= Set::empty());
        assert(r.1 =~= touched(cs).filter(|id: CellId| r.0[id] == 0));
    } else {
        let ds = cs.drop_last();
        let c = cs.last();
        lemma_freed_are_unreferenced(counts, ds);
        let p = ref_all(counts, Set::empty(), ds);
        assert forall|id: CellId| touched(cs).contains(id) <==> (touched(ds).contains(id) || id
            == change_id(c)) by {
            if touched(cs).contains(id) {
                let i = choose|i: int| 0 <= i < cs.len() && change_id(#[trigger] cs[i]) == id;
                if i < ds.len() {
                    assert(ds[i] == cs[i]);
                }
            }
            if touched(ds).contains(id) {
                let i = choose|i: int| 0 <= i < ds.len() && change_id(#[trigger] ds[i]) == id;
                assert(cs[i] == ds[i]);
            }
            if id == change_id(c) {
                assert(cs[cs.len() - 1] == c);
            }
        }
        assert(r.1 =~= touched(cs).filter(|id: CellId| r.0[id] == 0));
    }
}

/// What the caller does with a request to load an asset.
#[derive(Debug, Clone, Copy, PartialEq, Eq)]
pub enum LoadRequest {
    /// It is new: load it from its source.
    StartLoading,
    /// It is being loaded: answer when it is.
    WaitForLoad,
    /// It is there: answer with a handle now.
    AlreadyLoaded,
}

/// What the end of a load answers the requests that waited for it: the
/// asset is there, or loading it failed with an error.
#[derive(Debug, Clone)]
pub enum LoadedEvent {
    Success(CellId),
    Error(CellId, SourceError),
}

/// What a freed asset leaves: its id and, when it is to be saved (it was
/// loaded and changed), the cell with the source to save it to.
pub type FreedAsset = (CellId, Option<(Cell, AssetSource)>);

/// The status, source and asset of each cell in the book, and the number of
/// handles to each.
pub struct AssetBook {
    statuses: StatusMap,
    sources: SourceMap,
    assets: AssetMap,
    ref_counts: CountMap,
}

impl AssetBook {
    /// The source of each entry.
    pub closed spec fn sources(&self) -> Map<CellId, AssetSource> {
        source_contents(self.sources)
    }

    /// The cell of each entry that is loaded.
    pub closed spec fn assets(&self) -> Map<CellId, Cell> {
        asset_contents(self.assets)
    }

    /// Each entry has a source, and a cell exactly when it is loaded.
    pub open spec fn wf(&self) -> bool {
        &&& self.sources().dom() == self.statuses().dom()
        &&& forall|id: CellId|
            #[trigger] self.assets().contains_key(id) <==> (self.statuses().contains_key(id)
                && self.statuses()[id].load_status == AssetLoadStatus::Loaded)
    }

    /// The status of each asset.
    pub closed spec fn statuses(&self) -> Map<CellId, AssetStatus> {
        status_contents(self.statuses)
    }

    /// The number of handles to each asset.
    pub closed spec fn ref_counts(&self) -> Map<CellId, u32> {
        count_contents(self.ref_counts)
    }

    /// No asset.
    pub fn new() -> (b: Self)
        ensures
            b.wf(),
            b.statuses() == Map::<CellId, AssetStatus>::empty(),
            b.sources() == Map::<CellId, AssetSource>::empty(),
            b.assets() == Map::<CellId, Cell>::empty(),
            b.ref_counts() == Map::<CellId, u32>::empty(),
    {
        let b = AssetBook {
            statuses: status_new(),
            sources: source_new(),
            assets: asset_new(),
            ref_counts: count_new(),
        };
        proof {
            assert(b.sources().dom() =~= b.statuses().dom());
        }
        b
    }

    /// The source of an asset, if the book has it.
    pub fn source(&self, id: &CellId) -> (r: Option<&AssetSource>)
        ensures
            self.sources().contains_key(*id) ==> r == Some(&self.sources()[*id]),
            !self.sources().contains_key(*id) ==> r is None,
    {
        source_get(&self.sources, id)
    }

    /// The cell of an asset, if it is loaded.
    pub fn asset(&self, id: &CellId) -> (r: Option<&Cell>)
        ensures
            self.assets().contains_key(*id) ==> r == Some(&self.assets()[*id]),
            !self.assets().contains_key(*id) ==> r is None,
    {
        asset_get(&self.assets, id)
    }

    /// The status of an asset, if the book has it.
    pub fn status(&self, id: &CellId) -> (r: Option<AssetStatus>)
        ensures
            self.statuses().contains_key(*id) ==> r == Some(self.statuses()[*id]),
            !self.statuses().contains_key(*id) ==> r is None,
    {
        status_get(&self.statuses, id)
    }

    /// The number of handles to an asset, if it is counted.
    pub fn ref_count(&self, id: &CellId) -> (r: Option<u32>)
        ensures
            self.ref_counts().contains_key(*id) ==> r == Some(self.ref_counts()[*id]),
            !self.ref_counts().contains_key(*id) ==> r is None,
    {
        count_get(&self.ref_counts, id)
    }

    /// Decides a request to load an asset from `source`: a new one is entered
    /// as loading and unchanged, with that source, which the one load started
    /// for it reads (see `source`); a known one keeps its entry and is waited
    /// for, or is there.
    pub fn request_load(&mut self, id: CellId, source: AssetSource) -> (r: LoadRequest)
        requires
            old(self).wf(),
        ensures
            final(self).wf(),
            final(self).ref_counts() == old(self).ref_counts(),
            final(self).assets() == old(self).assets(),
            !old(self).statuses().contains_key(id) ==> r == LoadRequest::StartLoading
                && final(self).statuses() == old(self).statuses().insert(
                id,
                AssetStatus {
                    load_status: AssetLoadStatus::Loading,
                    change_status: AssetChangeStatus::UnChanged,
                },
            ) && final(self).sources() == old(self).sources().insert(id, source),
            old(self).statuses().contains_key(id) ==> final(self).statuses() == old(
                self,
            ).statuses() && final(self).sources() == old(self).sources(),
            old(self).statuses().contains_key(id) && old(self).statuses()[id].load_status
                == AssetLoadStatus::Loading ==> r == LoadRequest::WaitForLoad,
            old(self).statuses().contains_key(id) && old(self).statuses()[id].load_status
                == AssetLoadStatus::Loaded ==> r == LoadRequest::AlreadyLoaded,
    {
        match status_get(&self.statuses, &id) {
            Some(status) => match status.load_status {
                AssetLoadStatus::Loading => LoadRequest::WaitForLoad,
                AssetLoadStatus::Loaded => LoadRequest::AlreadyLoaded,
            },
            None => {
                status_insert(
                    &mut self.statuses,
                    id,
                    AssetStatus {
                        load_status: AssetLoadStatus::Loading,
                        change_status: AssetChangeStatus::UnChanged,
                    },
                );
                source_insert(&mut self.sources, id, source);
                proof {
                    assert(self.sources().dom() =~= self.statuses().dom());
                    assert forall|k: CellId| #[trigger] self.assets().contains_key(k) <==> (
                    self.statuses().contains_key(k) && self.statuses()[k].load_status
                        == AssetLoadStatus::Loaded) by {
                        assert(old(self).assets().contains_key(k) <==> (old(
                            self,
                        ).statuses().contains_key(k) && old(self).statuses()[k].load_status
                            == AssetLoadStatus::Loaded));
                    }
                }
                LoadRequest::StartLoading
            },
        }
    }

    /// Records that loading an asset ended with `result`: a loaded cell is
    /// stored and there, with no handle counted yet; a failed load takes the
    /// entry out of the book. Returns what every request that waited for the
    /// load is answered: success, or the error.
    pub fn finish_load(&mut self, id: CellId, result: Result<Cell, SourceError>) -> (e: LoadedEvent)
        requires
            old(self).wf(),
            old(self).statuses().contains_key(id),
        ensures
            final(self).wf(),
            result is Ok ==> final(self).statuses() == old(self).statuses().insert(
                id,
                AssetStatus {
                    load_status: AssetLoadStatus::Loaded,
                    change_status: old(self).statuses()[id].change_status,
                },
            ) && final(self).ref_counts() == old(self).ref_counts().insert(id, 0)
                && final(self).sources() == old(self).sources(),
            result matches Ok(c) ==> final(self).assets() == old(self).assets().insert(id, c)
                && e == LoadedEvent::Success(id),
            result is Err ==> final(self).statuses() == old(self).statuses().remove(id)
                && final(self).sources() == old(self).sources().remove(id)
                && final(self).assets() == old(self).assets().remove(id)
                && final(self).ref_counts() == old(self).ref_counts(),
            result matches Err(err) ==> e == LoadedEvent::Error(id, err),
    {
        match result {
            Ok(cell) => {
                match status_get(&self.statuses, &id) {
                    Some(status) => {
                        status_insert(
                            &mut self.statuses,
                            id,
                            AssetStatus {
                                load_status: AssetLoadStatus::Loaded,
                                change_status: status.change_status,
                            },
                        );
                    },
                    None => {},
                }
                asset_insert(&mut self.assets, id, cell);
                count_insert(&mut self.ref_counts, id, 0);
                proof {
                    assert(self.sources().dom() =~= self.statuses().dom());
                    assert forall|k: CellId| #[trigger] self.assets().contains_key(k) <==> (
                    self.statuses().contains_key(k) && self.statuses()[k].load_status
                        == AssetLoadStatus::Loaded) by {
                        assert(old(self).assets().contains_key(k) <==> (old(
                            self,
                        ).statuses().contains_key(k) && old(self).statuses()[k].load_status
                            == AssetLoadStatus::Loaded));
                    }
                }
                LoadedEvent::Success(id)
            },
            Err(err) => {
                status_remove(&mut self.statuses, &id);
                source_remove(&mut self.sources, &id);
                asset_remove(&mut self.assets, &id);
                proof {
                    assert(self.sources().dom() =~= self.statuses().dom());
                    assert forall|k: CellId| #[trigger] self.assets().contains_key(k) <==> (
                    self.statuses().contains_key(k) && self.statuses()[k].load_status
                        == AssetLoadStatus::Loaded) by {
                        assert(old(self).assets().contains_key(k) <==> (old(
                            self,
                        ).statuses().contains_key(k) && old(self).statuses()[k].load_status
                            == AssetLoadStatus::Loaded));
                    }
                }
                LoadedEvent::Error(id, err)
            },
        }
    }

    /// Enters a cell made by the caller, with the source to save it to: it is
    /// there and changed, and its count is kept, or starts at zero.
    pub fn insert(&mut self, id: CellId, asset: Cell, source: AssetSource)
        requires
            old(self).wf(),
        ensures
            final(self).wf(),
            final(self).sources() == old(self).sources().insert(id, source),
            final(self).assets() == old(self).assets().insert(id, asset),
            final(self).statuses() == old(self).statuses().insert(
                id,
                AssetStatus {
                    load_status: AssetLoadStatus::Loaded,
                    change_status: AssetChangeStatus::Changed,
                },
            ),
            old(self).ref_counts().contains_key(id) ==> final(self).ref_counts() == old(
                self,
            ).ref_counts(),
            !old(self).ref_counts().contains_key(id) ==> final(self).ref_counts() == old(
                self,
            ).ref_counts().insert(id, 0),
    {
        status_insert(
            &mut self.statuses,
            id,
            AssetStatus {
                load_status: AssetLoadStatus::Loaded,
                change_status: AssetChangeStatus::Changed,
            },
        );
        source_insert(&mut self.sources, id, source);
        asset_insert(&mut self.assets, id, asset);
        if count_get(&self.ref_counts, &id).is_none() {
            count_insert(&mut self.ref_counts, id, 0);
        }
        proof {
            assert(self.sources().dom() =~= self.statuses().dom());
            assert forall|k: CellId| #[trigger] self.assets().contains_key(k) <==> (
            self.statuses().contains_key(k) && self.statuses()[k].load_status
                == AssetLoadStatus::Loaded) by {
                assert(old(self).assets().contains_key(k) <==> (old(self).statuses().contains_key(k)
                    && old(self).statuses()[k].load_status == AssetLoadStatus::Loaded));
            }
        }
    }

    /// Records that an asset was changed through a handle.
    pub fn mark_changed(&mut self, id: CellId)
        requires
            old(self).wf(),
            old(self).statuses().contains_key(id),
        ensures
            final(self).wf(),
            final(self).sources() == old(self).sources(),
            final(self).assets() == old(self).assets(),
            final(self).statuses() == old(self).statuses().insert(
                id,
                AssetStatus {
                    load_status: old(self).statuses()[id].load_status,
                    change_status: AssetChangeStatus::Changed,
                },
            ),
            final(self).ref_counts() == old(self).ref_counts(),
    {
        match status_get(&self.statuses, &id) {
            Some(status) => {
                status_insert(
                    &mut self.statuses,
                    id,
                    AssetStatus {
                        load_status: status.load_status,
                        change_status: AssetChangeStatus::Changed,
                    },
                );
            },
            None => {},
        }
        proof {
            assert(self.sources().dom() =~= self.statuses().dom());
            assert forall|k: CellId| #[trigger] self.assets().contains_key(k) <==> (
            self.statuses().contains_key(k) && self.statuses()[k].load_status
                == AssetLoadStatus::Loaded) by {
                assert(old(self).assets().contains_key(k) <==> (old(self).statuses().contains_key(k)
                    && old(self).statuses()[k].load_status == AssetLoadStatus::Loaded));
            }
        }
    }

    /// Applies a batch of handle changes, in order, and takes the assets
    /// that end up with no handle out of the book. Returns each of them once;
    /// one that is to be saved (it was loaded and changed) comes with its cell
    /// and its source.
    pub fn release(&mut self, changes: &Vec<RefCountChange>) -> (freed: Vec<FreedAsset>)
        requires
            old(self).wf(),
            ref_valid(old(self).ref_counts(), changes@),
            ref_all(old(self).ref_counts(), Set::empty(), changes@).1.subset_of(
                old(self).statuses().dom(),
            ),
        ensures
            final(self).wf(),
            final(self).ref_counts() == ref_all(old(self).ref_counts(), Set::empty(), changes@).0,
            final(self).statuses() == old(self).statuses().remove_keys(
                ref_all(old(self).ref_counts(), Set::empty(), changes@).1,
            ),
            final(self).sources() == old(self).sources().remove_keys(
                ref_all(old(self).ref_counts(), Set::empty(), changes@).1,
            ),
            final(self).assets() == old(self).assets().remove_keys(
                ref_all(old(self).ref_counts(), Set::empty(), changes@).1,
            ),
            freed@.map_values(|f: FreedAsset| f.0).no_duplicates(),
            freed@.map_values(|f: FreedAsset| f.0).to_set() == ref_all(
                old(self).ref_counts(),
                Set::empty(),
                changes@,
            ).1,
            forall|i: int|
                0 <= i < freed@.len() ==> ((#[trigger] freed@[i]).1 is Some <==> (old(
                    self,
                ).statuses()[freed@[i].0].load_status == AssetLoadStatus::Loaded && old(
                    self,
                ).statuses()[freed@[i].0].change_status == AssetChangeStatus::Changed)),
            forall|i: int|
                0 <= i < freed@.len() ==> ((#[trigger] freed@[i]).1 matches Some(p) ==> p.0 == old(
                    self,
                ).assets()[freed@[i].0] && p.1 == old(self).sources()[freed@[i].0]),
    {
        let ghost counts0 = self.ref_counts();
        let ghost statuses0 = self.statuses();
        let ghost sources0 = self.sources();
        let ghost assets0 = self.assets();
        let mut freed_set = freed_new();
        let mut i: usize = 0;
        while i < changes.len()
            invariant
                i <= changes.len(),
                ref_valid(counts0, changes@),
                self.statuses() == statuses0,
                self.sources() == sources0,
                self.assets() == assets0,
                ref_all(counts0, Set::empty(), changes@).1.subset_of(statuses0.dom()),
                (self.ref_counts(), freed_contents(freed_set)) == ref_all(
                    counts0,
                    Set::empty(),
                    changes@.take(i as int),
                ),
            decreases changes.len() - i,
        {
            proof {
                let t = changes@.take(i + 1);
                assert(t.drop_last() =~= changes@.take(i as int));
                lemma_ref_valid_prefix(counts0, changes@, i + 1);
            }
            match changes[i] {
                RefCountChange::Increase(id) => {
                    match count_get(&self.ref_counts, &id) {
                        Some(n) => {
                            count_insert(&mut self.ref_counts, id, n + 1);
                        },
                        None => {},
                    }
                    freed_remove(&mut freed_set, &id);
                },
                RefCountChange::Decrease(id) => {
                    match count_get(&self.ref_counts, &id) {
                        Some(n) => {
                            count_insert(&mut self.ref_counts, id, n - 1);
                            if n - 1 == 0 {
                                freed_insert(&mut freed_set, id);
                            }
                        },
                        None => {},
                    }
                },
            }
            i = i + 1;
        }
        proof {
            assert(changes@.take(changes@.len() as int) =~= changes@);
        }
        let ghost gone = freed_contents(freed_set);
        let ghost counts1 = self.ref_counts();
        let ids = freed_into_vec(freed_set);
        let mut freed: Vec<FreedAsset> = Vec::new();
        let mut j: usize = 0;
        while j < ids.len()
            invariant
                j <= ids.len(),
                ids@.no_duplicates(),
                ids@.to_set() == gone,
                gone.subset_of(statuses0.dom()),
                sources0.dom() == statuses0.dom(),
                forall|id: CellId|
                    #[trigger] assets0.contains_key(id) <==> (statuses0.contains_key(id)
                        && statuses0[id].load_status == AssetLoadStatus::Loaded),
                self.ref_counts() == counts1,
                freed@.len() == j,
                forall|k: int| 0 <= k < j ==> (#[trigger] freed@[k]).0 == ids@[k],
                forall|k: int|
                    0 <= k < j ==> ((#[trigger] freed@[k]).1 is Some <==> (
                    statuses0[ids@[k]].load_status == AssetLoadStatus::Loaded
                        && statuses0[ids@[k]].change_status == AssetChangeStatus::Changed)),
                forall|k: int|
                    0 <= k < j ==> ((#[trigger] freed@[k]).1 matches Some(p) ==> p.0
                        == assets0[ids@[k]] && p.1 == sources0[ids@[k]]),
                self.statuses() == statuses0.remove_keys(ids@.take(j as int).to_set()),
                self.sources() == sources0.remove_keys(ids@.take(j as int).to_set()),
                self.assets() == assets0.remove_keys(ids@.take(j as int).to_set()),
            decreases ids.len() - j,
        {
            let id = ids[j];
            proof {
                assert(ids@.to_set().contains(ids@[j as int]));
                assert(!ids@.take(j as int).contains(id)) by {
                    if ids@.take(j as int).contains(id) {
                        let k = choose|k: int| 0 <= k < j && ids@.take(j as int)[k] == id;
                        assert(ids@[k] == ids@[j as int]);
                    }
                }
                assert(ids@.take(j + 1).to_set() =~= ids@.take(j as int).to_set().insert(id)) by {
                    assert(ids@.take(j + 1) =~= ids@.take(j as int).push(id));
                    lemma_push_to_set(ids@.take(j as int), id);
                }
            }
            let status = status_remove(&mut self.statuses, &id);
            let source = source_remove(&mut self.sources, &id);
            let asset = asset_remove(&mut self.assets, &id);
            let to_save = match status {
                Some(st) => match (st.load_status, st.change_status) {
                    (AssetLoadStatus::Loaded, AssetChangeStatus::Changed) => true,
                    _ => false,
                },
                None => false,
            };
            let kept: Option<(Cell, AssetSource)> = if to_save {
                match (asset, source) {
                    (Some(a), Some(src)) => Some((a, src)),
                    _ => None,
                }
            } else {
                None
            };
            freed.push((id, kept));
            proof {
                assert(self.statuses() =~= statuses0.remove_keys(ids@.take(j + 1).to_set()));
                assert(self.sources() =~= sources0.remove_keys(ids@.take(j + 1).to_set()));
                assert(self.assets() =~= assets0.remove_keys(ids@.take(j + 1).to_set()));
            }
            j = j + 1;
        }
        proof {
            assert(ids@.take(ids@.len() as int) =~= ids@);
            assert(freed@.map_values(|f: FreedAsset| f.0) =~= ids@);
            assert(self.sources().dom() =~= self.statuses().dom());
        }
        freed
    }
}

/// Valid changes are valid in each prefix, and the next one is valid.
proof fn lemma_ref_valid_prefix(counts: Map<CellId, u32>, cs: Seq<RefCountChange>, n: int)
    requires
        ref_valid(counts, cs),
        0 < n <= cs.len(),
    ensures
        ref_valid(counts, cs.take(n)),
        ref_step_valid(ref_all(counts, Set::empty(), cs.take(n - 1)).0, cs[n - 1]),
    decreases cs.len() - n,
{
    if n < cs.len() {
        assert(cs.drop_last().take(n) =~= cs.take(n));
        assert(cs.drop_last().take(n - 1) =~= cs.take(n - 1));
        lemma_ref_valid_prefix(counts, cs.drop_last(), n);
    } else {
        assert(cs.take(n) =~= cs);
        assert(cs.take(n - 1) =~= cs.drop_last());
    }
}

} // verus!
