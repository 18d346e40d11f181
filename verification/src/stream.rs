//! Which cells to draw, to load and to forget as the camera moves.
//!
//! The streamer keeps three things: the cells on screen with the entities
//! that draw them, the cells known to be missing (an LRU cache of bounded
//! size), and the cells to load: those waiting, ordered by hierarchy and
//! distance, and those whose loading has been asked for, at most
//! `MAX_LOADING_SIZE` of them. The decisions below are functions from that
//! state and an event to the next state and what to do; the caller draws,
//! loads and despawns.
use vstd::prelude::*;

use crate::cell::CellId;
use crate::cellsets::{
    loaded_clear, loaded_contents, loaded_get, loaded_insert, loaded_into_entries, loaded_len, loaded_new,
    loaded_remove, loading_clear, loading_contains, loading_contents, loading_insert, loading_len,
    loading_remove, loading_with_capacity, lru_put, lru_valid, missing_capacity, missing_get,
    missing_len, missing_order, missing_purge, missing_put, missing_remove, missing_with_capacity,
    move_to_front, other_than, LoadedMap, LoadingSet, MissingCache,
};
use crate::fxmap::{lemma_push_to_set, lists_map};
use crate::queue::{has_id, lemma_queue_has_id, lemma_queue_insert_contains, strictly_sorted, queue_insert, queue_remove, CellToLoad, LoadQueue};

verus! {

/// At most this many cells are loading at once.
pub const MAX_LOADING_SIZE: usize = 10;

/// The number of missing cells remembered.
pub const MISSING_CELLS_CAPACITY: usize = 10000;

/// The cells on screen, each with the entity (as its bits) that draws it.
pub struct LoadedCells {
    cells: LoadedMap,
}

impl View for LoadedCells {
    type V = Map<CellId, u64>;

    closed spec fn view(&self) -> Map<CellId, u64> {
        loaded_contents(self.cells)
    }
}

impl LoadedCells {
    /// No cell on screen.
    pub fn new() -> (l: Self)
        ensures
            l@ == Map::<CellId, u64>::empty(),
    {
        LoadedCells { cells: loaded_new() }
    }

    /// The number of cells on screen.
    pub fn len(&self) -> (n: usize)
        ensures
            n == self@.len(),
    {
        loaded_len(&self.cells)
    }

    /// The entity that draws a cell, if it is on screen.
    pub fn get(&self, id: &CellId) -> (r: Option<u64>)
        ensures
            self@.contains_key(*id) ==> r == Some(self@[*id]),
            !self@.contains_key(*id) ==> r is None,
    {
        loaded_get(&self.cells, id)
    }

    /// Takes a cell off the screen; returns the entity that drew it.
    pub fn remove(&mut self, id: &CellId) -> (r: Option<u64>)
        ensures
            final(self)@ == old(self)@.remove(*id),
            old(self)@.contains_key(*id) ==> r == Some(old(self)@[*id]),
            !old(self)@.contains_key(*id) ==> r is None,
    {
        loaded_remove(&mut self.cells, id)
    }

    /// Takes every cell off the screen.
    pub fn clear(&mut self)
        ensures
            final(self)@ == Map::<CellId, u64>::empty(),
    {
        loaded_clear(&mut self.cells);
    }

    /// Records the entity that draws a cell; returns the entity it replaces.
    pub fn insert(&mut self, id: CellId, entity: u64) -> (r: Option<u64>)
        ensures
            final(self)@ == old(self)@.insert(id, entity),
            old(self)@.contains_key(id) ==> r == Some(old(self)@[id]),
            !old(self)@.contains_key(id) ==> r is None,
    {
        loaded_insert(&mut self.cells, id, entity)
    }
}

/// The cells known to be missing, the most recently used first.
pub struct MissingCells {
    cache: MissingCache,
}

impl View for MissingCells {
    type V = Seq<CellId>;

    closed spec fn view(&self) -> Seq<CellId> {
        missing_order(self.cache)
    }
}

impl MissingCells {
    /// The number of cells it can hold.
    pub closed spec fn capacity(&self) -> nat {
        missing_capacity(self.cache)
    }

    /// No cell twice, at most `MISSING_CELLS_CAPACITY` of them.
    pub open spec fn wf(&self) -> bool {
        &&& self.capacity() == MISSING_CELLS_CAPACITY
        &&& lru_valid(self@, self.capacity())
    }

    /// No cell known to be missing.
    pub fn new() -> (m: Self)
        ensures
            m.wf(),
            m@ == Seq::<CellId>::empty(),
    {
        match missing_with_capacity(MISSING_CELLS_CAPACITY) {
            Ok(cache) => {
                proof {
                    assert(missing_order(cache).no_duplicates());
                }
                MissingCells { cache }
            },
            Err(_) => vstd::pervasive::unreached(),
        }
    }

    /// The number of cells known to be missing.
    pub fn len(&self) -> (n: usize)
        ensures
            n == self@.len(),
    {
        missing_len(&self.cache)
    }

    /// Whether the cell is known to be missing; if so it becomes the most
    /// recently used.
    pub fn touch(&mut self, id: &CellId) -> (r: bool)
        requires
            old(self).wf(),
        ensures
            final(self).wf(),
            r == old(self)@.contains(*id),
            r ==> final(self)@ == move_to_front(old(self)@, *id),
            !r ==> final(self)@ == old(self)@,
    {
        missing_get(&mut self.cache, id).is_some()
    }

    /// Forgets that a cell is missing.
    pub fn remove(&mut self, id: &CellId)
        requires
            old(self).wf(),
        ensures
            final(self).wf(),
            final(self)@ == old(self)@.filter(other_than(*id)),
    {
        missing_remove(&mut self.cache, id);
    }

    /// Forgets every missing cell.
    pub fn purge(&mut self)
        requires
            old(self).wf(),
        ensures
            final(self).wf(),
            final(self)@ == Seq::<CellId>::empty(),
    {
        missing_purge(&mut self.cache);
    }

    /// Records a cell as missing.
    pub fn put(&mut self, id: CellId)
        requires
            old(self).wf(),
        ensures
            final(self).wf(),
            final(self)@ == lru_put(old(self)@, id, MISSING_CELLS_CAPACITY as nat),
    {
        missing_put(&mut self.cache, id);
    }
}

/// The cells to load: those waiting, in order, and those whose loading has
/// been asked for.
pub struct LoadingCells {
    should_load: LoadQueue,
    loading: LoadingSet,
}

impl LoadingCells {
    /// The cells waiting to be loaded, in the order they will be.
    pub closed spec fn waiting(&self) -> Seq<CellToLoad> {
        self.should_load@
    }

    /// The cells whose loading has been asked for.
    pub closed spec fn loading(&self) -> Set<CellId> {
        loading_contents(self.loading)
    }

    /// The waiting cells are ordered and the loading ones are few.
    pub closed spec fn wf(&self) -> bool {
        &&& self.should_load.wf()
        &&& self.loading().finite()
        &&& self.loading().len() <= MAX_LOADING_SIZE
    }

    /// No cell to load.
    pub fn new() -> (l: Self)
        ensures
            l.wf(),
            l.waiting() == Seq::<CellToLoad>::empty(),
            l.loading() == Set::<CellId>::empty(),
    {
        LoadingCells { should_load: LoadQueue::new(), loading: loading_with_capacity(MAX_LOADING_SIZE) }
    }

    /// The number of cells waiting to be loaded.
    pub fn waiting_len(&self) -> (n: usize)
        ensures
            n == self.waiting().len(),
    {
        self.should_load.len()
    }

    /// Whether the loading of a cell has been asked for.
    pub fn is_loading(&self, id: &CellId) -> (r: bool)
        ensures
            r == self.loading().contains(*id),
    {
        loading_contains(&self.loading, id)
    }

    /// The number of cells being loaded.
    pub fn loading_len(&self) -> (n: usize)
        requires
            self.wf(),
        ensures
            n == self.loading().len(),
    {
        loading_len(&self.loading)
    }
}

/// A cell whose box lies in the streaming frustum's bounds: whether the
/// frustum holds it, and its priority (its squared distance to the camera).
#[derive(Debug, Clone, Copy)]
pub struct Candidate {
    pub id: CellId,
    pub in_view: bool,
    pub priority: u32,
}

/// The candidate as a cell to load.
pub open spec fn to_load(c: Candidate) -> CellToLoad {
    CellToLoad { id: c.id, priority: c.priority }
}

/// The state of an update in progress: the loaded cells not met yet and
/// those kept, the missing cells, the waiting cells not met yet and those
/// that stay waiting, and the loading cells.
pub struct UpdateModel {
    pub loaded: Map<CellId, u64>,
    pub kept: Map<CellId, u64>,
    pub missing: Seq<CellId>,
    pub waiting: Seq<CellToLoad>,
    pub next_waiting: Seq<CellToLoad>,
    pub loading: Set<CellId>,
}

/// The state before an update.
pub open spec fn update_start(
    loaded: Map<CellId, u64>,
    missing: Seq<CellId>,
    waiting: Seq<CellToLoad>,
    loading: Set<CellId>,
) -> UpdateModel {
    UpdateModel {
        loaded,
        kept: Map::empty(),
        missing,
        waiting,
        next_waiting: Seq::empty(),
        loading,
    }
}

/// One candidate met. A missing cell is only marked as recently used. A cell
/// in view that is on screen stays on screen. Any other cell in view stays
/// waiting, or starts to wait unless it is loading.
pub open spec fn update_step(m: UpdateModel, c: Candidate) -> UpdateModel {
    if m.missing.contains(c.id) {
        UpdateModel { missing: move_to_front(m.missing, c.id), ..m }
    } else if !c.in_view {
        m
    } else if m.loaded.contains_key(c.id) {
        UpdateModel {
            loaded: m.loaded.remove(c.id),
            kept: m.kept.insert(c.id, m.loaded[c.id]),
            ..m
        }
    } else if has_id(m.waiting, c.id) || !m.loading.contains(c.id) {
        UpdateModel {
            waiting: queue_remove(m.waiting, c.id),
            next_waiting: queue_insert(m.next_waiting, to_load(c)),
            ..m
        }
    } else {
        m
    }
}

/// The candidates met in order.
pub open spec fn update_all(m: UpdateModel, cs: Seq<Candidate>) -> UpdateModel
    decreases cs.len(),
{
    if cs.len() == 0 {
        m
    } else {
        update_step(update_all(m, cs.drop_last()), cs.last())
    }
}

/// The candidates that end up on screen: in view and not missing.
pub open spec fn shown(missing: Seq<CellId>, cs: Seq<Candidate>) -> Set<CellId> {
    Set::new(
        |id: CellId|
            exists|i: int|
                0 <= i < cs.len() && (#[trigger] cs[i]).id == id && cs[i].in_view
                    && !missing.contains(id),
    )
}

/// Moving a key to the front keeps the keys.
pub proof fn lemma_move_to_front_contains(s: Seq<CellId>, k: CellId, x: CellId)
    requires
        s.contains(k),
    ensures
        move_to_front(s, k).contains(x) == s.contains(x),
{
    let f = other_than(k);
    let t = move_to_front(s, k);
    assert(t[0] == k);
    if s.contains(x) {
        if x != k {
            let i = choose|i: int| 0 <= i < s.len() && s[i] == x;
            s.lemma_filter_contains(f, i);
            let j = choose|j: int| 0 <= j < s.filter(f).len() && s.filter(f)[j] == x;
            assert(t[j + 1] == x);
        }
    }
    if t.contains(x) && x != k {
        let j = choose|j: int| 0 <= j < t.len() && t[j] == x;
        assert(s.filter(f)[j - 1] == x);
        s.lemma_filter_contains_rev(f, x);
    }
}

/// An update does not change which cells are missing, nor the loading ones.
pub proof fn lemma_update_keeps_missing_and_loading(m: UpdateModel, cs: Seq<Candidate>, x: CellId)
    ensures
        update_all(m, cs).missing.contains(x) == m.missing.contains(x),
        update_all(m, cs).loading == m.loading,
    decreases cs.len(),
{
    if cs.len() > 0 {
        lemma_update_keeps_missing_and_loading(m, cs.drop_last(), x);
        let p = update_all(m, cs.drop_last());
        if p.missing.contains(cs.last().id) {
            lemma_move_to_front_contains(p.missing, cs.last().id, x);
        }
    }
}

/// Law: an update keeps on screen exactly the cells on screen that are
/// shown, and despawns the others.
pub proof fn lemma_update_keeps_shown(
    loaded: Map<CellId, u64>,
    missing: Seq<CellId>,
    waiting: Seq<CellToLoad>,
    loading: Set<CellId>,
    cs: Seq<Candidate>,
)
    ensures
        update_all(update_start(loaded, missing, waiting, loading), cs).kept == loaded.restrict(
            shown(missing, cs),
        ),
        update_all(update_start(loaded, missing, waiting, loading), cs).loaded
            == loaded.remove_keys(shown(missing, cs)),
    decreases cs.len(),
{
    let m0 = update_start(loaded, missing, waiting, loading);
    if cs.len() == 0 {
        assert(shown(missing, cs) =~= Set::empty());
        assert(loaded.restrict(Set::empty()) =~= Map::empty());
        assert(loaded.remove_keys(Set::empty()) =~= loaded);
    } else {
        let ds = cs.drop_last();
        let c = cs.last();
        lemma_update_keeps_shown(loaded, missing, waiting, loading, ds);
        lemma_update_keeps_missing_and_loading(m0, ds, c.id);
        let p = update_all(m0, ds);
        let q = update_all(m0, cs);
        let s0 = shown(missing, ds);
        let s1 = shown(missing, cs);
        assert forall|id: CellId| s1.contains(id) <==> (s0.contains(id) || (id == c.id
            && c.in_view && !missing.contains(id))) by {
            if s1.contains(id) {
                let i = choose|i: int|
                    0 <= i < cs.len() && (#[trigger] cs[i]).id == id && cs[i].in_view
                        && !missing.contains(id);
                if i < ds.len() {
                    assert(ds[i] == cs[i]);
                }
            }
            if s0.contains(id) {
                let i = choose|i: int|
                    0 <= i < ds.len() && (#[trigger] ds[i]).id == id && ds[i].in_view
                        && !missing.contains(id);
                assert(cs[i] == ds[i]);
            }
            if id == c.id && c.in_view && !missing.contains(id) {
                assert(cs[cs.len() - 1] == c);
            }
        }
        assert(q.kept =~= loaded.restrict(s1));
        assert(q.loaded =~= loaded.remove_keys(s1));
    }
}

/// No two candidates are about the same cell, as when each hierarchy's
/// frustum lists each of its cells once.
pub open spec fn distinct_candidates(cs: Seq<Candidate>) -> bool {
    forall|i: int, j: int| 0 <= i < j < cs.len() ==> (#[trigger] cs[i]).id != (#[trigger] cs[j]).id
}

/// Some candidate is about the cell `id`.
pub open spec fn is_candidate(cs: Seq<Candidate>, id: CellId) -> bool {
    exists|i: int| 0 <= i < cs.len() && (#[trigger] cs[i]).id == id
}

/// Some candidate about the cell `id` is in view.
pub open spec fn in_view_candidate(cs: Seq<Candidate>, id: CellId) -> bool {
    exists|i: int| 0 <= i < cs.len() && (#[trigger] cs[i]).id == id && cs[i].in_view
}

/// Law: after an update exactly these cells wait to be loaded: candidates in
/// view that are not known to be missing, not on screen, and either waited
/// before or were not loading. So no cell on screen waits, nor any cell out
/// of view. A cell that is no candidate waits afterwards no more than before
/// in the queue being rebuilt. (Candidates are about distinct cells.)
pub proof fn lemma_update_waiting(
    loaded: Map<CellId, u64>,
    missing: Seq<CellId>,
    waiting: Seq<CellToLoad>,
    loading: Set<CellId>,
    cs: Seq<Candidate>,
    id: CellId,
)
    requires
        distinct_candidates(cs),
    ensures
        has_id(update_all(update_start(loaded, missing, waiting, loading), cs).next_waiting, id) == (
        in_view_candidate(cs, id) && !missing.contains(id) && !loaded.contains_key(id) && (has_id(
            waiting,
            id,
        ) || !loading.contains(id))),
        !is_candidate(cs, id) ==> has_id(
            update_all(update_start(loaded, missing, waiting, loading), cs).waiting,
            id,
        ) == has_id(waiting, id),
    decreases cs.len(),
{
    let m0 = update_start(loaded, missing, waiting, loading);
    if cs.len() == 0 {
        assert(!has_id(Seq::<CellToLoad>::empty(), id));
    } else {
        let ds = cs.drop_last();
        let c = cs.last();
        assert(cs[cs.len() - 1] == c);
        assert(distinct_candidates(ds)) by {
            assert forall|i: int, j: int| 0 <= i < j < ds.len() implies (#[trigger] ds[i]).id != (
            #[trigger] ds[j]).id by {
                assert(ds[i] == cs[i] && ds[j] == cs[j]);
            }
        }
        lemma_update_waiting(loaded, missing, waiting, loading, ds, id);
        lemma_update_keeps_missing_and_loading(m0, ds, c.id);
        lemma_update_keeps_shown(loaded, missing, waiting, loading, ds);
        let p = update_all(m0, ds);
        lemma_queue_has_id(p.next_waiting, to_load(c), c.id, id);
        lemma_queue_has_id(p.waiting, to_load(c), c.id, id);
        if is_candidate(ds, id) {
            let i = choose|i: int| 0 <= i < ds.len() && (#[trigger] ds[i]).id == id;
            assert(cs[i] == ds[i]);
        }
        if in_view_candidate(ds, id) {
            let i = choose|i: int| 0 <= i < ds.len() && (#[trigger] ds[i]).id == id && ds[i].in_view;
            assert(cs[i] == ds[i]);
        }
        if in_view_candidate(cs, id) && id != c.id {
            let i = choose|i: int| 0 <= i < cs.len() && (#[trigger] cs[i]).id == id && cs[i].in_view;
            assert(ds[i] == cs[i]);
        }
        if is_candidate(cs, id) && id != c.id {
            let i = choose|i: int| 0 <= i < cs.len() && (#[trigger] cs[i]).id == id;
            assert(ds[i] == cs[i]);
        }
        if id == c.id {
            assert(!is_candidate(ds, id)) by {
                if is_candidate(ds, id) {
                    let i = choose|i: int| 0 <= i < ds.len() && (#[trigger] ds[i]).id == id;
                    assert(cs[i].id != cs[cs.len() - 1].id);
                }
            }
            assert(!in_view_candidate(ds, id)) by {
                if in_view_candidate(ds, id) {
                    let i = choose|i: int| 0 <= i < ds.len() && (#[trigger] ds[i]).id == id && ds[i].in_view;
                    assert(cs[i].id != cs[cs.len() - 1].id);
                }
            }
            assert(!shown(missing, ds).contains(id)) by {
                if shown(missing, ds).contains(id) {
                    let i = choose|i: int|
                        0 <= i < ds.len() && (#[trigger] ds[i]).id == id && ds[i].in_view
                            && !missing.contains(id);
                    assert(in_view_candidate(ds, id));
                }
            }
            assert(p.loaded.contains_key(id) == loaded.contains_key(id));
            assert(in_view_candidate(cs, id) == c.in_view);
            assert(is_candidate(cs, id));
        }
    }
}

/// Law: every cell waiting after an update waits with the priority of a
/// candidate about it, as that candidate gives it.
pub proof fn lemma_update_waiting_entries(m: UpdateModel, cs: Seq<Candidate>, x: CellToLoad)
    requires
        m.next_waiting == Seq::<CellToLoad>::empty(),
    ensures
        update_all(m, cs).next_waiting.contains(x) ==> exists|i: int|
            0 <= i < cs.len() && x == to_load(#[trigger] cs[i]),
    decreases cs.len(),
{
    if cs.len() > 0 {
        let ds = cs.drop_last();
        let c = cs.last();
        lemma_update_waiting_entries(m, ds, x);
        let p = update_all(m, ds);
        lemma_queue_insert_contains(p.next_waiting, to_load(c), x);
        if p.next_waiting.contains(x) {
            let i = choose|i: int| 0 <= i < ds.len() && x == to_load(#[trigger] ds[i]);
            assert(cs[i] == ds[i]);
        }
        assert(cs[cs.len() - 1] == c);
    }
}

/// What the caller does with a cell that finished loading.
#[derive(Debug, Clone, Copy, PartialEq, Eq)]
pub enum Received {
    /// It is no longer wanted: drop it.
    NotNeeded,
    /// Spawn an entity that draws it, and record it with `LoadedCells::insert`.
    Spawn,
    /// It does not exist; it is now known to be missing.
    Missing,
    /// Loading it failed.
    Failed,
}

/// How loading a cell ended.
#[derive(Debug, Clone, Copy, PartialEq, Eq)]
pub enum LoadOutcome {
    Found,
    Missing,
    Failed,
}

/// Decides what to do with a cell that finished loading. A cell that is not
/// loading any more is not needed, and nothing changes; otherwise it stops
/// loading, and a missing one is remembered as missing.
pub fn receive_cell(
    missing: &mut MissingCells,
    loading: &mut LoadingCells,
    id: CellId,
    outcome: LoadOutcome,
) -> (r: Received)
    requires
        old(missing).wf(),
        old(loading).wf(),
    ensures
        final(missing).wf(),
        final(loading).wf(),
        final(loading).waiting() == old(loading).waiting(),
        final(loading).loading() == old(loading).loading().remove(id),
        !old(loading).loading().contains(id) ==> r == Received::NotNeeded && final(missing)@
            == old(missing)@,
        old(loading).loading().contains(id) && outcome == LoadOutcome::Found ==> r
            == Received::Spawn && final(missing)@ == old(missing)@,
        old(loading).loading().contains(id) && outcome == LoadOutcome::Missing ==> r
            == Received::Missing && final(missing)@ == lru_put(
            old(missing)@,
            id,
            MISSING_CELLS_CAPACITY as nat,
        ),
        old(loading).loading().contains(id) && outcome == LoadOutcome::Failed ==> r
            == Received::Failed && final(missing)@ == old(missing)@,
{
    if !loading_remove(&mut loading.loading, &id) {
        return Received::NotNeeded;
    }
    match outcome {
        LoadOutcome::Found => Received::Spawn,
        LoadOutcome::Missing => {
            missing.put(id);
            Received::Missing
        },
        LoadOutcome::Failed => Received::Failed,
    }
}

/// The streamer's state equals the model of an update in progress.
pub open spec fn at_model(
    m: UpdateModel,
    loaded: Map<CellId, u64>,
    kept: Map<CellId, u64>,
    missing: Seq<CellId>,
    waiting: Seq<CellToLoad>,
    next_waiting: Seq<CellToLoad>,
    loading: Set<CellId>,
) -> bool {
    &&& m.loaded == loaded
    &&& m.kept == kept
    &&& m.missing == missing
    &&& m.waiting == waiting
    &&& m.next_waiting == next_waiting
    &&& m.loading == loading
}

/// The model at the end of an update of the streamer's state.
pub open spec fn updated(
    loaded: LoadedCells,
    missing: MissingCells,
    loading: LoadingCells,
    cs: Seq<Candidate>,
) -> UpdateModel {
    update_all(update_start(loaded@, missing@, loading.waiting(), loading.loading()), cs)
}

/// Decides, after the streaming frustums changed, which cells stay on screen
/// and which wait to be loaded, meeting the candidates in order (see
/// `update_step`). Returns the cells on screen that are no longer shown, with
/// their entities, for the caller to despawn.
pub fn update_cells(
    loaded: &mut LoadedCells,
    missing: &mut MissingCells,
    loading: &mut LoadingCells,
    candidates: &Vec<Candidate>,
) -> (despawn: Vec<(CellId, u64)>)
    requires
        old(missing).wf(),
        old(loading).wf(),
    ensures
        final(missing).wf(),
        final(loading).wf(),
        final(loaded)@ == updated(*old(loaded), *old(missing), *old(loading), candidates@).kept,
        final(missing)@ == updated(*old(loaded), *old(missing), *old(loading), candidates@).missing,
        final(loading).waiting() == updated(
            *old(loaded),
            *old(missing),
            *old(loading),
            candidates@,
        ).next_waiting,
        final(loading).loading() == old(loading).loading(),
        lists_map(despawn@, updated(*old(loaded), *old(missing), *old(loading), candidates@).loaded),
        strictly_sorted(final(loading).waiting()),
        forall|k: int|
            0 <= k < final(loading).waiting().len() ==> exists|i: int|
                0 <= i < candidates@.len() && #[trigger] final(loading).waiting()[k] == to_load(
                    candidates@[i],
                ),
        distinct_candidates(candidates@) ==> forall|id: CellId|
            #[trigger] has_id(final(loading).waiting(), id) == (in_view_candidate(candidates@, id)
                && !old(missing)@.contains(id) && !old(loaded)@.contains_key(id) && (has_id(
                old(loading).waiting(),
                id,
            ) || !old(loading).loading().contains(id))),
{
    let ghost m0 = update_start(loaded@, missing@, loading.waiting(), loading.loading());
    let mut kept = loaded_new();
    let mut next = LoadQueue::new();
    let mut i: usize = 0;
    while i < candidates.len()
        invariant
            i <= candidates.len(),
            missing.wf(),
            loading.wf(),
            next.wf(),
            at_model(
                update_all(m0, candidates@.take(i as int)),
                loaded@,
                loaded_contents(kept),
                missing@,
                loading.waiting(),
                next@,
                loading.loading(),
            ),
            loading.loading() == m0.loading,
        decreases candidates.len() - i,
    {
        let c = candidates[i];
        proof {
            assert(candidates@.take(i + 1).drop_last() =~= candidates@.take(i as int));
            assert(candidates@.take(i + 1).last() == c);
            lemma_update_keeps_missing_and_loading(m0, candidates@.take(i + 1), c.id);
        }
        let ghost p = update_all(m0, candidates@.take(i as int));
        let ghost q = update_step(p, c);
        let is_missing = missing.touch(&c.id);
        if !is_missing && c.in_view {
            match loaded_remove(&mut loaded.cells, &c.id) {
                Some(entity) => {
                    loaded_insert(&mut kept, c.id, entity);
                },
                None => {
                    let to_load = CellToLoad { id: c.id, priority: c.priority };
                    let was_waiting = loading.should_load.remove(&to_load);
                    if was_waiting || !loading_contains(&loading.loading, &c.id) {
                        next.insert(to_load);
                    }
                },
            }
        }
        assert(q.loaded == loaded@);
        assert(q.kept == loaded_contents(kept));
        assert(q.missing == missing@);
        assert(q.waiting == loading.waiting());
        assert(q.next_waiting == next@);
        assert(q.loading == loading.loading());
        i = i + 1;
    }
    proof {
        assert(candidates@.take(candidates@.len() as int) =~= candidates@);
        lemma_update_keeps_missing_and_loading(m0, candidates@, arbitrary());
        assert forall|k: int| 0 <= k < next@.len() implies exists|i: int|
            0 <= i < candidates@.len() && #[trigger] next@[k] == to_load(candidates@[i]) by {
            lemma_update_waiting_entries(m0, candidates@, next@[k]);
            assert(next@.contains(next@[k]));
        }
        if distinct_candidates(candidates@) {
            assert forall|id: CellId| #[trigger] has_id(next@, id) == (in_view_candidate(
                candidates@,
                id,
            ) && !m0.missing.contains(id) && !m0.loaded.contains_key(id) && (has_id(m0.waiting, id)
                || !m0.loading.contains(id))) by {
                lemma_update_waiting(m0.loaded, m0.missing, m0.waiting, m0.loading, candidates@, id);
            }
        }
    }
    let mut gone = kept;
    std::mem::swap(&mut gone, &mut loaded.cells);
    loading.should_load = next;
    loaded_into_entries(gone)
}

/// The ids of cells to load, in order.
pub open spec fn load_ids(s: Seq<CellToLoad>) -> Seq<CellId> {
    s.map_values(|c: CellToLoad| c.id)
}

impl LoadingCells {
    /// How many waiting cells the next enqueue asks for: as many as there
    /// are free loading slots, or all of them.
    pub open spec fn to_enqueue(&self) -> int {
        let free = MAX_LOADING_SIZE - self.loading().len();
        if free < self.waiting().len() {
            free
        } else {
            self.waiting().len() as int
        }
    }
}

/// Asks for the loading of the first waiting cells, one per free loading
/// slot. Returns their ids, in order, for the caller to send to the loader.
pub fn enqueue_cells_to_load(loading: &mut LoadingCells) -> (sent: Vec<CellId>)
    requires
        old(loading).wf(),
    ensures
        final(loading).wf(),
        sent@ == load_ids(old(loading).waiting().take(old(loading).to_enqueue())),
        final(loading).waiting() == old(loading).waiting().skip(old(loading).to_enqueue()),
        final(loading).loading() == old(loading).loading().union(sent@.to_set()),
{
    let free = MAX_LOADING_SIZE - loading_len(&loading.loading);
    let ghost w0 = loading.waiting();
    let ghost l0 = loading.loading();
    let mut sent: Vec<CellId> = Vec::new();
    let mut n: usize = 0;
    while n < free
        invariant
            n <= free,
            free == MAX_LOADING_SIZE - l0.len(),
            l0.finite(),
            n <= w0.len(),
            loading.should_load.wf(),
            loading.waiting() == w0.skip(n as int),
            sent@ == load_ids(w0.take(n as int)),
            loading.loading() == l0.union(sent@.to_set()),
            loading.loading().finite(),
            loading.loading().len() <= l0.len() + n,
        ensures
            n <= free,
            n <= w0.len(),
            n == free || n == w0.len(),
            loading.should_load.wf(),
            loading.waiting() == w0.skip(n as int),
            sent@ == load_ids(w0.take(n as int)),
            loading.loading() == l0.union(sent@.to_set()),
            loading.loading().finite(),
            loading.loading().len() <= l0.len() + n,
        decreases free - n,
    {
        match loading.should_load.pop_first() {
            Some(c) => {
                proof {
                    assert(w0.skip(n as int)[0] == w0[n as int]);
                    assert(w0.skip(n as int).drop_first() =~= w0.skip(n + 1));
                    assert(w0.take(n + 1) =~= w0.take(n as int).push(c));
                    assert(load_ids(w0.take(n + 1)) =~= load_ids(w0.take(n as int)).push(c.id));
                    lemma_push_to_set(sent@, c.id);
                }
                loading_insert(&mut loading.loading, c.id);
                sent.push(c.id);
            },
            None => {
                break;
            },
        }
        n = n + 1;
    }
    sent
}

/// Forgets every cell: none on screen, missing, waiting or loading. The
/// caller despawns the entities that draw cells.
pub fn cleanup_cells(loaded: &mut LoadedCells, missing: &mut MissingCells, loading: &mut LoadingCells)
    requires
        old(missing).wf(),
    ensures
        final(loaded)@ == Map::<CellId, u64>::empty(),
        final(missing).wf(),
        final(missing)@ == Seq::<CellId>::empty(),
        final(loading).wf(),
        final(loading).waiting() == Seq::<CellToLoad>::empty(),
        final(loading).loading() == Set::<CellId>::empty(),
{
    loading.should_load.clear();
    loading_clear(&mut loading.loading);
    loaded_clear(&mut loaded.cells);
    missing_purge(&mut missing.cache);
}

/// The size in bytes of a point as drawn: three `f32` coordinates and four
/// color bytes.
pub const DRAWN_POINT_SIZE: u64 = 16;

/// How many points are on screen, and their size as drawn.
#[derive(Debug, Clone, Copy, PartialEq, Eq)]
pub struct Stats {
    pub loaded_points: u64,
    pub loaded_points_byte_size: u64,
}

/// The sum of the point counts.
pub open spec fn sum_points(s: Seq<u32>) -> nat
    decreases s.len(),
{
    if s.len() == 0 {
        0
    } else {
        sum_points(s.drop_last()) + s.last() as nat
    }
}

/// A prefix sums to no more than the whole.
proof fn lemma_sum_points_prefix(s: Seq<u32>, i: int)
    requires
        0 <= i <= s.len(),
    ensures
        sum_points(s.take(i)) <= sum_points(s),
    decreases s.len() - i,
{
    if i < s.len() {
        lemma_sum_points_prefix(s, i + 1);
        assert(s.take(i + 1).drop_last() =~= s.take(i));
    } else {
        assert(s.take(i) =~= s);
    }
}

/// Counts the points of the cells on screen, from each cell's total number
/// of points.
pub fn count_points(totals: &Vec<u32>) -> (stats: Stats)
    requires
        sum_points(totals@) * DRAWN_POINT_SIZE <= u64::MAX,
    ensures
        stats.loaded_points == sum_points(totals@),
        stats.loaded_points_byte_size == sum_points(totals@) * DRAWN_POINT_SIZE,
{
    let mut total: u64 = 0;
    let mut i: usize = 0;
    while i < totals.len()
        invariant
            i <= totals.len(),
            total == sum_points(totals@.take(i as int)),
            sum_points(totals@) * DRAWN_POINT_SIZE <= u64::MAX,
        decreases totals.len() - i,
    {
        proof {
            assert(totals@.take(i + 1).drop_last() =~= totals@.take(i as int));
            lemma_sum_points_prefix(totals@, i + 1);
        }
        total = total + totals[i] as u64;
        i = i + 1;
    }
    proof {
        assert(totals@.take(totals@.len() as int) =~= totals@);
    }
    Stats { loaded_points: total, loaded_points_byte_size: DRAWN_POINT_SIZE * total }
}

} // verus!
