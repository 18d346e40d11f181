//! Which cells to draw and to load, from the change of the cells in view.
//!
//! For each hierarchy the streamer remembers the indices of the cells that
//! its streaming frustum held. When the frustums change, each cell that left
//! the view is despawned if it is on screen, else stops waiting if it waits,
//! else stops loading. Each cell that came into view waits to be loaded,
//! unless it is known to be missing. The waiting cells are loaded coarsest
//! and nearest first, a bounded number at a time, and a loaded cell is drawn.
use vstd::prelude::*;

use crate::cell::{CellId, CellIndex};
use crate::cellsets::{
    index_set_contains, index_set_contents, index_set_entries, index_set_insert, index_set_new,
    loading_clear, loading_contains, loading_contents, loading_insert, loading_len, loading_remove,
    loading_with_capacity, lru_put, move_to_front, other_than, IndexSet, LoadingSet,
};
use crate::fxmap::{lemma_push_to_set, lists_map};
use crate::sorted::{entry_lt, is_first, CellSortValue, SortedCells};
use crate::source::SourceError;
use crate::stream::{lemma_move_to_front_contains, LoadedCells, MissingCells, MAX_LOADING_SIZE, MISSING_CELLS_CAPACITY};

verus! {

/// The index sets as sets.
pub open spec fn index_sets(v: Seq<IndexSet>) -> Seq<Set<CellIndex>> {
    v.map_values(|s: IndexSet| index_set_contents(s))
}

/// Per hierarchy, the indices of the cells that its streaming frustum held.
pub struct VisibleCells {
    hierarchies: Vec<IndexSet>,
}

impl View for VisibleCells {
    type V = Seq<Set<CellIndex>>;

    closed spec fn view(&self) -> Seq<Set<CellIndex>> {
        index_sets(self.hierarchies@)
    }
}

/// Whether the visible cells hold a cell.
pub open spec fn holds(v: Seq<Set<CellIndex>>, id: CellId) -> bool {
    id.hierarchy < v.len() && v[id.hierarchy as int].contains(id.index)
}

impl VisibleCells {
    /// No hierarchy.
    pub fn new() -> (v: Self)
        ensures
            v@ == Seq::<Set<CellIndex>>::empty(),
    {
        let v = VisibleCells { hierarchies: Vec::new() };
        assert(v@ =~= Seq::<Set<CellIndex>>::empty());
        v
    }

    /// Whether the frustum of the cell's hierarchy held the cell.
    pub fn contains(&self, id: &CellId) -> (r: bool)
        ensures
            r == holds(self@, *id),
    {
        let h = id.hierarchy as usize;
        if h < self.hierarchies.len() {
            index_set_contains(&self.hierarchies[h], &id.index)
        } else {
            false
        }
    }

    /// Forgets every hierarchy.
    pub fn clear(&mut self)
        ensures
            final(self)@ == Seq::<Set<CellIndex>>::empty(),
    {
        self.hierarchies.clear();
        assert(self@ =~= Seq::<Set<CellIndex>>::empty());
    }
}

/// The cells to load: those waiting, with their sort values, and those whose
/// loading has been asked for.
pub struct LoadingCells {
    should_load: SortedCells,
    loading: LoadingSet,
}

impl LoadingCells {
    /// The cells waiting to be loaded, with their sort values.
    pub closed spec fn waiting(&self) -> Map<CellId, CellSortValue> {
        self.should_load@
    }

    /// The cells whose loading has been asked for.
    pub closed spec fn loading(&self) -> Set<CellId> {
        loading_contents(self.loading)
    }

    /// The waiting cells are ordered and the loading ones are few.
    pub closed spec fn wf(&self) -> bool {
        &&& self.should_load.wf()
        &&& self.loading().finite()
        &&& self.loading().len() <= MAX_LOADING_SIZE
    }

    /// No cell to load.
    pub fn new() -> (l: Self)
        ensures
            l.wf(),
            l.waiting() == Map::<CellId, CellSortValue>::empty(),
            l.loading() == Set::<CellId>::empty(),
    {
        LoadingCells { should_load: SortedCells::new(), loading: loading_with_capacity(MAX_LOADING_SIZE) }
    }

    /// The number of cells waiting to be loaded.
    pub fn waiting_len(&self) -> (n: usize)
        requires
            self.wf(),
        ensures
            n == self.waiting().len(),
    {
        self.should_load.len()
    }

    /// Whether the loading of a cell has been asked for.
    pub fn is_loading(&self, id: &CellId) -> (r: bool)
        ensures
            r == self.loading().contains(*id),
    {
        loading_contains(&self.loading, id)
    }

    /// The number of cells being loaded.
    pub fn loading_len(&self) -> (n: usize)
        ensures
            n == self.loading().len(),
    {
        loading_len(&self.loading)
    }
}

/// The streamer's state as the decisions see it.
pub struct StreamModel {
    pub loaded: Map<CellId, u64>,
    pub missing: Seq<CellId>,
    pub waiting: Map<CellId, CellSortValue>,
    pub loading: Set<CellId>,
}

/// The cells of one hierarchy met so far, with the first distance listed for
/// each, and the missing and waiting cells then.
pub struct ListedModel {
    pub listed: Map<CellIndex, u32>,
    pub missing: Seq<CellId>,
    pub waiting: Map<CellId, CellSortValue>,
}

/// One listed cell of hierarchy `h` met, whose frustum held the indices
/// `before` until now. A cell met before changes nothing. A cell that came
/// into view is marked as recently used if it is missing, and otherwise waits
/// with its hierarchy and distance.
pub open spec fn listed_step(
    m: ListedModel,
    h: u32,
    before: Set<CellIndex>,
    c: (CellIndex, u32),
) -> ListedModel {
    if m.listed.contains_key(c.0) {
        m
    } else if before.contains(c.0) {
        ListedModel { listed: m.listed.insert(c.0, c.1), ..m }
    } else if m.missing.contains(CellId { hierarchy: h, index: c.0 }) {
        ListedModel {
            listed: m.listed.insert(c.0, c.1),
            missing: move_to_front(m.missing, CellId { hierarchy: h, index: c.0 }),
            ..m
        }
    } else {
        ListedModel {
            listed: m.listed.insert(c.0, c.1),
            waiting: m.waiting.insert(
                CellId { hierarchy: h, index: c.0 },
                CellSortValue { hierarchy: h, distance_to_camera: c.1 },
            ),
            ..m
        }
    }
}

/// The listed cells met in order.
pub open spec fn listed_all(
    m: ListedModel,
    h: u32,
    before: Set<CellIndex>,
    cs: Seq<(CellIndex, u32)>,
) -> ListedModel
    decreases cs.len(),
{
    if cs.len() == 0 {
        m
    } else {
        listed_step(listed_all(m, h, before, cs.drop_last()), h, before, cs.last())
    }
}

/// The cells of hierarchy `h` that left the view.
pub open spec fn gone_ids(h: u32, before: Set<CellIndex>, visible: Set<CellIndex>) -> Set<CellId> {
    Set::new(
        |id: CellId| id.hierarchy == h && before.contains(id.index) && !visible.contains(id.index),
    )
}

/// The cells of a set that are not on screen.
pub open spec fn off_screen(ids: Set<CellId>, loaded: Map<CellId, u64>) -> Set<CellId> {
    Set::new(|id: CellId| ids.contains(id) && !loaded.contains_key(id))
}

/// The cells of a set that do not wait.
pub open spec fn not_waiting(ids: Set<CellId>, waiting: Map<CellId, CellSortValue>) -> Set<CellId> {
    Set::new(|id: CellId| ids.contains(id) && !waiting.contains_key(id))
}

/// The state after one hierarchy changed, the cells now in its view, and the
/// cells on screen to despawn.
pub struct HierarchyUpdate {
    pub state: StreamModel,
    pub visible: Set<CellIndex>,
    pub despawned: Map<CellId, u64>,
}

/// The change of hierarchy `h`, whose frustum held the indices `before` and
/// now holds the listed cells.
pub open spec fn hierarchy_update(
    st: StreamModel,
    h: u32,
    before: Set<CellIndex>,
    cells: Seq<(CellIndex, u32)>,
) -> HierarchyUpdate {
    let a = listed_all(
        ListedModel { listed: Map::empty(), missing: st.missing, waiting: st.waiting },
        h,
        before,
        cells,
    );
    let gone = gone_ids(h, before, a.listed.dom());
    let off = off_screen(gone, st.loaded);
    HierarchyUpdate {
        state: StreamModel {
            loaded: st.loaded.remove_keys(gone),
            missing: a.missing,
            waiting: a.waiting.remove_keys(off),
            loading: st.loading.difference(not_waiting(off, st.waiting)),
        },
        visible: a.listed.dom(),
        despawned: st.loaded.restrict(gone),
    }
}

/// Meeting listed cells only adds to what was met, and changes the waiting
/// cells only at cells of hierarchy `h` met for the first time.
proof fn lemma_listed_all(m: ListedModel, h: u32, before: Set<CellIndex>, cs: Seq<(CellIndex, u32)>)
    ensures
        forall|i: CellIndex| #[trigger]
            m.listed.contains_key(i) ==> listed_all(m, h, before, cs).listed.contains_key(i),
        forall|id: CellId| #[trigger]
            listed_all(m, h, before, cs).waiting.contains_key(id) && !(id.hierarchy == h
                && listed_all(m, h, before, cs).listed.contains_key(id.index)
                && !m.listed.contains_key(id.index)) ==> m.waiting.contains_key(id),
        forall|id: CellId| #[trigger]
            m.waiting.contains_key(id) && !(id.hierarchy == h && listed_all(
                m,
                h,
                before,
                cs,
            ).listed.contains_key(id.index) && !m.listed.contains_key(id.index))
                ==> listed_all(m, h, before, cs).waiting.contains_key(id),
        forall|i: CellIndex| #[trigger]
            listed_all(m, h, before, cs).listed.contains_key(i) ==> m.listed.contains_key(i)
                || exists|k: int| 0 <= k < cs.len() && (#[trigger] cs[k]).0 == i,
    decreases cs.len(),
{
    if cs.len() > 0 {
        let ds = cs.drop_last();
        lemma_listed_all(m, h, before, ds);
        let p = listed_all(m, h, before, ds);
        let c = cs.last();
        assert forall|i: CellIndex| #[trigger]
            listed_all(m, h, before, cs).listed.contains_key(i) implies m.listed.contains_key(i)
            || exists|k: int| 0 <= k < cs.len() && (#[trigger] cs[k]).0 == i by {
            if p.listed.contains_key(i) {
                if !m.listed.contains_key(i) {
                    let k = choose|k: int| 0 <= k < ds.len() && (#[trigger] ds[k]).0 == i;
                    assert(cs[k] == ds[k]);
                }
            } else {
                assert(cs[cs.len() - 1] == c);
            }
        }
    }
}

/// Some listed cell has the index `i`.
pub open spec fn is_listed(cs: Seq<(CellIndex, u32)>, i: CellIndex) -> bool {
    exists|k: int| 0 <= k < cs.len() && (#[trigger] cs[k]).0 == i
}

/// `cs[k]` is the first listing of the index `i`.
pub open spec fn first_listing(cs: Seq<(CellIndex, u32)>, i: CellIndex, k: int) -> bool {
    &&& 0 <= k < cs.len()
    &&& cs[k].0 == i
    &&& forall|j: int| 0 <= j < k ==> (#[trigger] cs[j]).0 != i
}

/// Meeting the listed cells of hierarchy `h` from nothing met: the cell `id`
/// is met exactly when listed, stays missing or not, and waits exactly when
/// it waited, or is of hierarchy `h`, listed, not held before and not missing.
proof fn lemma_listed_waiting(
    m: ListedModel,
    h: u32,
    before: Set<CellIndex>,
    cs: Seq<(CellIndex, u32)>,
    id: CellId,
)
    requires
        m.listed == Map::<CellIndex, u32>::empty(),
    ensures
        listed_all(m, h, before, cs).listed.contains_key(id.index) == is_listed(cs, id.index),
        listed_all(m, h, before, cs).missing.contains(id) == m.missing.contains(id),
        listed_all(m, h, before, cs).waiting.contains_key(id) == (m.waiting.contains_key(id) || (
        id.hierarchy == h && !before.contains(id.index) && is_listed(cs, id.index)
            && !m.missing.contains(id))),
    decreases cs.len(),
{
    if cs.len() > 0 {
        let ds = cs.drop_last();
        let c = cs.last();
        assert(cs[cs.len() - 1] == c);
        lemma_listed_waiting(m, h, before, ds, id);
        let p = listed_all(m, h, before, ds);
        let cid = CellId { hierarchy: h, index: c.0 };
        if p.missing.contains(cid) {
            lemma_move_to_front_contains(p.missing, cid, id);
        }
        if is_listed(ds, id.index) {
            let k = choose|k: int| 0 <= k < ds.len() && (#[trigger] ds[k]).0 == id.index;
            assert(cs[k] == ds[k]);
        }
        if is_listed(cs, id.index) && c.0 != id.index {
            let k = choose|k: int| 0 <= k < cs.len() && (#[trigger] cs[k]).0 == id.index;
            assert(ds[k] == cs[k]);
        }
        if c.0 == id.index {
            assert(is_listed(cs, id.index));
        }
    }
}

/// Meeting the listed cells of hierarchy `h` from nothing met: a cell that
/// comes to wait waits with its hierarchy and the distance of its first
/// listing; any other waiting cell keeps its value.
#[verifier::rlimit(30)]
proof fn lemma_listed_values(
    m: ListedModel,
    h: u32,
    before: Set<CellIndex>,
    cs: Seq<(CellIndex, u32)>,
    id: CellId,
)
    requires
        m.listed == Map::<CellIndex, u32>::empty(),
    ensures
        id.hierarchy == h && !before.contains(id.index) && is_listed(cs, id.index)
            && !m.missing.contains(id) ==> exists|k: int|
            first_listing(cs, id.index, k) && listed_all(m, h, before, cs).waiting[id] == (
            CellSortValue { hierarchy: h, distance_to_camera: (#[trigger] cs[k]).1 }),
        !(id.hierarchy == h && !before.contains(id.index) && is_listed(cs, id.index)
            && !m.missing.contains(id)) && m.waiting.contains_key(id) ==> listed_all(
            m,
            h,
            before,
            cs,
        ).waiting[id] == m.waiting[id],
    decreases cs.len(),
{
    if cs.len() > 0 {
        let ds = cs.drop_last();
        let c = cs.last();
        assert(cs[cs.len() - 1] == c);
        lemma_listed_values(m, h, before, ds, id);
        lemma_listed_waiting(m, h, before, ds, id);
        let p = listed_all(m, h, before, ds);
        let q = listed_all(m, h, before, cs);
        assert(q == listed_step(p, h, before, c));
        let cid = CellId { hierarchy: h, index: c.0 };
        let new_ds = id.hierarchy == h && !before.contains(id.index) && is_listed(ds, id.index)
            && !m.missing.contains(id);
        let new_cs = id.hierarchy == h && !before.contains(id.index) && is_listed(cs, id.index)
            && !m.missing.contains(id);
        if is_listed(ds, id.index) {
            let k = choose|k: int| 0 <= k < ds.len() && (#[trigger] ds[k]).0 == id.index;
            assert(cs[k] == ds[k]);
            assert(is_listed(cs, id.index));
        }
        if cid != id {
            assert(q.waiting.contains_key(id) == p.waiting.contains_key(id));
            assert(q.waiting[id] == p.waiting[id]);
            if new_cs {
                if c.0 == id.index {
                    assert(id.hierarchy != h);
                }
                assert(is_listed(ds, id.index)) by {
                    let k = choose|k: int| 0 <= k < cs.len() && (#[trigger] cs[k]).0 == id.index;
                    if k == cs.len() - 1 {
                        assert(cid == id);
                    }
                    assert(ds[k] == cs[k]);
                }
                let k = choose|k: int|
                    first_listing(ds, id.index, k) && p.waiting[id] == (CellSortValue {
                        hierarchy: h,
                        distance_to_camera: (#[trigger] ds[k]).1,
                    });
                assert(cs[k] == ds[k]);
                assert forall|j: int| 0 <= j < k implies (#[trigger] cs[j]).0 != id.index by {
                    assert(cs[j] == ds[j]);
                }
                assert(first_listing(cs, id.index, k));
            }
        } else {
            assert(is_listed(cs, id.index));
            if is_listed(ds, id.index) {
                assert(p.listed.contains_key(c.0));
                assert(q == p);
                if new_cs {
                    let k = choose|k: int|
                        first_listing(ds, id.index, k) && p.waiting[id] == (CellSortValue {
                            hierarchy: h,
                            distance_to_camera: (#[trigger] ds[k]).1,
                        });
                    assert(cs[k] == ds[k]);
                    assert forall|j: int| 0 <= j < k implies (#[trigger] cs[j]).0 != id.index by {
                        assert(cs[j] == ds[j]);
                    }
                    assert(first_listing(cs, id.index, k));
                }
            } else {
                assert(!p.listed.contains_key(c.0));
                assert(p.missing.contains(id) == m.missing.contains(id));
                if new_cs {
                    let k = cs.len() - 1;
                    assert forall|j: int| 0 <= j < k implies (#[trigger] cs[j]).0 != id.index by {
                        assert(cs[j] == ds[j]);
                        if cs[j].0 == id.index {
                            assert(is_listed(ds, id.index));
                        }
                    }
                    assert(first_listing(cs, id.index, k));
                    assert(q.waiting[id] == CellSortValue { hierarchy: h, distance_to_camera: c.1 });
                } else {
                    assert(q.waiting[id] == p.waiting[id] || !q.waiting.contains_key(id));
                }
            }
        }
    }
}

/// Law: changing hierarchy `h` adds to the waiting cells only cells of `h`
/// that came into view (listed now, not held before) and are not missing,
/// and adds all of those; it leaves the other hierarchies' waiting cells and
/// which cells are missing as they were.
pub proof fn lemma_hierarchy_update_waiting(
    st: StreamModel,
    h: u32,
    before: Set<CellIndex>,
    cells: Seq<(CellIndex, u32)>,
    id: CellId,
)
    ensures
        hierarchy_update(st, h, before, cells).state.waiting.contains_key(id) ==> st.waiting.contains_key(id)
            || (id.hierarchy == h && !before.contains(id.index) && is_listed(cells, id.index)
            && !st.missing.contains(id)),
        (id.hierarchy == h && !before.contains(id.index) && is_listed(cells, id.index)
            && !st.missing.contains(id)) ==> hierarchy_update(st, h, before, cells).state.waiting.contains_key(id),
        id.hierarchy != h ==> hierarchy_update(st, h, before, cells).state.waiting.contains_key(id)
            == st.waiting.contains_key(id),
        hierarchy_update(st, h, before, cells).state.missing.contains(id) == st.missing.contains(id),
        (id.hierarchy == h && !before.contains(id.index) && is_listed(cells, id.index)
            && !st.missing.contains(id)) ==> exists|k: int|
            first_listing(cells, id.index, k) && hierarchy_update(
                st,
                h,
                before,
                cells,
            ).state.waiting[id] == (CellSortValue {
                hierarchy: h,
                distance_to_camera: (#[trigger] cells[k]).1,
            }),
        !(id.hierarchy == h && !before.contains(id.index) && is_listed(cells, id.index)
            && !st.missing.contains(id)) && hierarchy_update(
            st,
            h,
            before,
            cells,
        ).state.waiting.contains_key(id) ==> hierarchy_update(st, h, before, cells).state.waiting[id]
            == st.waiting[id],
{
    let m = ListedModel { listed: Map::empty(), missing: st.missing, waiting: st.waiting };
    lemma_listed_waiting(m, h, before, cells, id);
    lemma_listed_values(m, h, before, cells, id);
}

/// Law: an update of the streaming frustums adds to the waiting cells only
/// cells that came into view: of a hierarchy listed, listed now by its
/// frustum, not held by it before, and not missing; it adds all of those.
/// Which cells are missing does not change.
pub proof fn lemma_cells_update_waiting(
    st: StreamModel,
    v: Seq<Set<CellIndex>>,
    fs: Seq<Seq<(CellIndex, u32)>>,
    id: CellId,
)
    requires
        fs.len() <= u32::MAX,
    ensures
        cells_update(st, v, fs).state.waiting.contains_key(id) ==> st.waiting.contains_key(id) || (
        id.hierarchy < fs.len() && !before_at(v, id.hierarchy as int).contains(id.index) && is_listed(
            fs[id.hierarchy as int],
            id.index,
        ) && !st.missing.contains(id)),
        (id.hierarchy < fs.len() && !before_at(v, id.hierarchy as int).contains(id.index) && is_listed(
            fs[id.hierarchy as int],
            id.index,
        ) && !st.missing.contains(id)) ==> cells_update(st, v, fs).state.waiting.contains_key(id),
        cells_update(st, v, fs).state.missing.contains(id) == st.missing.contains(id),
        (id.hierarchy < fs.len() && !before_at(v, id.hierarchy as int).contains(id.index) && is_listed(
            fs[id.hierarchy as int],
            id.index,
        ) && !st.missing.contains(id)) ==> exists|k: int|
            first_listing(fs[id.hierarchy as int], id.index, k) && cells_update(
                st,
                v,
                fs,
            ).state.waiting[id] == (CellSortValue {
                hierarchy: id.hierarchy,
                distance_to_camera: (#[trigger] fs[id.hierarchy as int][k]).1,
            }),
        !(id.hierarchy < fs.len() && !before_at(v, id.hierarchy as int).contains(id.index)
            && is_listed(fs[id.hierarchy as int], id.index) && !st.missing.contains(id))
            && cells_update(st, v, fs).state.waiting.contains_key(id) ==> cells_update(
            st,
            v,
            fs,
        ).state.waiting[id] == st.waiting[id],
    decreases fs.len(),
{
    if fs.len() > 0 {
        let ds = fs.drop_last();
        lemma_cells_update_waiting(st, v, ds, id);
        let p = cells_update(st, v, ds);
        let h = fs.len() - 1;
        lemma_hierarchy_update_waiting(p.state, h as u32, before_at(v, h), fs.last(), id);
        if id.hierarchy < ds.len() {
            assert(ds[id.hierarchy as int] == fs[id.hierarchy as int]);
        }
        if id.hierarchy == h {
            assert(fs.last() == fs[id.hierarchy as int]);
        }
    }
}

/// Cells from a listing are kept once each.
proof fn lemma_lists_map_push<K, V>(es: Seq<(K, V)>, m: Map<K, V>, k: K, v: V)
    requires
        lists_map(es, m),
        !m.contains_key(k),
    ensures
        lists_map(es.push((k, v)), m.insert(k, v)),
{
    let t = es.push((k, v));
    let n = m.insert(k, v);
    assert forall|i: int, j: int|
        0 <= i < t.len() && 0 <= j < t.len() && i != j implies #[trigger] t[i].0
        != #[trigger] t[j].0 by {
        if i < es.len() && j < es.len() {
            assert(t[i] == es[i] && t[j] == es[j]);
        } else if i < es.len() {
            assert(m.contains_key(es[i].0));
        } else if j < es.len() {
            assert(m.contains_key(es[j].0));
        }
    }
    assert forall|i: int| 0 <= i < t.len() implies n.contains_key(#[trigger] t[i].0) && n[t[i].0]
        == t[i].1 by {
        if i < es.len() {
            assert(t[i] == es[i]);
            assert(m.contains_key(es[i].0));
        }
    }
    assert forall|key: K| #[trigger] n.contains_key(key) implies exists|i: int|
        0 <= i < t.len() && t[i].0 == key by {
        if key == k {
            assert(t[es.len() as int].0 == k);
        } else {
            let i = choose|i: int| 0 <= i < es.len() && es[i].0 == key;
            assert(t[i] == es[i]);
        }
    }
}

/// Two listings of maps without common keys list the union.
proof fn lemma_lists_map_concat<K, V>(a: Seq<(K, V)>, ma: Map<K, V>, b: Seq<(K, V)>, mb: Map<K, V>)
    requires
        lists_map(a, ma),
        lists_map(b, mb),
        forall|k: K| #[trigger] ma.contains_key(k) ==> !mb.contains_key(k),
    ensures
        lists_map(a + b, ma.union_prefer_right(mb)),
{
    let t = a + b;
    let n = ma.union_prefer_right(mb);
    assert(n.dom() =~= ma.dom().union(mb.dom()));
    vstd::set_lib::lemma_set_disjoint_lens(ma.dom(), mb.dom());
    assert forall|i: int, j: int|
        0 <= i < t.len() && 0 <= j < t.len() && i != j implies #[trigger] t[i].0
        != #[trigger] t[j].0 by {
        if i < a.len() && j < a.len() {
        } else if i >= a.len() && j >= a.len() {
            assert(t[i] == b[i - a.len()] && t[j] == b[j - a.len()]);
        } else if i < a.len() {
            assert(ma.contains_key(a[i].0));
            assert(mb.contains_key(b[j - a.len()].0));
        } else {
            assert(mb.contains_key(b[i - a.len()].0));
            assert(ma.contains_key(a[j].0));
        }
    }
    assert forall|i: int| 0 <= i < t.len() implies n.contains_key(#[trigger] t[i].0) && n[t[i].0]
        == t[i].1 by {
        if i < a.len() {
            assert(ma.contains_key(a[i].0));
        } else {
            assert(t[i] == b[i - a.len()]);
            assert(mb.contains_key(b[i - a.len()].0));
        }
    }
    assert forall|key: K| #[trigger] n.contains_key(key) implies exists|i: int|
        0 <= i < t.len() && t[i].0 == key by {
        if ma.contains_key(key) {
            let i = choose|i: int| 0 <= i < a.len() && a[i].0 == key;
            assert(t[i] == a[i]);
        } else {
            let i = choose|i: int| 0 <= i < b.len() && b[i].0 == key;
            assert(t[i + a.len()] == b[i]);
        }
    }
}

/// The streamer's state as a model.
pub open spec fn model_of(loaded: LoadedCells, missing: MissingCells, loading: LoadingCells) -> StreamModel {
    StreamModel {
        loaded: loaded@,
        missing: missing@,
        waiting: loading.waiting(),
        loading: loading.loading(),
    }
}

/// Applies the change of hierarchy `h` (see `hierarchy_update`): its frustum
/// held the indices of `before` and now holds the listed cells, each with its
/// squared distance to the camera. The cells that came into view are met in
/// the order listed; then the cells that left it. Returns the cells now in
/// view and the cells on screen to despawn, with their entities.
pub fn update_hierarchy(
    h: u32,
    before: &IndexSet,
    cells: &Vec<(CellIndex, u32)>,
    loaded: &mut LoadedCells,
    missing: &mut MissingCells,
    loading: &mut LoadingCells,
) -> (r: (IndexSet, Vec<(CellId, u64)>))
    requires
        old(missing).wf(),
        old(loading).wf(),
    ensures
        final(missing).wf(),
        final(loading).wf(),
        model_of(*final(loaded), *final(missing), *final(loading)) == hierarchy_update(
            model_of(*old(loaded), *old(missing), *old(loading)),
            h,
            index_set_contents(*before),
            cells@,
        ).state,
        index_set_contents(r.0) == hierarchy_update(
            model_of(*old(loaded), *old(missing), *old(loading)),
            h,
            index_set_contents(*before),
            cells@,
        ).visible,
        lists_map(
            r.1@,
            hierarchy_update(
                model_of(*old(loaded), *old(missing), *old(loading)),
                h,
                index_set_contents(*before),
                cells@,
            ).despawned,
        ),
{
    let ghost st = model_of(*loaded, *missing, *loading);
    let ghost old_set = index_set_contents(*before);
    let ghost m0 = ListedModel { listed: Map::empty(), missing: st.missing, waiting: st.waiting };
    let mut visible = index_set_new();
    let mut i: usize = 0;
    while i < cells.len()
        invariant
            i <= cells.len(),
            missing.wf(),
            loading.wf(),
            old_set == index_set_contents(*before),
            loaded@ == st.loaded,
            loading.loading() == st.loading,
            listed_all(m0, h, old_set, cells@.take(i as int)).listed.dom() == index_set_contents(visible),
            listed_all(m0, h, old_set, cells@.take(i as int)).missing == missing@,
            listed_all(m0, h, old_set, cells@.take(i as int)).waiting == loading.waiting(),
        decreases cells.len() - i,
    {
        let c = cells[i];
        proof {
            assert(cells@.take(i + 1).drop_last() =~= cells@.take(i as int));
            assert(cells@.take(i + 1).last() == c);
        }
        let ghost p = listed_all(m0, h, old_set, cells@.take(i as int));
        let ghost q = listed_step(p, h, old_set, c);
        let index = c.0;
        if index_set_insert(&mut visible, index) {
            if !index_set_contains(before, &index) {
                let id = CellId { hierarchy: h, index };
                if !missing.touch(&id) {
                    loading.should_load.insert(
                        id,
                        CellSortValue { hierarchy: h, distance_to_camera: c.1 },
                    );
                }
            }
        }
        proof {
            assert(q.listed.dom() =~= index_set_contents(visible));
            assert(q.missing == missing@);
            assert(q.waiting == loading.waiting());
        }
        i = i + 1;
    }
    proof {
        assert(cells@.take(cells@.len() as int) =~= cells@);
    }
    let ghost a = listed_all(m0, h, old_set, cells@);
    let ghost vis = a.listed.dom();
    proof {
        lemma_listed_all(m0, h, old_set, cells@);
    }
    let olds = index_set_entries(before);
    let mut despawn: Vec<(CellId, u64)> = Vec::new();
    let mut k: usize = 0;
    proof {
        assert forall|id: CellId| #[trigger]
            st.waiting.contains_key(id) && !(id.hierarchy == h && vis.contains(id.index))
                implies a.waiting.contains_key(id) by {
            assert(m0.waiting.contains_key(id));
            assert(!m0.listed.contains_key(id.index));
        }
        assert(olds@.take(0).to_set() =~= Set::<CellIndex>::empty());
        assert(gone_ids(h, Set::<CellIndex>::empty(), vis) =~= Set::<CellId>::empty());
        assert(st.loaded.restrict(Set::<CellId>::empty()) =~= Map::<CellId, u64>::empty());
        assert(st.loaded.remove_keys(Set::<CellId>::empty()) =~= st.loaded);
        assert(off_screen(Set::<CellId>::empty(), st.loaded) =~= Set::<CellId>::empty());
        assert(a.waiting.remove_keys(Set::<CellId>::empty()) =~= a.waiting);
        assert(not_waiting(Set::<CellId>::empty(), st.waiting) =~= Set::<CellId>::empty());
        assert(st.loading.difference(Set::<CellId>::empty()) =~= st.loading);
    }
    while k < olds.len()
        invariant
            k <= olds.len(),
            olds@.no_duplicates(),
            olds@.to_set() == old_set,
            missing.wf(),
            loading.wf(),
            vis == index_set_contents(visible),
            a == listed_all(m0, h, old_set, cells@),
            missing@ == a.missing,
            forall|id: CellId| #[trigger]
                a.waiting.contains_key(id) && !(id.hierarchy == h && vis.contains(id.index))
                    ==> st.waiting.contains_key(id),
            forall|id: CellId| #[trigger]
                st.waiting.contains_key(id) && !(id.hierarchy == h && vis.contains(id.index))
                    ==> a.waiting.contains_key(id),
            loaded@ == st.loaded.remove_keys(gone_ids(h, olds@.take(k as int).to_set(), vis)),
            lists_map(despawn@, st.loaded.restrict(gone_ids(h, olds@.take(k as int).to_set(), vis))),
            loading.waiting() == a.waiting.remove_keys(
                off_screen(gone_ids(h, olds@.take(k as int).to_set(), vis), st.loaded),
            ),
            loading.loading() == st.loading.difference(
                not_waiting(
                    off_screen(gone_ids(h, olds@.take(k as int).to_set(), vis), st.loaded),
                    st.waiting,
                ),
            ),
        decreases olds.len() - k,
    {
        let index = olds[k];
        let ghost done = olds@.take(k as int).to_set();
        let ghost next = olds@.take(k + 1).to_set();
        proof {
            assert(olds@.take(k + 1) =~= olds@.take(k as int).push(index));
            lemma_push_to_set(olds@.take(k as int), index);
            assert(!done.contains(index)) by {
                if done.contains(index) {
                    let j = choose|j: int| 0 <= j < k && olds@.take(k as int)[j] == index;
                    assert(olds@[j] == olds@[k as int]);
                }
            }
        }
        if !index_set_contains(&visible, &index) {
            let id = CellId { hierarchy: h, index };
            proof {
                assert(gone_ids(h, next, vis) =~= gone_ids(h, done, vis).insert(id));
                assert(!gone_ids(h, done, vis).contains(id));
            }
            match loaded.remove(&id) {
                Some(entity) => {
                    proof {
                        lemma_lists_map_push(
                            despawn@,
                            st.loaded.restrict(gone_ids(h, done, vis)),
                            id,
                            entity,
                        );
                        assert(st.loaded.restrict(gone_ids(h, done, vis)).insert(id, entity)
                            =~= st.loaded.restrict(gone_ids(h, next, vis)));
                        assert(off_screen(gone_ids(h, next, vis), st.loaded) =~= off_screen(
                            gone_ids(h, done, vis),
                            st.loaded,
                        ));
                    }
                    despawn.push((id, entity));
                },
                None => {
                    proof {
                        assert(st.loaded.restrict(gone_ids(h, done, vis)) =~= st.loaded.restrict(
                            gone_ids(h, next, vis),
                        ));
                        assert(off_screen(gone_ids(h, next, vis), st.loaded) =~= off_screen(
                            gone_ids(h, done, vis),
                            st.loaded,
                        ).insert(id));
                    }
                    if loading.should_load.remove(&id).is_none() {
                        proof {
                            assert(!st.waiting.contains_key(id));
                            assert(not_waiting(
                                off_screen(gone_ids(h, next, vis), st.loaded),
                                st.waiting,
                            ) =~= not_waiting(
                                off_screen(gone_ids(h, done, vis), st.loaded),
                                st.waiting,
                            ).insert(id));
                        }
                        loading_remove(&mut loading.loading, &id);
                    } else {
                        proof {
                            assert(st.waiting.contains_key(id));
                            assert(not_waiting(
                                off_screen(gone_ids(h, next, vis), st.loaded),
                                st.waiting,
                            ) =~= not_waiting(
                                off_screen(gone_ids(h, done, vis), st.loaded),
                                st.waiting,
                            ));
                        }
                    }
                },
            }
            proof {
                assert(loaded@ =~= st.loaded.remove_keys(gone_ids(h, next, vis)));
                assert(loading.waiting() =~= a.waiting.remove_keys(
                    off_screen(gone_ids(h, next, vis), st.loaded),
                ));
                assert(loading.loading() =~= st.loading.difference(
                    not_waiting(off_screen(gone_ids(h, next, vis), st.loaded), st.waiting),
                ));
            }
        } else {
            proof {
                assert(gone_ids(h, next, vis) =~= gone_ids(h, done, vis));
            }
        }
        k = k + 1;
    }
    proof {
        assert(olds@.take(olds@.len() as int) =~= olds@);
        assert(gone_ids(h, olds@.to_set(), vis) =~= gone_ids(h, old_set, vis));
    }
    (visible, despawn)
}

/// The state after every hierarchy changed, the cells now in view, and the
/// cells on screen to despawn.
pub struct CellsUpdate {
    pub state: StreamModel,
    pub visible: Seq<Set<CellIndex>>,
    pub despawned: Map<CellId, u64>,
}

/// What the frustum of hierarchy `h` held: nothing past the hierarchies
/// remembered.
pub open spec fn before_at(v: Seq<Set<CellIndex>>, h: int) -> Set<CellIndex> {
    if 0 <= h < v.len() {
        v[h]
    } else {
        Set::empty()
    }
}

/// The changes of the hierarchies in turn, the coarsest first. Hierarchies
/// past the listed ones are forgotten.
pub open spec fn cells_update(
    st: StreamModel,
    v: Seq<Set<CellIndex>>,
    fs: Seq<Seq<(CellIndex, u32)>>,
) -> CellsUpdate
    decreases fs.len(),
{
    if fs.len() == 0 {
        CellsUpdate { state: st, visible: Seq::empty(), despawned: Map::empty() }
    } else {
        let p = cells_update(st, v, fs.drop_last());
        let h = fs.len() - 1;
        let r = hierarchy_update(p.state, h as u32, before_at(v, h), fs.last());
        CellsUpdate {
            state: r.state,
            visible: p.visible.push(r.visible),
            despawned: p.despawned.union_prefer_right(r.despawned),
        }
    }
}

/// The cells despawned are of the hierarchies changed.
proof fn lemma_despawned_hierarchies(
    st: StreamModel,
    v: Seq<Set<CellIndex>>,
    fs: Seq<Seq<(CellIndex, u32)>>,
)
    requires
        fs.len() <= u32::MAX,
    ensures
        forall|id: CellId| #[trigger]
            cells_update(st, v, fs).despawned.contains_key(id) ==> id.hierarchy < fs.len(),
        cells_update(st, v, fs).visible.len() == fs.len(),
    decreases fs.len(),
{
    if fs.len() > 0 {
        lemma_despawned_hierarchies(st, v, fs.drop_last());
    }
}

/// Applies the change of every hierarchy's streaming frustum, the coarsest
/// first (see `cells_update`): `frustums[h]` lists the cells that the frustum
/// of hierarchy `h` now holds, each with its squared distance to the camera.
/// Returns the cells on screen to despawn, with their entities.
pub fn update_cells(
    visible: &mut VisibleCells,
    loaded: &mut LoadedCells,
    missing: &mut MissingCells,
    loading: &mut LoadingCells,
    frustums: &Vec<Vec<(CellIndex, u32)>>,
) -> (despawn: Vec<(CellId, u64)>)
    requires
        old(missing).wf(),
        old(loading).wf(),
        frustums@.len() <= u32::MAX,
    ensures
        final(missing).wf(),
        final(loading).wf(),
        model_of(*final(loaded), *final(missing), *final(loading)) == cells_update(
            model_of(*old(loaded), *old(missing), *old(loading)),
            old(visible)@,
            frustums@.map_values(|f: Vec<(CellIndex, u32)>| f@),
        ).state,
        final(visible)@ == cells_update(
            model_of(*old(loaded), *old(missing), *old(loading)),
            old(visible)@,
            frustums@.map_values(|f: Vec<(CellIndex, u32)>| f@),
        ).visible,
        lists_map(
            despawn@,
            cells_update(
                model_of(*old(loaded), *old(missing), *old(loading)),
                old(visible)@,
                frustums@.map_values(|f: Vec<(CellIndex, u32)>| f@),
            ).despawned,
        ),
        forall|id: CellId| #[trigger]
            final(loading).waiting().contains_key(id) ==> old(loading).waiting().contains_key(id) || (
            id.hierarchy < frustums@.len() && !before_at(old(visible)@, id.hierarchy as int).contains(
                id.index,
            ) && is_listed(frustums@[id.hierarchy as int]@, id.index) && !old(missing)@.contains(id)),
        forall|id: CellId|
            id.hierarchy < frustums@.len() && !before_at(old(visible)@, id.hierarchy as int).contains(
                id.index,
            ) && is_listed(frustums@[id.hierarchy as int]@, id.index) && !old(missing)@.contains(id)
                ==> #[trigger] final(loading).waiting().contains_key(id),
        forall|id: CellId|
            #![trigger is_listed(frustums@[id.hierarchy as int]@, id.index)]
            id.hierarchy < frustums@.len() && !before_at(old(visible)@, id.hierarchy as int).contains(
                id.index,
            ) && is_listed(frustums@[id.hierarchy as int]@, id.index) && !old(missing)@.contains(id)
                ==> exists|k: int|
                first_listing(frustums@[id.hierarchy as int]@, id.index, k) && #[trigger] final(loading).waiting()[id] == (CellSortValue {
                    hierarchy: id.hierarchy,
                    distance_to_camera: frustums@[id.hierarchy as int]@[k].1,
                }),
        forall|id: CellId|
            #[trigger] final(loading).waiting().contains_key(id) && !(id.hierarchy < frustums@.len()
                && !before_at(old(visible)@, id.hierarchy as int).contains(id.index) && is_listed(
                frustums@[id.hierarchy as int]@,
                id.index,
            ) && !old(missing)@.contains(id)) ==> final(loading).waiting()[id] == old(loading).waiting()[id],
{
    let ghost st = model_of(*loaded, *missing, *loading);
    let ghost v0 = visible@;
    let ghost fs = frustums@.map_values(|f: Vec<(CellIndex, u32)>| f@);
    let empty = index_set_new();
    let mut new_visible: Vec<IndexSet> = Vec::new();
    let mut despawn: Vec<(CellId, u64)> = Vec::new();
    let mut h: usize = 0;
    proof {
        assert(fs.take(0) =~= Seq::<Seq<(CellIndex, u32)>>::empty());
        assert(index_sets(new_visible@) =~= Seq::<Set<CellIndex>>::empty());
    }
    while h < frustums.len()
        invariant
            h <= frustums.len(),
            frustums@.len() <= u32::MAX,
            fs == frustums@.map_values(|f: Vec<(CellIndex, u32)>| f@),
            visible@ == v0,
            index_set_contents(empty) == Set::<CellIndex>::empty(),
            missing.wf(),
            loading.wf(),
            model_of(*loaded, *missing, *loading) == cells_update(st, v0, fs.take(h as int)).state,
            index_sets(new_visible@) == cells_update(st, v0, fs.take(h as int)).visible,
            lists_map(despawn@, cells_update(st, v0, fs.take(h as int)).despawned),
        decreases frustums.len() - h,
    {
        proof {
            assert(fs.take(h + 1).drop_last() =~= fs.take(h as int));
            assert(fs.take(h + 1).last() == frustums@[h as int]@);
            lemma_despawned_hierarchies(st, v0, fs.take(h as int));
        }
        let before = if h < visible.hierarchies.len() {
            &visible.hierarchies[h]
        } else {
            &empty
        };
        proof {
            assert(index_set_contents(*before) == before_at(v0, h as int));
        }
        let ghost p = cells_update(st, v0, fs.take(h as int));
        let (cells_in_view, mut gone) = update_hierarchy(
            h as u32,
            before,
            &frustums[h],
            loaded,
            missing,
            loading,
        );
        proof {
            let r = hierarchy_update(p.state, h as u32, before_at(v0, h as int), frustums@[h as int]@);
            assert forall|id: CellId| #[trigger] p.despawned.contains_key(id) implies !r.despawned.contains_key(
                id,
            ) by {}
            lemma_lists_map_concat(despawn@, p.despawned, gone@, r.despawned);
            assert(index_sets(new_visible@.push(cells_in_view)) =~= index_sets(new_visible@).push(
                index_set_contents(cells_in_view),
            ));
        }
        new_visible.push(cells_in_view);
        despawn.append(&mut gone);
        h = h + 1;
    }
    proof {
        assert(fs.take(frustums@.len() as int) =~= fs);
        assert(loading.waiting() == cells_update(st, v0, fs).state.waiting);
        assert forall|id: CellId| #[trigger] loading.waiting().contains_key(id) implies st.waiting.contains_key(id)
            || (id.hierarchy < frustums@.len() && !before_at(v0, id.hierarchy as int).contains(id.index)
            && is_listed(frustums@[id.hierarchy as int]@, id.index) && !st.missing.contains(id)) by {
            lemma_cells_update_waiting(st, v0, fs, id);
            if id.hierarchy < frustums@.len() {
                assert(fs[id.hierarchy as int] == frustums@[id.hierarchy as int]@);
            }
        }
        assert forall|id: CellId|
            id.hierarchy < frustums@.len() && !before_at(v0, id.hierarchy as int).contains(id.index)
                && is_listed(frustums@[id.hierarchy as int]@, id.index) && !st.missing.contains(
                id,
            ) implies #[trigger] loading.waiting().contains_key(id) by {
            lemma_cells_update_waiting(st, v0, fs, id);
            assert(fs[id.hierarchy as int] == frustums@[id.hierarchy as int]@);
        }
        assert forall|id: CellId|
            #![trigger is_listed(frustums@[id.hierarchy as int]@, id.index)]
            id.hierarchy < frustums@.len() && !before_at(v0, id.hierarchy as int).contains(id.index)
                && is_listed(frustums@[id.hierarchy as int]@, id.index) && !st.missing.contains(
                id,
            ) implies exists|k: int|
            first_listing(frustums@[id.hierarchy as int]@, id.index, k) && #[trigger] loading.waiting()[id]
                == (CellSortValue {
                hierarchy: id.hierarchy,
                distance_to_camera: frustums@[id.hierarchy as int]@[k].1,
            }) by {
            lemma_cells_update_waiting(st, v0, fs, id);
            assert(fs[id.hierarchy as int] == frustums@[id.hierarchy as int]@);
        }
        assert forall|id: CellId|
            #[trigger] loading.waiting().contains_key(id) && !(id.hierarchy < frustums@.len()
                && !before_at(v0, id.hierarchy as int).contains(id.index) && is_listed(
                frustums@[id.hierarchy as int]@,
                id.index,
            ) && !st.missing.contains(id)) implies loading.waiting()[id] == st.waiting[id] by {
            lemma_cells_update_waiting(st, v0, fs, id);
            if id.hierarchy < frustums@.len() {
                assert(fs[id.hierarchy as int] == frustums@[id.hierarchy as int]@);
            }
        }
    }
    visible.hierarchies = new_visible;
    despawn
}

/// Something that happened to a cell asset.
#[derive(Debug)]
pub enum CellEvent {
    /// The caller made the cell.
    Created(CellId),
    /// The cell's points changed.
    Changed(CellId),
    /// Loading the cell succeeded.
    Loaded(CellId),
    /// Loading the cell failed.
    LoadFailed(CellId, SourceError),
}

/// What the caller does about an event.
#[derive(Debug, Clone, Copy, PartialEq, Eq)]
pub enum CellAction {
    /// Nothing.
    Nothing,
    /// Spawn an entity that draws the cell and record it with
    /// `LoadedCells::insert`; where `despawn_replaced`, despawn the entity
    /// whose record it replaces.
    Spawn { despawn_replaced: bool },
    /// Update the points that this entity draws.
    Reload(u64),
    /// Nothing: the cell is now known to be missing.
    Missing,
    /// Report that loading the cell failed.
    Failed,
}

/// Decides what to do about an event. A cell made by the caller is no longer
/// missing, and is drawn at once if it is in view, no longer waiting. A
/// changed cell on screen is redrawn. A cell that finished loading is drawn,
/// or known to be missing, unless it is no longer loading.
pub fn receive_cell(
    visible: &VisibleCells,
    loaded: &LoadedCells,
    missing: &mut MissingCells,
    loading: &mut LoadingCells,
    event: CellEvent,
) -> (r: CellAction)
    requires
        old(missing).wf(),
        old(loading).wf(),
    ensures
        final(missing).wf(),
        final(loading).wf(),
        match event {
            CellEvent::Created(id) => {
                &&& final(missing)@ == old(missing)@.filter(other_than(id))
                &&& final(loading).loading() == old(loading).loading()
                &&& holds(visible@, id) ==> r == (CellAction::Spawn { despawn_replaced: false })
                    && final(loading).waiting() == old(loading).waiting().remove(id)
                &&& !holds(visible@, id) ==> r == CellAction::Nothing && final(loading).waiting()
                    == old(loading).waiting()
            },
            CellEvent::Changed(id) => {
                &&& final(missing)@ == old(missing)@
                &&& final(loading).waiting() == old(loading).waiting()
                &&& final(loading).loading() == old(loading).loading()
                &&& loaded@.contains_key(id) ==> r == CellAction::Reload(loaded@[id])
                &&& !loaded@.contains_key(id) ==> r == CellAction::Nothing
            },
            CellEvent::Loaded(id) => {
                &&& final(missing)@ == old(missing)@
                &&& final(loading).waiting() == old(loading).waiting()
                &&& final(loading).loading() == old(loading).loading().remove(id)
                &&& old(loading).loading().contains(id) ==> r == (CellAction::Spawn {
                    despawn_replaced: true,
                })
                &&& !old(loading).loading().contains(id) ==> r == CellAction::Nothing
            },
            CellEvent::LoadFailed(id, error) => {
                &&& final(loading).waiting() == old(loading).waiting()
                &&& final(loading).loading() == old(loading).loading().remove(id)
                &&& !old(loading).loading().contains(id) ==> r == CellAction::Nothing
                    && final(missing)@ == old(missing)@
                &&& old(loading).loading().contains(id) ==> match error {
                    SourceError::NotFound(_) => r == CellAction::Missing && final(missing)@
                        == lru_put(old(missing)@, id, MISSING_CELLS_CAPACITY as nat),
                    SourceError::NoSource => r == CellAction::Nothing && final(missing)@ == old(
                        missing,
                    )@,
                    SourceError::Other { .. } => r == CellAction::Failed && final(missing)@
                        == old(missing)@,
                }
            },
        },
{
    match event {
        CellEvent::Created(id) => {
            missing.remove(&id);
            if visible.contains(&id) {
                loading.should_load.remove(&id);
                CellAction::Spawn { despawn_replaced: false }
            } else {
                CellAction::Nothing
            }
        },
        CellEvent::Changed(id) => match loaded.get(&id) {
            Some(entity) => CellAction::Reload(entity),
            None => CellAction::Nothing,
        },
        CellEvent::Loaded(id) => {
            if !loading_remove(&mut loading.loading, &id) {
                return CellAction::Nothing;
            }
            CellAction::Spawn { despawn_replaced: true }
        },
        CellEvent::LoadFailed(id, error) => {
            if !loading_remove(&mut loading.loading, &id) {
                return CellAction::Nothing;
            }
            match error {
                SourceError::NotFound(_) => {
                    missing.put(id);
                    CellAction::Missing
                },
                SourceError::NoSource => CellAction::Nothing,
                SourceError::Other { .. } => CellAction::Failed,
            }
        },
    }
}

/// The cell that comes first in a map of cells to load.
pub open spec fn first_cell(m: Map<CellId, CellSortValue>) -> CellId {
    choose|id: CellId| is_first(m, id)
}

/// The first `n` cells of a map of cells to load, in order.
pub open spec fn first_cells(m: Map<CellId, CellSortValue>, n: nat) -> Seq<CellId>
    decreases n,
{
    if n == 0 || !(exists|id: CellId| is_first(m, id)) {
        Seq::empty()
    } else {
        seq![first_cell(m)] + first_cells(m.remove(first_cell(m)), (n - 1) as nat)
    }
}

/// A map has one first cell at most.
proof fn lemma_first_unique(m: Map<CellId, CellSortValue>, a: CellId)
    requires
        is_first(m, a),
    ensures
        first_cell(m) == a,
{
    let b = first_cell(m);
    assert(is_first(m, b));
    if a != b {
        assert(entry_lt((a, m[a]), (b, m[b])));
        assert(entry_lt((b, m[b]), (a, m[a])));
    }
}

impl LoadingCells {
    /// How many waiting cells the next enqueue asks for: as many as there
    /// are free loading slots, or all of them.
    pub open spec fn to_enqueue(&self) -> nat {
        let free = MAX_LOADING_SIZE - self.loading().len();
        if free < self.waiting().len() {
            free as nat
        } else {
            self.waiting().len()
        }
    }
}

/// Asks for the loading of the first waiting cells, one per free loading
/// slot. Returns their ids, in order, for the caller to send to the loader.
pub fn enqueue_cells_to_load(loading: &mut LoadingCells) -> (sent: Vec<CellId>)
    requires
        old(loading).wf(),
    ensures
        final(loading).wf(),
        sent@ == first_cells(old(loading).waiting(), old(loading).to_enqueue()),
        final(loading).waiting() == old(loading).waiting().remove_keys(sent@.to_set()),
        final(loading).loading() == old(loading).loading().union(sent@.to_set()),
{
    let free = MAX_LOADING_SIZE - loading_len(&loading.loading);
    let ghost w0 = loading.waiting();
    let ghost l0 = loading.loading();
    let ghost k0 = loading.to_enqueue();
    let mut sent: Vec<CellId> = Vec::new();
    let mut n: usize = 0;
    proof {
        loading.should_load.lemma_finite_len();
        assert(w0.remove_keys(Set::empty()) =~= w0);
        assert(l0.union(Set::empty()) =~= l0);
        assert(sent@.to_set() =~= Set::<CellId>::empty());
    }
    while n < free
        invariant
            n <= free,
            free == MAX_LOADING_SIZE - l0.len(),
            l0.finite(),
            w0.dom().finite(),
            n <= w0.len(),
            k0 == (if free < w0.len() { free as nat } else { w0.len() }),
            loading.should_load.wf(),
            loading.waiting().dom().finite(),
            first_cells(w0, k0) == sent@ + first_cells(loading.waiting(), (k0 - n) as nat),
            loading.waiting() == w0.remove_keys(sent@.to_set()),
            loading.waiting().len() == w0.len() - n,
            loading.loading() == l0.union(sent@.to_set()),
            loading.loading().finite(),
            loading.loading().len() <= l0.len() + n,
        ensures
            n <= free,
            n == k0,
            loading.should_load.wf(),
            sent@ == first_cells(w0, k0),
            loading.waiting() == w0.remove_keys(sent@.to_set()),
            loading.loading() == l0.union(sent@.to_set()),
            loading.loading().finite(),
            loading.loading().len() <= l0.len() + n,
        decreases free - n,
    {
        let ghost w = loading.waiting();
        match loading.should_load.pop_first() {
            Some(c) => {
                proof {
                    lemma_first_unique(w, c.0);
                    assert(k0 - n > 0);
                    assert(first_cells(w, (k0 - n) as nat) == seq![c.0] + first_cells(
                        w.remove(c.0),
                        (k0 - n - 1) as nat,
                    ));
                    assert(sent@.push(c.0) + first_cells(w.remove(c.0), (k0 - n - 1) as nat)
                        =~= sent@ + (seq![c.0] + first_cells(w.remove(c.0), (k0 - n - 1) as nat)));
                    lemma_push_to_set(sent@, c.0);
                    assert(w.remove(c.0) =~= w0.remove_keys(sent@.to_set().insert(c.0)));
                }
                loading_insert(&mut loading.loading, c.0);
                sent.push(c.0);
            },
            None => {
                proof {
                    assert(k0 == n) by {
                        if k0 > n {
                            assert(w.len() > 0);
                        }
                    }
                    assert(first_cells(w, 0) =~= Seq::<CellId>::empty());
                    assert(sent@ + Seq::<CellId>::empty() =~= sent@);
                }
                break;
            },
        }
        n = n + 1;
    }
    proof {
        if n == free && n < k0 {
            assert(false);
        }
    }
    sent
}

/// Forgets every cell: none in view, on screen, missing, waiting or loading.
/// The caller despawns the entities that draw cells.
pub fn cleanup_cells(
    visible: &mut VisibleCells,
    loaded: &mut LoadedCells,
    missing: &mut MissingCells,
    loading: &mut LoadingCells,
)
    requires
        old(missing).wf(),
    ensures
        final(visible)@ == Seq::<Set<CellIndex>>::empty(),
        final(loaded)@ == Map::<CellId, u64>::empty(),
        final(missing).wf(),
        final(missing)@ == Seq::<CellId>::empty(),
        final(loading).wf(),
        final(loading).waiting() == Map::<CellId, CellSortValue>::empty(),
        final(loading).loading() == Set::<CellId>::empty(),
{
    visible.clear();
    loading.should_load.clear();
    loading_clear(&mut loading.loading);
    loaded.clear();
    missing.purge();
}

/// The cells that left the view: of a changed hierarchy, held by its
/// frustum before and not now.
pub open spec fn left_view(
    before: Seq<Set<CellIndex>>,
    now: Seq<Set<CellIndex>>,
    hierarchies: nat,
) -> Set<CellId> {
    Set::new(
        |id: CellId|
            id.hierarchy < hierarchies && before_at(before, id.hierarchy as int).contains(id.index)
                && !now[id.hierarchy as int].contains(id.index),
    )
}

/// Law: an update takes exactly the cells that left the view off the screen,
/// and despawns them; every other cell on screen stays.
pub proof fn lemma_update_despawns_what_left_view(
    st: StreamModel,
    v: Seq<Set<CellIndex>>,
    fs: Seq<Seq<(CellIndex, u32)>>,
)
    requires
        fs.len() <= u32::MAX,
    ensures
        cells_update(st, v, fs).state.loaded == st.loaded.remove_keys(
            left_view(v, cells_update(st, v, fs).visible, fs.len()),
        ),
        cells_update(st, v, fs).despawned == st.loaded.restrict(
            left_view(v, cells_update(st, v, fs).visible, fs.len()),
        ),
    decreases fs.len(),
{
    let u = cells_update(st, v, fs);
    lemma_despawned_hierarchies(st, v, fs);
    if fs.len() == 0 {
        assert(left_view(v, u.visible, 0) =~= Set::<CellId>::empty());
        assert(st.loaded.remove_keys(Set::<CellId>::empty()) =~= st.loaded);
        assert(st.loaded.restrict(Set::<CellId>::empty()) =~= Map::<CellId, u64>::empty());
    } else {
        let ds = fs.drop_last();
        lemma_update_despawns_what_left_view(st, v, ds);
        lemma_despawned_hierarchies(st, v, ds);
        let p = cells_update(st, v, ds);
        let h = fs.len() - 1;
        let r = hierarchy_update(p.state, h as u32, before_at(v, h), fs.last());
        let lp = left_view(v, p.visible, ds.len());
        let gone = gone_ids(h as u32, before_at(v, h), r.visible);
        let all = left_view(v, u.visible, fs.len());
        assert(u.visible == p.visible.push(r.visible));
        assert forall|id: CellId| all.contains(id) <==> (lp.contains(id) || gone.contains(id)) by {
            if id.hierarchy < h {
                assert(u.visible[id.hierarchy as int] == p.visible[id.hierarchy as int]);
            } else if id.hierarchy == h {
                assert(u.visible[id.hierarchy as int] == r.visible);
            }
        }
        assert(u.state.loaded =~= st.loaded.remove_keys(all));
        assert(u.despawned =~= st.loaded.restrict(all));
    }
}

} // verus!
