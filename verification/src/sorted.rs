//! A map from cells to the value they are sorted by, that hands out the cell
//! with the smallest value first: the coarsest hierarchy, then the nearest
//! cell. Cells with equal values come out in the order of their ids
//! (hierarchy, then `x`, `y` and `z` of the index).
use vstd::prelude::*;

use crate::cell::CellId;
use crate::cellbuffer::cell_lt;

verus! {

/// What a cell to load is sorted by: its hierarchy, then its squared
/// distance to the camera.
#[derive(Debug, Clone, Copy, PartialEq, Eq)]
pub struct CellSortValue {
    pub hierarchy: u32,
    pub distance_to_camera: u32,
}

/// The order of sort values: hierarchy, then distance.
pub open spec fn sort_lt(a: CellSortValue, b: CellSortValue) -> bool {
    a.hierarchy < b.hierarchy || (a.hierarchy == b.hierarchy && a.distance_to_camera
        < b.distance_to_camera)
}

/// The order of entries: by sort value, then by cell.
pub open spec fn entry_lt(a: (CellId, CellSortValue), b: (CellId, CellSortValue)) -> bool {
    sort_lt(a.1, b.1) || (a.1 == b.1 && cell_lt(a.0, b.0))
}

/// Each entry comes before those after it.
pub open spec fn entries_sorted(s: Seq<(CellId, CellSortValue)>) -> bool {
    forall|i: int, j: int| 0 <= i < j < s.len() ==> entry_lt(#[trigger] s[i], #[trigger] s[j])
}

/// No two entries are about the same cell.
pub open spec fn cells_unique(s: Seq<(CellId, CellSortValue)>) -> bool {
    forall|i: int, j: int| 0 <= i < j < s.len() ==> (#[trigger] s[i]).0 != (#[trigger] s[j]).0
}

/// Some entry is about `id`.
pub open spec fn has_cell(s: Seq<(CellId, CellSortValue)>, id: CellId) -> bool {
    exists|i: int| 0 <= i < s.len() && (#[trigger] s[i]).0 == id
}

/// The position of the entry about `id`.
pub open spec fn cell_index(s: Seq<(CellId, CellSortValue)>, id: CellId) -> int {
    choose|i: int| 0 <= i < s.len() && (#[trigger] s[i]).0 == id
}

/// The entries as a map from cell to sort value.
pub open spec fn entries_map(s: Seq<(CellId, CellSortValue)>) -> Map<CellId, CellSortValue> {
    Map::new(|id: CellId| has_cell(s, id), |id: CellId| s[cell_index(s, id)].1)
}

/// The entry that comes first: no other entry of the map comes before it.
pub open spec fn is_first(m: Map<CellId, CellSortValue>, id: CellId) -> bool {
    &&& m.contains_key(id)
    &&& forall|other: CellId| #[trigger]
        m.contains_key(other) && other != id ==> entry_lt((id, m[id]), (other, m[other]))
}

/// Two entries are never about the same cell, and the order is strict.
proof fn lemma_entry_lt_facts(a: (CellId, CellSortValue), b: (CellId, CellSortValue))
    ensures
        a == b ==> !entry_lt(a, b),
        entry_lt(a, b) ==> !entry_lt(b, a),
        a != b ==> entry_lt(a, b) || entry_lt(b, a),
{
}

/// In a sorted sequence a cell is at one position only.
proof fn lemma_cell_index(s: Seq<(CellId, CellSortValue)>, i: int)
    requires
        cells_unique(s),
        0 <= i < s.len(),
    ensures
        has_cell(s, s[i].0),
        cell_index(s, s[i].0) == i,
        entries_map(s).contains_key(s[i].0),
        entries_map(s)[s[i].0] == s[i].1,
{
    assert(0 <= i < s.len() && s[i].0 == s[i].0);
    let j = cell_index(s, s[i].0);
    if j < i {
        assert(s[j].0 != s[i].0);
    } else if j > i {
        assert(s[i].0 != s[j].0);
    }
}

/// Removing an entry keeps the order and removes its cell from the map.
proof fn lemma_remove_entry(s: Seq<(CellId, CellSortValue)>, i: int)
    requires
        entries_sorted(s),
        cells_unique(s),
        0 <= i < s.len(),
    ensures
        entries_sorted(s.remove(i)),
        cells_unique(s.remove(i)),
        entries_map(s.remove(i)) == entries_map(s).remove(s[i].0),
{
    let r = s.remove(i);
    assert forall|a: int, b: int| 0 <= a < b < r.len() implies entry_lt(
        #[trigger] r[a],
        #[trigger] r[b],
    ) && r[a].0 != r[b].0 by {
        if b < i {
            assert(r[a] == s[a] && r[b] == s[b]);
        } else if a < i {
            assert(r[a] == s[a] && r[b] == s[b + 1]);
        } else {
            assert(r[a] == s[a + 1] && r[b] == s[b + 1]);
        }
    }
    lemma_cell_index(s, i);
    assert forall|id: CellId| #[trigger] entries_map(r).contains_key(id) <==> entries_map(
        s,
    ).remove(s[i].0).contains_key(id) by {
        if has_cell(r, id) {
            let k = cell_index(r, id);
            if k < i {
                assert(s[k] == r[k]);
                lemma_cell_index(s, k);
            } else {
                assert(s[k + 1] == r[k]);
                lemma_cell_index(s, k + 1);
            }
        }
        if has_cell(s, id) && id != s[i].0 {
            let k = cell_index(s, id);
            if k < i {
                assert(r[k] == s[k]);
            } else {
                assert(r[k - 1] == s[k]);
            }
        }
    }
    assert forall|id: CellId| #[trigger] entries_map(r).contains_key(id) implies entries_map(
        r,
    )[id] == entries_map(s)[id] by {
        let k = cell_index(r, id);
        lemma_cell_index(r, k);
        if k < i {
            assert(s[k] == r[k]);
            lemma_cell_index(s, k);
        } else {
            assert(s[k + 1] == r[k]);
            lemma_cell_index(s, k + 1);
        }
    }
    assert(entries_map(r) =~= entries_map(s).remove(s[i].0));
}

/// Inserting an entry for a new cell at its place keeps the order and adds
/// the cell to the map.
proof fn lemma_insert_entry(s: Seq<(CellId, CellSortValue)>, e: (CellId, CellSortValue), p: int)
    requires
        entries_sorted(s),
        cells_unique(s),
        !has_cell(s, e.0),
        0 <= p <= s.len(),
        forall|j: int| 0 <= j < p ==> entry_lt(#[trigger] s[j], e),
        forall|j: int| p <= j < s.len() ==> entry_lt(e, #[trigger] s[j]),
    ensures
        entries_sorted(s.insert(p, e)),
        cells_unique(s.insert(p, e)),
        entries_map(s.insert(p, e)) == entries_map(s).insert(e.0, e.1),
{
    let r = s.insert(p, e);
    assert forall|a: int, b: int| 0 <= a < b < r.len() implies entry_lt(
        #[trigger] r[a],
        #[trigger] r[b],
    ) && r[a].0 != r[b].0 by {
        if b < p {
            assert(r[a] == s[a] && r[b] == s[b]);
        } else if b == p {
            assert(r[a] == s[a]);
            assert(0 <= a < s.len() && s[a].0 == s[a].0);
        } else if a == p {
            assert(r[b] == s[b - 1]);
            assert(0 <= b - 1 < s.len() && s[b - 1].0 == s[b - 1].0);
        } else if a < p {
            assert(r[a] == s[a] && r[b] == s[b - 1]);
        } else {
            assert(r[a] == s[a - 1] && r[b] == s[b - 1]);
        }
    }
    assert(r[p] == e);
    lemma_cell_index(r, p);
    assert forall|id: CellId| #[trigger] entries_map(r).contains_key(id) <==> entries_map(
        s,
    ).insert(e.0, e.1).contains_key(id) by {
        if has_cell(r, id) && id != e.0 {
            let k = cell_index(r, id);
            if k < p {
                assert(s[k] == r[k]);
            } else {
                assert(s[k - 1] == r[k]);
            }
        }
        if has_cell(s, id) {
            let k = cell_index(s, id);
            if k < p {
                assert(r[k] == s[k]);
            } else {
                assert(r[k + 1] == s[k]);
            }
        }
    }
    assert forall|id: CellId| #[trigger] entries_map(r).contains_key(id) && id != e.0 implies entries_map(
        r,
    )[id] == entries_map(s)[id] by {
        let k = cell_index(r, id);
        lemma_cell_index(r, k);
        if k < p {
            assert(s[k] == r[k]);
            lemma_cell_index(s, k);
        } else {
            assert(s[k - 1] == r[k]);
            lemma_cell_index(s, k - 1);
        }
    }
    assert(entries_map(r) =~= entries_map(s).insert(e.0, e.1));
}

/// The cells to load, kept as a vector sorted by sort value and cell.
pub struct SortedCells {
    entries: Vec<(CellId, CellSortValue)>,
}

impl View for SortedCells {
    type V = Map<CellId, CellSortValue>;

    closed spec fn view(&self) -> Map<CellId, CellSortValue> {
        entries_map(self.entries@)
    }
}

impl SortedCells {
    /// The entries are kept in order.
    pub closed spec fn wf(&self) -> bool {
        entries_sorted(self.entries@) && cells_unique(self.entries@)
    }

    /// No cell.
    pub fn new() -> (m: Self)
        ensures
            m.wf(),
            m@ == Map::<CellId, CellSortValue>::empty(),
    {
        let m = SortedCells { entries: Vec::new() };
        assert(m@ =~= Map::<CellId, CellSortValue>::empty());
        m
    }

    /// The number of cells.
    pub fn len(&self) -> (n: usize)
        requires
            self.wf(),
        ensures
            self@.dom().finite(),
            n == self@.len(),
    {
        proof {
            lemma_entries_len(self.entries@);
        }
        self.entries.len()
    }

    /// The map of a kept sorted map is finite, with as many cells as entries.
    pub proof fn lemma_finite_len(&self)
        requires
            self.wf(),
        ensures
            self@.dom().finite(),
    {
        lemma_entries_len(self.entries@);
    }

    /// Removes every cell.
    pub fn clear(&mut self)
        ensures
            final(self).wf(),
            final(self)@ == Map::<CellId, CellSortValue>::empty(),
    {
        self.entries.clear();
        assert(self@ =~= Map::<CellId, CellSortValue>::empty());
    }

    /// The position of the entry about `id`, if any.
    fn find(&self, id: &CellId) -> (r: Option<usize>)
        requires
            self.wf(),
        ensures
            r matches Some(i) ==> i < self.entries@.len() && self.entries@[i as int].0 == *id,
            r is None ==> !has_cell(self.entries@, *id),
    {
        let mut i: usize = 0;
        while i < self.entries.len()
            invariant
                i <= self.entries@.len(),
                forall|k: int| 0 <= k < i ==> (#[trigger] self.entries@[k]).0 != *id,
            decreases self.entries@.len() - i,
        {
            let e = self.entries[i].0;
            if e.hierarchy == id.hierarchy && e.index.x == id.index.x && e.index.y == id.index.y
                && e.index.z == id.index.z {
                return Some(i);
            }
            i = i + 1;
        }
        None
    }

    /// Takes a cell out; returns its sort value if it was there.
    pub fn remove(&mut self, id: &CellId) -> (r: Option<CellSortValue>)
        requires
            old(self).wf(),
        ensures
            final(self).wf(),
            final(self)@ == old(self)@.remove(*id),
            old(self)@.contains_key(*id) ==> r == Some(old(self)@[*id]),
            !old(self)@.contains_key(*id) ==> r is None,
    {
        match self.find(id) {
            Some(i) => {
                proof {
                    lemma_cell_index(self.entries@, i as int);
                    lemma_remove_entry(self.entries@, i as int);
                }
                let e = self.entries.remove(i);
                Some(e.1)
            },
            None => {
                assert(self@ =~= old(self)@.remove(*id));
                None
            },
        }
    }

    /// Sets the sort value of a cell, adding the cell if it is not there.
    pub fn insert(&mut self, id: CellId, value: CellSortValue)
        requires
            old(self).wf(),
        ensures
            final(self).wf(),
            final(self)@ == old(self)@.insert(id, value),
    {
        self.remove(&id);
        let ghost s = self.entries@;
        let e = (id, value);
        let mut p: usize = 0;
        while p < self.entries.len()
            invariant
                self.entries@ == s,
                e == (id, value),
                entries_sorted(s),
                cells_unique(s),
                p <= s.len(),
                forall|j: int| 0 <= j < p ==> entry_lt(#[trigger] s[j], e),
            ensures
                p <= s.len(),
                forall|j: int| 0 <= j < p ==> entry_lt(#[trigger] s[j], e),
                p < s.len() ==> !entry_lt(s[p as int], e),
            decreases s.len() - p,
        {
            let entry = self.entries[p];
            let c = entry.0;
            let v = entry.1;
            let before = v.hierarchy < value.hierarchy || (v.hierarchy == value.hierarchy && (
            v.distance_to_camera < value.distance_to_camera || (v.distance_to_camera
                == value.distance_to_camera && (c.hierarchy < id.hierarchy || (c.hierarchy
                == id.hierarchy && (c.index.x < id.index.x || (c.index.x == id.index.x && (c.index.y
                < id.index.y || (c.index.y == id.index.y && c.index.z < id.index.z)))))))));
            assert(before == entry_lt(s[p as int], e));
            if !before {
                break;
            }
            p = p + 1;
        }
        proof {
            assert(!has_cell(s, id)) by {
                if has_cell(s, id) {
                    let k = cell_index(s, id);
                    lemma_cell_index(s, k);
                }
            }
            assert forall|j: int| p <= j < s.len() implies entry_lt(e, #[trigger] s[j]) by {
                if j > p {
                    assert(entry_lt(s[p as int], s[j]));
                }
                lemma_entry_lt_facts(e, s[j]);
                lemma_entry_lt_facts(e, s[p as int]);
            }
            lemma_insert_entry(s, e, p as int);
        }
        self.entries.insert(p, e);
    }

    /// Takes out the cell that comes first: the smallest sort value, and of
    /// those the first cell.
    pub fn pop_first(&mut self) -> (r: Option<(CellId, CellSortValue)>)
        requires
            old(self).wf(),
        ensures
            final(self).wf(),
            old(self)@.dom().finite(),
            final(self)@.dom().finite(),
            old(self)@.len() == 0 ==> r is None,
            r is None ==> final(self)@ == old(self)@ && old(self)@.len() == 0,
            r matches Some(e) ==> is_first(old(self)@, e.0) && e.1 == old(self)@[e.0]
                && final(self)@ == old(self)@.remove(e.0),
    {
        proof {
            lemma_entries_len(self.entries@);
        }
        if self.entries.len() == 0 {
            None
        } else {
            let ghost s = self.entries@;
            proof {
                lemma_cell_index(s, 0);
                lemma_remove_entry(s, 0);
                assert forall|other: CellId| #[trigger]
                    entries_map(s).contains_key(other) && other != s[0].0 implies entry_lt(
                    (s[0].0, entries_map(s)[s[0].0]),
                    (other, entries_map(s)[other]),
                ) by {
                    let k = cell_index(s, other);
                    lemma_cell_index(s, k);
                    assert(k != 0);
                    assert(entry_lt(s[0], s[k]));
                }
            }
            Some(self.entries.remove(0))
        }
    }
}

/// A sorted sequence holds as many entries as its map holds cells.
proof fn lemma_entries_len(s: Seq<(CellId, CellSortValue)>)
    requires
        entries_sorted(s),
        cells_unique(s),
    ensures
        entries_map(s).dom().finite(),
        entries_map(s).len() == s.len(),
    decreases s.len(),
{
    if s.len() == 0 {
        assert(entries_map(s).dom() =~= Set::empty());
    } else {
        let last = s.len() - 1;
        lemma_remove_entry(s, last);
        assert(s.remove(last) =~= s.drop_last());
        lemma_entries_len(s.drop_last());
        lemma_cell_index(s, last);
        assert(entries_map(s).dom() =~= entries_map(s.drop_last()).dom().insert(s[last].0));
    }
}

} // verus!
