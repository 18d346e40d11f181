//! The contents of the buffer that tells the shaders which cells are on
//! screen: the number of cells, then each cell's hierarchy and index, sorted
//! by hierarchy and then by index.
use vstd::prelude::*;

use crate::bytes::{i32_le, push_i32_le, push_u32_le, u32_le};
use crate::cell::CellId;

verus! {

/// Cells ordered by hierarchy, then by the index's `x`, `y` and `z`.
pub open spec fn cell_lt(a: CellId, b: CellId) -> bool {
    a.hierarchy < b.hierarchy || (a.hierarchy == b.hierarchy && (a.index.x < b.index.x || (
    a.index.x == b.index.x && (a.index.y < b.index.y || (a.index.y == b.index.y && a.index.z
        < b.index.z)))))
}

/// Each cell comes no later in the order than those after it.
pub open spec fn cells_sorted(s: Seq<CellId>) -> bool {
    forall|i: int, j: int| 0 <= i < j < s.len() ==> !cell_lt(#[trigger] s[j], #[trigger] s[i])
}

/// The bytes of one cell in the buffer: hierarchy and index, little-endian.
pub open spec fn cell_entry_bytes(id: CellId) -> Seq<u8> {
    u32_le(id.hierarchy) + i32_le(id.index.x) + i32_le(id.index.y) + i32_le(id.index.z)
}

/// The bytes of the cells, one after the other.
pub open spec fn cell_entries_bytes(s: Seq<CellId>) -> Seq<u8>
    decreases s.len(),
{
    if s.len() == 0 {
        Seq::empty()
    } else {
        cell_entries_bytes(s.drop_last()) + cell_entry_bytes(s.last())
    }
}

/// The cells in order; cells that are equal stay together.
pub fn sort_cells(cells: &Vec<CellId>) -> (sorted: Vec<CellId>)
    ensures
        cells_sorted(sorted@),
        sorted@.to_multiset() == cells@.to_multiset(),
{
    let mut out: Vec<CellId> = Vec::new();
    let mut i: usize = 0;
    proof {
        assert(cells@.take(0) =~= out@);
    }
    while i < cells.len()
        invariant
            i <= cells.len(),
            cells_sorted(out@),
            out@.to_multiset() == cells@.take(i as int).to_multiset(),
        decreases cells.len() - i,
    {
        let c = cells[i];
        let mut p: usize = 0;
        while p < out.len()
            invariant
                p <= out.len(),
                cells_sorted(out@),
                forall|q: int| 0 <= q < p ==> !cell_lt(c, #[trigger] out@[q]),
            ensures
                p <= out.len(),
                forall|q: int| 0 <= q < p ==> !cell_lt(c, #[trigger] out@[q]),
                p < out.len() ==> cell_lt(c, out@[p as int]),
            decreases out.len() - p,
        {
            let o = out[p];
            let later = c.hierarchy < o.hierarchy || (c.hierarchy == o.hierarchy && (c.index.x
                < o.index.x || (c.index.x == o.index.x && (c.index.y < o.index.y || (c.index.y
                == o.index.y && c.index.z < o.index.z)))));
            if later {
                break;
            }
            p = p + 1;
        }
        proof {
            let s = out@;
            let r = s.insert(p as int, c);
            assert forall|a: int, b: int| 0 <= a < b < r.len() implies !cell_lt(
                #[trigger] r[b],
                #[trigger] r[a],
            ) by {
                if b < p {
                    assert(r[a] == s[a] && r[b] == s[b]);
                } else if b == p {
                    assert(r[a] == s[a]);
                } else if a < p {
                    assert(r[a] == s[a] && r[b] == s[b - 1]);
                    assert(!cell_lt(s[b - 1], s[p as int]));
                } else if a == p {
                    assert(r[b] == s[b - 1]);
                    assert(!cell_lt(s[b - 1], s[p as int]));
                } else {
                    assert(r[a] == s[a - 1] && r[b] == s[b - 1]);
                }
            }
            vstd::seq_lib::to_multiset_insert(s, p as int, c);
            assert(cells@.take(i + 1) =~= cells@.take(i as int).push(c));
            vstd::seq_lib::to_multiset_build(cells@.take(i as int), c);
        }
        out.insert(p, c);
        i = i + 1;
    }
    proof {
        assert(cells@.take(cells@.len() as int) =~= cells@);
    }
    out
}

/// Appends the bytes of one cell.
fn push_cell(out: &mut Vec<u8>, id: CellId)
    ensures
        final(out)@ == old(out)@ + cell_entry_bytes(id),
{
    push_u32_le(out, id.hierarchy);
    push_i32_le(out, id.index.x);
    push_i32_le(out, id.index.y);
    push_i32_le(out, id.index.z);
    assert(final(out)@ =~= old(out)@ + cell_entry_bytes(id));
}

/// What to write into the buffer of loaded cells, and the capacity of a
/// larger buffer when the cells no longer fit: their number and 50 more.
pub struct LoadedCellsUpdate {
    pub bytes: Vec<u8>,
    pub new_capacity: Option<usize>,
}

/// The contents of the buffer of loaded cells: their number (cut to 32 bits),
/// then the cells sorted by hierarchy and index. A buffer with room for
/// `capacity` cells that is too small is replaced by a larger one.
pub fn update_loaded_cells_buffer(cells: &Vec<CellId>, capacity: usize) -> (u: LoadedCellsUpdate)
    requires
        cells@.len() + 50 <= usize::MAX,
    ensures
        exists|s: Seq<CellId>|
            cells_sorted(s) && s.to_multiset() == cells@.to_multiset() && u.bytes@ == u32_le(
                cells@.len() as u32,
            ) + cell_entries_bytes(s),
        cells@.len() > capacity ==> u.new_capacity == Some((cells@.len() + 50) as usize),
        cells@.len() <= capacity ==> u.new_capacity is None,
{
    let sorted = sort_cells(cells);
    let new_capacity = if cells.len() > capacity {
        Some(cells.len() + 50)
    } else {
        None
    };
    let mut bytes: Vec<u8> = Vec::new();
    push_u32_le(&mut bytes, cells.len() as u32);
    let ghost head = bytes@;
    let mut i: usize = 0;
    while i < sorted.len()
        invariant
            i <= sorted.len(),
            bytes@ == head + cell_entries_bytes(sorted@.take(i as int)),
        decreases sorted.len() - i,
    {
        push_cell(&mut bytes, sorted[i]);
        proof {
            assert(sorted@.take(i + 1).drop_last() =~= sorted@.take(i as int));
            assert(bytes@ =~= head + cell_entries_bytes(sorted@.take(i + 1)));
        }
        i = i + 1;
    }
    proof {
        assert(sorted@.take(sorted@.len() as int) =~= sorted@);
        assert(sorted@.to_multiset().len() == cells@.to_multiset().len());
    }
    LoadedCellsUpdate { bytes, new_capacity }
}

/// Each cell has a hierarchy no greater than those after it.
pub open spec fn sorted_by_hierarchy(s: Seq<CellId>) -> bool {
    forall|i: int, j: int| 0 <= i < j < s.len() ==> (#[trigger] s[i]).hierarchy <= (#[trigger] s[j]).hierarchy
}

/// The contents of the buffer of visible cells: their number (cut to 32
/// bits), then the cells, coarser hierarchies first; within a hierarchy the
/// order is left open. A buffer with room for `capacity` cells that is too
/// small is replaced by a larger one.
pub fn update_visible_cells_buffer(cells: &Vec<CellId>, capacity: usize) -> (u: LoadedCellsUpdate)
    requires
        cells@.len() + 50 <= usize::MAX,
    ensures
        exists|s: Seq<CellId>|
            sorted_by_hierarchy(s) && s.to_multiset() == cells@.to_multiset() && u.bytes@
                == u32_le(cells@.len() as u32) + cell_entries_bytes(s),
        cells@.len() > capacity ==> u.new_capacity == Some((cells@.len() + 50) as usize),
        cells@.len() <= capacity ==> u.new_capacity is None,
{
    let u = update_loaded_cells_buffer(cells, capacity);
    proof {
        let s = choose|s: Seq<CellId>|
            cells_sorted(s) && s.to_multiset() == cells@.to_multiset() && u.bytes@ == u32_le(
                cells@.len() as u32,
            ) + cell_entries_bytes(s);
        assert(sorted_by_hierarchy(s)) by {
            assert forall|i: int, j: int| 0 <= i < j < s.len() implies (#[trigger] s[i]).hierarchy
                <= (#[trigger] s[j]).hierarchy by {
                assert(!cell_lt(s[j], s[i]));
            }
        }
    }
    u
}

/// Law: sorted sequences of the same cells are the same sequence, so the
/// contents of the buffer are determined by the cells alone.
pub proof fn lemma_sorted_cells_unique(s: Seq<CellId>, t: Seq<CellId>)
    requires
        cells_sorted(s),
        cells_sorted(t),
        s.to_multiset() == t.to_multiset(),
    ensures
        s == t,
    decreases s.len(),
{
    broadcast use vstd::seq_lib::group_to_multiset_ensures;

    vstd::seq_lib::to_multiset_len(s);
    vstd::seq_lib::to_multiset_len(t);
    if s.len() > 0 {
        let (a, b) = (s.last(), t.last());
        assert(s.to_multiset().count(a) > 0);
        assert(t.contains(a));
        assert(t.to_multiset().count(b) > 0);
        assert(s.contains(b));
        let i = choose|i: int| 0 <= i < t.len() && t[i] == a;
        let j = choose|j: int| 0 <= j < s.len() && s[j] == b;
        if i < t.len() - 1 {
            assert(!cell_lt(b, a));
        }
        if j < s.len() - 1 {
            assert(!cell_lt(a, b));
        }
        assert(a == b);
        vstd::seq_lib::to_multiset_remove(s, s.len() - 1);
        vstd::seq_lib::to_multiset_remove(t, t.len() - 1);
        assert(s.remove(s.len() - 1) =~= s.drop_last());
        assert(t.remove(t.len() - 1) =~= t.drop_last());
        lemma_sorted_cells_unique(s.drop_last(), t.drop_last());
        assert(s =~= t.drop_last().push(b));
    }
}

} // verus!
