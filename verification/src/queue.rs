//! The cells that should be loaded, as a set ordered by hierarchy first,
//! then by priority (the squared distance to the camera), then by cell.
//!
//! The set holds each cell at most once: a cell that is there is not
//! inserted again, and a removal takes out the entry of that cell.
use vstd::prelude::*;

use crate::cell::CellId;
use crate::cellbuffer::cell_lt;

verus! {

/// A cell that should be loaded, with its priority.
#[derive(Debug, Clone, Copy)]
pub struct CellToLoad {
    pub id: CellId,
    pub priority: u32,
}

/// The order of entries: hierarchy, then priority, then cell.
pub open spec fn load_lt(a: CellToLoad, b: CellToLoad) -> bool {
    a.id.hierarchy < b.id.hierarchy || (a.id.hierarchy == b.id.hierarchy && (a.priority
        < b.priority || (a.priority == b.priority && cell_lt(a.id, b.id))))
}

/// Each entry comes before those after it.
pub open spec fn strictly_sorted(s: Seq<CellToLoad>) -> bool {
    forall|i: int, j: int| 0 <= i < j < s.len() ==> load_lt(#[trigger] s[i], #[trigger] s[j])
}

/// No two entries are about the same cell.
pub open spec fn ids_unique(s: Seq<CellToLoad>) -> bool {
    forall|i: int, j: int| 0 <= i < j < s.len() ==> (#[trigger] s[i]).id != (#[trigger] s[j]).id
}

/// Some entry is about the cell `id`.
pub open spec fn has_id(s: Seq<CellToLoad>, id: CellId) -> bool {
    exists|i: int| 0 <= i < s.len() && (#[trigger] s[i]).id == id
}

/// The position of the entry about the cell `id`.
pub open spec fn id_index(s: Seq<CellToLoad>, id: CellId) -> int {
    choose|i: int| 0 <= i < s.len() && (#[trigger] s[i]).id == id
}

/// `c` put into `s` after the entries that come before it.
pub open spec fn sorted_insert(s: Seq<CellToLoad>, c: CellToLoad) -> Seq<CellToLoad>
    decreases s.len(),
{
    if s.len() == 0 {
        seq![c]
    } else if load_lt(s.last(), c) {
        s.push(c)
    } else {
        sorted_insert(s.drop_last(), c).push(s.last())
    }
}

/// Insertion into the ordered set: nothing changes where the cell is present.
pub open spec fn queue_insert(s: Seq<CellToLoad>, c: CellToLoad) -> Seq<CellToLoad> {
    if has_id(s, c.id) {
        s
    } else {
        sorted_insert(s, c)
    }
}

/// Removal from the ordered set of the entry about the cell `id`, if any.
pub open spec fn queue_remove(s: Seq<CellToLoad>, id: CellId) -> Seq<CellToLoad> {
    if has_id(s, id) {
        s.remove(id_index(s, id))
    } else {
        s
    }
}

/// The order is strict and total: distinct entries are ordered one way.
proof fn lemma_load_lt(a: CellToLoad, b: CellToLoad)
    ensures
        !(load_lt(a, b) && load_lt(b, a)),
        !load_lt(a, a),
        a.id != b.id ==> load_lt(a, b) || load_lt(b, a),
{
}

/// Law: the order of entries is a strict total order. No entry comes before
/// itself, two entries are never each before the other, it is transitive, and
/// two entries are unordered only when they are about the same cell with the
/// same priority. Entries of different hierarchies or priorities are ordered
/// by hierarchy, then priority; only a tie of both falls back to the cell.
pub proof fn lemma_load_order(a: CellToLoad, b: CellToLoad, c: CellToLoad)
    ensures
        !load_lt(a, a),
        !(load_lt(a, b) && load_lt(b, a)),
        load_lt(a, b) && load_lt(b, c) ==> load_lt(a, c),
        (!load_lt(a, b) && !load_lt(b, a)) <==> (a.id == b.id && a.priority == b.priority),
        (a.id.hierarchy != b.id.hierarchy || a.priority != b.priority) ==> (load_lt(a, b) <==> (
        a.id.hierarchy < b.id.hierarchy || (a.id.hierarchy == b.id.hierarchy && a.priority
            < b.priority))),
{
    if !load_lt(a, b) && !load_lt(b, a) {
        assert(a.id.index == b.id.index);
    }
}

/// Inserting `c` in order adds its cell to those the sequence is about.
pub proof fn lemma_sorted_insert_has_id(s: Seq<CellToLoad>, c: CellToLoad, id: CellId)
    ensures
        has_id(sorted_insert(s, c), id) == (has_id(s, id) || id == c.id),
    decreases s.len(),
{
    let r = sorted_insert(s, c);
    if s.len() == 0 {
        assert(r[0] == c);
    } else if load_lt(s.last(), c) {
        assert(r[s.len() as int] == c);
        if has_id(s, id) {
            let i = choose|i: int| 0 <= i < s.len() && (#[trigger] s[i]).id == id;
            assert(r[i] == s[i]);
        }
        if has_id(r, id) {
            let i = choose|i: int| 0 <= i < r.len() && (#[trigger] r[i]).id == id;
            if i < s.len() {
                assert(s[i] == r[i]);
            }
        }
    } else {
        let t = s.drop_last();
        lemma_sorted_insert_has_id(t, c, id);
        let rt = sorted_insert(t, c);
        assert(r == rt.push(s.last()));
        if has_id(s, id) {
            let i = choose|i: int| 0 <= i < s.len() && (#[trigger] s[i]).id == id;
            if i < t.len() {
                assert(t[i] == s[i]);
            } else {
                assert(r[rt.len() as int] == s.last());
            }
        }
        if has_id(rt, id) {
            let i = choose|i: int| 0 <= i < rt.len() && (#[trigger] rt[i]).id == id;
            assert(r[i] == rt[i]);
        }
        if has_id(r, id) {
            let i = choose|i: int| 0 <= i < r.len() && (#[trigger] r[i]).id == id;
            if i < rt.len() {
                assert(rt[i] == r[i]);
            } else {
                assert(s[s.len() - 1] == s.last());
            }
        }
        if has_id(t, id) {
            let i = choose|i: int| 0 <= i < t.len() && (#[trigger] t[i]).id == id;
            assert(s[i] == t[i]);
        }
    }
}

/// Inserting `c` in order adds `c` to the entries.
pub proof fn lemma_sorted_insert_contains(s: Seq<CellToLoad>, c: CellToLoad, x: CellToLoad)
    ensures
        sorted_insert(s, c).contains(x) == (s.contains(x) || x == c),
    decreases s.len(),
{
    let r = sorted_insert(s, c);
    if s.len() == 0 {
        assert(r[0] == c);
    } else if load_lt(s.last(), c) {
        assert(r[s.len() as int] == c);
        if s.contains(x) {
            let i = choose|i: int| 0 <= i < s.len() && s[i] == x;
            assert(r[i] == s[i]);
        }
        if r.contains(x) {
            let i = choose|i: int| 0 <= i < r.len() && r[i] == x;
            if i < s.len() {
                assert(s[i] == r[i]);
            }
        }
    } else {
        let t = s.drop_last();
        lemma_sorted_insert_contains(t, c, x);
        let rt = sorted_insert(t, c);
        assert(r == rt.push(s.last()));
        if s.contains(x) {
            let i = choose|i: int| 0 <= i < s.len() && s[i] == x;
            if i < t.len() {
                assert(t[i] == s[i]);
            } else {
                assert(r[rt.len() as int] == s.last());
            }
        }
        if rt.contains(x) {
            let i = choose|i: int| 0 <= i < rt.len() && rt[i] == x;
            assert(r[i] == rt[i]);
        }
        if r.contains(x) {
            let i = choose|i: int| 0 <= i < r.len() && r[i] == x;
            if i < rt.len() {
                assert(rt[i] == r[i]);
            } else {
                assert(s[s.len() - 1] == s.last());
            }
        }
        if t.contains(x) {
            let i = choose|i: int| 0 <= i < t.len() && t[i] == x;
            assert(s[i] == t[i]);
        }
    }
}

/// Law: an insertion adds no entry but the one inserted, if any.
pub proof fn lemma_queue_insert_contains(s: Seq<CellToLoad>, c: CellToLoad, x: CellToLoad)
    ensures
        queue_insert(s, c).contains(x) ==> s.contains(x) || x == c,
{
    lemma_sorted_insert_contains(s, c, x);
}

/// Law: after an insertion the set is about the cells it was about and the
/// inserted one; after a removal by cell, about the same cells but perhaps
/// the removed one.
pub proof fn lemma_queue_has_id(s: Seq<CellToLoad>, c: CellToLoad, x: CellId, id: CellId)
    ensures
        has_id(queue_insert(s, c), id) == (has_id(s, id) || id == c.id),
        id != x ==> has_id(queue_remove(s, x), id) == has_id(s, id),
        has_id(queue_remove(s, x), id) ==> has_id(s, id),
{
    lemma_sorted_insert_has_id(s, c, id);
    if has_id(s, x) {
        let k = id_index(s, x);
        let r = s.remove(k);
        if has_id(r, id) {
            let i = choose|i: int| 0 <= i < r.len() && (#[trigger] r[i]).id == id;
            if i < k {
                assert(s[i] == r[i]);
            } else {
                assert(s[i + 1] == r[i]);
            }
        }
        if id != x && has_id(s, id) {
            let i = choose|i: int| 0 <= i < s.len() && (#[trigger] s[i]).id == id;
            assert(i != k);
            if i < k {
                assert(r[i] == s[i]);
            } else {
                assert(r[i - 1] == s[i]);
            }
        }
    }
}

/// A cell is at one position only.
pub proof fn lemma_id_index(s: Seq<CellToLoad>, i: int)
    requires
        ids_unique(s),
        0 <= i < s.len(),
    ensures
        has_id(s, s[i].id),
        id_index(s, s[i].id) == i,
{
    assert(0 <= i < s.len() && s[i].id == s[i].id);
    let j = id_index(s, s[i].id);
    if j < i {
        assert(s[j].id != s[i].id);
    } else if j > i {
        assert(s[i].id != s[j].id);
    }
}

/// Inserting a new cell between the entries before and after it is
/// `sorted_insert`, and keeps the sequence sorted with each cell once.
pub proof fn lemma_sorted_insert(s: Seq<CellToLoad>, c: CellToLoad, p: int)
    requires
        strictly_sorted(s),
        ids_unique(s),
        !has_id(s, c.id),
        0 <= p <= s.len(),
        forall|j: int| 0 <= j < p ==> load_lt(#[trigger] s[j], c),
        forall|j: int| p <= j < s.len() ==> load_lt(c, #[trigger] s[j]),
    ensures
        sorted_insert(s, c) == s.insert(p, c),
        strictly_sorted(s.insert(p, c)),
        ids_unique(s.insert(p, c)),
    decreases s.len(),
{
    if s.len() == 0 {
        assert(s.insert(p, c) =~= seq![c]);
    } else if load_lt(s.last(), c) {
        if p < s.len() {
            assert(load_lt(c, s[s.len() - 1]));
            lemma_load_lt(c, s[s.len() - 1]);
        }
        assert(s.insert(p, c) =~= s.push(c));
    } else {
        if p == s.len() {
            assert(load_lt(s[s.len() - 1], c));
        }
        let t = s.drop_last();
        assert(strictly_sorted(t));
        assert(ids_unique(t));
        assert(!has_id(t, c.id)) by {
            if has_id(t, c.id) {
                let k = choose|k: int| 0 <= k < t.len() && (#[trigger] t[k]).id == c.id;
                assert(s[k] == t[k]);
            }
        }
        assert forall|j: int| 0 <= j < p implies load_lt(#[trigger] t[j], c) by {
            assert(t[j] == s[j]);
        }
        assert forall|j: int| p <= j < t.len() implies load_lt(c, #[trigger] t[j]) by {
            assert(t[j] == s[j]);
        }
        lemma_sorted_insert(t, c, p);
        assert(t.insert(p, c).push(s.last()) =~= s.insert(p, c));
    }
    let r = s.insert(p, c);
    assert forall|i: int, j: int| 0 <= i < j < r.len() implies load_lt(
        #[trigger] r[i],
        #[trigger] r[j],
    ) && r[i].id != r[j].id by {
        if i < p && j > p {
            assert(r[i] == s[i] && r[j] == s[j - 1]);
        } else if i < p && j == p {
            assert(r[i] == s[i]);
            assert(0 <= i < s.len() && s[i].id == s[i].id);
        } else if i == p {
            assert(r[j] == s[j - 1]);
            assert(0 <= j - 1 < s.len() && s[j - 1].id == s[j - 1].id);
        } else if j < p {
            assert(r[i] == s[i] && r[j] == s[j]);
        } else {
            assert(r[i] == s[i - 1] && r[j] == s[j - 1]);
        }
    }
}

/// Removing an entry keeps a sequence sorted with each cell once.
pub proof fn lemma_remove_sorted(s: Seq<CellToLoad>, i: int)
    requires
        strictly_sorted(s),
        ids_unique(s),
        0 <= i < s.len(),
    ensures
        strictly_sorted(s.remove(i)),
        ids_unique(s.remove(i)),
{
    let r = s.remove(i);
    assert forall|a: int, b: int| 0 <= a < b < r.len() implies load_lt(
        #[trigger] r[a],
        #[trigger] r[b],
    ) && r[a].id != r[b].id by {
        if b < i {
            assert(r[a] == s[a] && r[b] == s[b]);
        } else if a < i {
            assert(r[a] == s[a] && r[b] == s[b + 1]);
        } else {
            assert(r[a] == s[a + 1] && r[b] == s[b + 1]);
        }
    }
}

/// The ordered set of cells to load, kept as a sorted vector.
pub struct LoadQueue {
    entries: Vec<CellToLoad>,
}

impl View for LoadQueue {
    type V = Seq<CellToLoad>;

    closed spec fn view(&self) -> Seq<CellToLoad> {
        self.entries@
    }
}

impl LoadQueue {
    /// The entries are sorted, and each is about another cell.
    pub open spec fn wf(&self) -> bool {
        strictly_sorted(self@) && ids_unique(self@)
    }

    /// An empty set.
    pub fn new() -> (q: Self)
        ensures
            q.wf(),
            q@ == Seq::<CellToLoad>::empty(),
    {
        LoadQueue { entries: Vec::new() }
    }

    /// The number of entries.
    pub fn len(&self) -> (n: usize)
        ensures
            n == self@.len(),
    {
        self.entries.len()
    }

    /// Removes every entry.
    pub fn clear(&mut self)
        ensures
            final(self).wf(),
            final(self)@ == Seq::<CellToLoad>::empty(),
    {
        self.entries.clear();
    }

    /// The position of the entry about the cell `id`, if any.
    fn find(&self, id: &CellId) -> (r: Option<usize>)
        ensures
            r matches Some(i) ==> i < self@.len() && self@[i as int].id == *id,
            r is None ==> !has_id(self@, *id),
    {
        let mut i: usize = 0;
        while i < self.entries.len()
            invariant
                i <= self@.len(),
                forall|k: int| 0 <= k < i ==> (#[trigger] self@[k]).id != *id,
            decreases self@.len() - i,
        {
            let e = self.entries[i].id;
            if e.hierarchy == id.hierarchy && e.index.x == id.index.x && e.index.y == id.index.y
                && e.index.z == id.index.z {
                return Some(i);
            }
            i = i + 1;
        }
        None
    }

    /// The number of entries that come before `c`.
    fn position(&self, c: &CellToLoad) -> (p: usize)
        requires
            self.wf(),
        ensures
            p <= self@.len(),
            forall|j: int| 0 <= j < p ==> load_lt(#[trigger] self@[j], *c),
            forall|j: int| p <= j < self@.len() ==> !load_lt(#[trigger] self@[j], *c),
    {
        let mut i: usize = 0;
        while i < self.entries.len()
            invariant
                self.wf(),
                i <= self@.len(),
                forall|j: int| 0 <= j < i ==> load_lt(#[trigger] self@[j], *c),
            ensures
                i <= self@.len(),
                forall|j: int| 0 <= j < i ==> load_lt(#[trigger] self@[j], *c),
                i < self@.len() ==> !load_lt(self@[i as int], *c),
            decreases self@.len() - i,
        {
            let e = self.entries[i];
            let before = e.id.hierarchy < c.id.hierarchy || (e.id.hierarchy == c.id.hierarchy && (
            e.priority < c.priority || (e.priority == c.priority && (e.id.index.x < c.id.index.x || (
            e.id.index.x == c.id.index.x && (e.id.index.y < c.id.index.y || (e.id.index.y
                == c.id.index.y && e.id.index.z < c.id.index.z)))))));
            if !before {
                break;
            }
            i = i + 1;
        }
        let ghost s = self@;
        assert forall|j: int| i <= j < s.len() implies !load_lt(#[trigger] s[j], *c) by {
            if j > i {
                assert(load_lt(s[i as int], s[j]));
                lemma_load_lt(s[j], *c);
            }
        }
        i
    }

    /// Removes the entry about the cell of `c`. Returns whether there was one.
    pub fn remove(&mut self, c: &CellToLoad) -> (removed: bool)
        requires
            old(self).wf(),
        ensures
            final(self).wf(),
            removed == has_id(old(self)@, c.id),
            final(self)@ == queue_remove(old(self)@, c.id),
    {
        match self.find(&c.id) {
            Some(i) => {
                proof {
                    lemma_id_index(self@, i as int);
                    lemma_remove_sorted(self@, i as int);
                }
                self.entries.remove(i);
                true
            },
            None => false,
        }
    }

    /// Inserts `c` unless an entry about its cell is present. Returns whether
    /// it was inserted.
    pub fn insert(&mut self, c: CellToLoad) -> (inserted: bool)
        requires
            old(self).wf(),
        ensures
            final(self).wf(),
            inserted == !has_id(old(self)@, c.id),
            final(self)@ == queue_insert(old(self)@, c),
    {
        if self.find(&c.id).is_some() {
            return false;
        }
        let p = self.position(&c);
        proof {
            let s = self@;
            assert forall|j: int| p <= j < s.len() implies load_lt(c, #[trigger] s[j]) by {
                lemma_load_lt(c, s[j]);
                if s[j].id == c.id {
                    assert(has_id(s, c.id));
                }
            }
            lemma_sorted_insert(s, c, p as int);
        }
        self.entries.insert(p, c);
        true
    }

    /// Takes out the entry that comes first.
    pub fn pop_first(&mut self) -> (r: Option<CellToLoad>)
        requires
            old(self).wf(),
        ensures
            final(self).wf(),
            old(self)@.len() == 0 ==> r is None && final(self)@ == old(self)@,
            old(self)@.len() > 0 ==> r == Some(old(self)@[0]) && final(self)@ == old(self)@.drop_first(),
    {
        if self.entries.len() == 0 {
            None
        } else {
            proof {
                lemma_remove_sorted(self@, 0);
                assert(self@.remove(0) =~= self@.drop_first());
            }
            Some(self.entries.remove(0))
        }
    }
}

} // verus!
