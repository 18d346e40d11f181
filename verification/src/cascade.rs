//! Sorting a batch of points down the cell hierarchy, one cell at a time.
//!
//! The points of a hierarchy level come grouped by cell. Each cell takes its
//! group and hands on what it cannot keep, grouped by the cells of the next
//! level; once every cell of a level is filled, the points handed on are
//! sorted into the next level in the same way, until none are left. Loading
//! and saving the cells, and the floating-point work of filling one, are the
//! caller's: it asks for the next cell to fill and hands the rest back.
use vstd::prelude::*;

use crate::cell::{merge_point_maps, merged, CellId, CellIndex};
use crate::fxmap::{
    empty_groups, groups_contents, groups_into_entries, groups_len, groups_new, lists_map,
    seq_entries, PointGroups,
};
use crate::point::Point;

verus! {

/// What to do next: fill a cell with a group of points, or nothing more.
#[derive(Debug)]
pub enum CascadeStep {
    Fill(CellId, Vec<Point>),
    Done,
}

/// The state of sorting a batch down the hierarchy: the level being filled,
/// the groups of that level not given to their cell yet, and the points
/// handed on to the next level so far.
pub struct Cascade {
    level: u32,
    pending: Vec<(CellIndex, Vec<Point>)>,
    next: PointGroups,
}

impl Cascade {
    /// The hierarchy level being filled.
    pub closed spec fn spec_level(&self) -> u32 {
        self.level
    }

    /// The groups of this level still to be given to their cells.
    pub closed spec fn pending(&self) -> Seq<(CellIndex, Seq<Point>)> {
        seq_entries(self.pending@)
    }

    /// The points handed on to the next level, by cell.
    pub closed spec fn next(&self) -> Map<CellIndex, Seq<Point>> {
        groups_contents(self.next)
    }

    /// The points handed on are finitely many groups.
    pub open spec fn wf(&self) -> bool {
        self.next().dom().finite()
    }

    /// Starts with the groups of points of level `level`, in some order.
    pub fn new(level: u32, groups: PointGroups) -> (c: Self)
        ensures
            c.wf(),
            c.spec_level() == level,
            lists_map(c.pending(), groups_contents(groups)),
            c.next() == empty_groups(),
    {
        Cascade { level, pending: groups_into_entries(groups), next: groups_new() }
    }

    /// The hierarchy level being filled.
    pub fn level(&self) -> (l: u32)
        ensures
            l == self.spec_level(),
    {
        self.level
    }

    /// Whether the next step can be taken: moving on to the next level needs
    /// a level number that fits in a `u32`.
    pub fn can_step(&self) -> (r: bool)
        requires
            self.wf(),
        ensures
            r == (self.pending().len() == 0 && self.next().len() > 0 ==> self.spec_level() < u32::MAX),
    {
        self.pending.len() > 0 || groups_len(&self.next) == 0 || self.level < u32::MAX
    }

    /// Takes the points that the last filled cell hands on to the next level.
    pub fn hand_on(&mut self, remaining: PointGroups)
        requires
            old(self).wf(),
        ensures
            final(self).wf(),
            final(self).spec_level() == old(self).spec_level(),
            final(self).pending() == old(self).pending(),
            final(self).next() == merged(old(self).next(), groups_contents(remaining)),
    {
        merge_point_maps(&mut self.next, remaining);
    }

    /// The next cell to fill. While groups of this level remain, the last of
    /// them goes to its cell. Once none remain, the points handed on become
    /// the groups of the next level, in some order, and the first of them is
    /// given out; with none handed on either, the batch is done.
    pub fn step(&mut self) -> (s: CascadeStep)
        requires
            old(self).wf(),
            old(self).pending().len() == 0 && old(self).next().len() > 0 ==> old(self).spec_level()
                < u32::MAX,
        ensures
            final(self).wf(),
            old(self).pending().len() > 0 ==> {
                &&& s matches CascadeStep::Fill(id, points) && id == (CellId {
                    hierarchy: old(self).spec_level(),
                    index: old(self).pending().last().0,
                }) && points@ == old(self).pending().last().1
                &&& final(self).pending() == old(self).pending().drop_last()
                &&& final(self).next() == old(self).next()
                &&& final(self).spec_level() == old(self).spec_level()
            },
            old(self).pending().len() == 0 && old(self).next().len() == 0 ==> {
                &&& s is Done
                &&& final(self).pending() == old(self).pending()
                &&& final(self).next() == old(self).next()
                &&& final(self).spec_level() == old(self).spec_level()
            },
            old(self).pending().len() == 0 && old(self).next().len() > 0 ==> {
                &&& final(self).spec_level() == old(self).spec_level() + 1
                &&& final(self).next() == empty_groups()
                &&& exists|l: Seq<(CellIndex, Seq<Point>)>|
                    {
                        &&& lists_map(l, old(self).next())
                        &&& l.len() > 0
                        &&& final(self).pending() == l.drop_last()
                        &&& s matches CascadeStep::Fill(id, points) && id == (CellId {
                            hierarchy: final(self).spec_level(),
                            index: l.last().0,
                        }) && points@ == l.last().1
                    }
            },
    {
        if self.pending.len() == 0 {
            if groups_len(&self.next) == 0 {
                return CascadeStep::Done;
            }
            let mut next = groups_new();
            std::mem::swap(&mut next, &mut self.next);
            self.pending = groups_into_entries(next);
            self.level = self.level + 1;
        }
        let ghost before = self.pending();
        match self.pending.pop() {
            Some((index, points)) => {
                proof {
                    assert(self.pending() =~= before.drop_last());
                }
                CascadeStep::Fill(CellId { hierarchy: self.level, index }, points)
            },
            None => CascadeStep::Done,
        }
    }
}

} // verus!
