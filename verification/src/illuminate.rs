//! The illumination planner: walks the carved passages and places lights whose
//! footprints never overlap.

use crate::cell::{CellPos, CellState};
use crate::grid::Maze;
use crate::lighting::{overlaps, seen_through, Walk, LIGHT_SPACING};
use crate::seqs::{filter_new, holds};
use vstd::prelude::*;

verus! {

/// The cells of `far` whose midpoint with `center` is in `near`, in their
/// order.
fn filter_seen(far: &Vec<CellPos>, center: CellPos, near: &Vec<CellPos>) -> (kept: Vec<CellPos>)
    ensures
        kept@ == seen_through(far@, center, near@),
{
    let mut kept: Vec<CellPos> = Vec::new();
    let mut i: usize = 0;
    while i < far.len()
        invariant
            i <= far.len(),
            kept@ == seen_through(far@.take(i as int), center, near@),
        decreases far.len() - i,
    {
        let q = far[i];
        proof {
            assert(far@.take(i + 1).drop_last() =~= far@.take(i as int));
            assert(far@.take(i + 1).last() == q);
        }
        if holds(near, center.midpoint(q)) {
            kept.push(q);
        }
        i = i + 1;
    }
    assert(far@.take(far.len() as int) =~= far@);
    kept
}

/// Whether some cell of `cover` is in `lit`.
fn any_lit(cover: &Vec<CellPos>, lit: &Vec<CellPos>) -> (found: bool)
    ensures
        found == overlaps(cover@, lit@),
{
    let mut i: usize = 0;
    while i < cover.len()
        invariant
            i <= cover.len(),
            forall|j: int| 0 <= j < i ==> !lit@.contains(#[trigger] cover@[j]),
        decreases cover.len() - i,
    {
        if holds(lit, cover[i]) {
            return true;
        }
        i = i + 1;
    }
    false
}

impl Maze {
    /// The footprint of a light at `center`, but for `center` itself: the
    /// passages one step away along an axis, the carved cells one step away
    /// diagonally, and the passages two steps away along an axis whose
    /// midpoint with `center` is among the former.
    pub fn light_footprint(&self, center: CellPos) -> (cover: Vec<CellPos>)
        ensures
            cover@ == self@.footprint(center),
    {
        let mut neighbors = self.get_adjcells(center, CellState::Passage, 1);
        self.get_diagonal_cells(&mut neighbors, center);
        let far = self.get_adjcells(center, CellState::Passage, 2);
        let mut seen = filter_seen(&far, center, &neighbors);
        neighbors.append(&mut seen);
        neighbors
    }

    /// Places the lights: walks depth-first over the passages from the cell
    /// at `(1, 1)` and lights the visited cell whenever four steps or more
    /// have passed since the last light, the cell is not covered yet, and its
    /// footprint touches nothing covered. Only passages change, and only into
    /// lights; where the grid had no light before, no cell ends up covered by
    /// two.
    pub fn generate_light(&mut self)
        requires
            old(self).wf(),
        ensures
            final(self)@ == old(self)@.lit(),
            final(self).wf(),
            old(self)@.lit_into(final(self)@),
            old(self)@.unlit() ==> final(self)@.lights_apart(),
    {
        let mut stack: Vec<CellPos> = Vec::new();
        let mut visited: Vec<CellPos> = Vec::new();
        let mut lit: Vec<CellPos> = Vec::new();
        stack.push(CellPos(1, 1));
        let mut steps: usize = 0;
        let ghost origin = self@;
        proof {
            assert(stack@ =~= seq![CellPos(1, 1)]);
            Walk::lemma_begin(origin);
        }
        while stack.len() > 0
            invariant
                self.walk(stack@, visited@, lit@, steps).sound(origin),
                origin.unlit() ==> self.walk(stack@, visited@, lit@, steps).spaced(),
                self.walk(stack@, visited@, lit@, steps).finish() == origin.lit(),
            decreases
                    self.walk(stack@, visited@, lit@, steps).unvisited().len(),
                    self.walk(stack@, visited@, lit@, steps).revisits(),
                    stack@.len(),
        {
            let ghost before = self.walk(stack@, visited@, lit@, steps);
            proof {
                before.lemma_step_closer();
                before.lemma_step_sound(origin);
                if origin.unlit() {
                    before.lemma_step_spaced(origin);
                }
            }
            let here = stack.pop().unwrap();
            visited.push(here);
            let around = self.get_adjcells(here, CellState::Passage, 1);
            let mut neighbors = filter_new(&around, &visited);
            stack.append(&mut neighbors);
            assert(steps < visited.len());
            steps = steps + 1;
            if steps >= LIGHT_SPACING && !holds(&lit, here) {
                let mut cover = self.light_footprint(here);
                if !any_lit(&cover, &lit) {
                    let _ = self.set(here, CellState::Light);
                    lit.append(&mut cover);
                    lit.push(here);
                    steps = 0;
                }
            }
            assert(self.walk(stack@, visited@, lit@, steps) == before.step());
        }
    }

    /// The maze together with the bookkeeping of a walk, as a walk in
    /// progress.
    pub open spec fn walk(
        &self,
        stack: Seq<CellPos>,
        visited: Seq<CellPos>,
        lit: Seq<CellPos>,
        steps: usize,
    ) -> Walk {
        Walk { grid: self@, stack, visited, lit, steps: steps as nat }
    }
}

} // verus!
