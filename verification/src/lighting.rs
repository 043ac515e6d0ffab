//! The model of light placement: a depth-first walk over the passages that
//! lights a cell whenever enough steps have passed since the last light and the
//! cell's footprint touches nothing that is lit already.

use crate::cell::{cell_at, CellPos, CellState};
use crate::grid::Grid;
use crate::seqs::{lemma_index_of, lemma_join_contains, lemma_without, without};
use vstd::prelude::*;

verus! {

/// The number of steps that the walk takes after one light before it
/// considers the next.
pub const LIGHT_SPACING: usize = 4;

/// The cells of `far` that are seen from `center` through a cell of `near`:
/// those whose midpoint with `center` is in `near`.
pub open spec fn seen_through(far: Seq<CellPos>, center: CellPos, near: Seq<CellPos>) -> Seq<
    CellPos,
>
    decreases far.len(),
{
    if far.len() == 0 {
        Seq::empty()
    } else {
        let before = seen_through(far.drop_last(), center, near);
        if near.contains(center.spec_midpoint(far.last())) {
            before.push(far.last())
        } else {
            before
        }
    }
}

/// Some cell of `cover` is in `lit`.
pub open spec fn overlaps(cover: Seq<CellPos>, lit: Seq<CellPos>) -> bool {
    exists|i: int| 0 <= i < cover.len() && lit.contains(#[trigger] cover[i])
}

impl Grid {
    /// The grid stores `p` as a plain or a lit passage.
    pub open spec fn walkable(self, p: CellPos) -> bool {
        self.has(p) && self.cells[p].is_walkable()
    }

    /// The grid stores `p` as a light.
    pub open spec fn light(self, p: CellPos) -> bool {
        self.has(p) && self.cells[p] == CellState::Light
    }

    /// No cell is a light.
    pub open spec fn unlit(self) -> bool {
        forall|p: CellPos| !#[trigger] self.light(p)
    }

    /// The cell from which the walk sets out.
    pub open spec fn walk_start() -> CellPos {
        CellPos(1, 1)
    }

    /// The cells right next to `center` that a light there would reach: the
    /// passages one step away along an axis, then the carved cells one step
    /// away diagonally.
    pub open spec fn near(self, center: CellPos) -> Seq<CellPos> {
        self.adjacent(center, CellState::Passage, 1) + self.diagonal(center)
    }

    /// The footprint of a light at `center`, but for `center` itself: the
    /// cells near it, then the passages two steps away along an axis that are
    /// seen through a near cell.
    pub open spec fn footprint(self, center: CellPos) -> Seq<CellPos> {
        self.near(center) + seen_through(
            self.adjacent(center, CellState::Passage, 2),
            center,
            self.near(center),
        )
    }

    /// A light at `center` covers `q`: `q` is `center` or in its footprint.
    pub open spec fn covers(self, center: CellPos, q: CellPos) -> bool {
        q == center || self.footprint(center).contains(q)
    }

    /// No cell is covered by two lights.
    pub open spec fn lights_apart(self) -> bool {
        forall|a: CellPos, b: CellPos, q: CellPos|
            self.light(a) && self.light(b) && a != b ==> !(#[trigger] self.covers(a, q)
                && #[trigger] self.covers(b, q))
    }

    /// `later` is this grid with some of its passages lit: the same cells are
    /// stored, and each holds what it held, or a light where it held a plain or
    /// a lit passage.
    pub open spec fn lit_into(self, later: Grid) -> bool {
        &&& later.width == self.width
        &&& later.height == self.height
        &&& forall|p: CellPos| #[trigger] later.has(p) <==> self.has(p)
        &&& forall|p: CellPos| #[trigger]
            self.has(p) ==> later.cells[p] == self.cells[p] || (self.cells[p].is_walkable()
                && later.cells[p] == CellState::Light)
    }

    /// Lighting passages changes no answer to a query for passages, nor which
    /// cells are carved, so every footprint stays as it was.
    pub proof fn lemma_lit_into(self, later: Grid, center: CellPos)
        requires
            self.lit_into(later),
        ensures
            forall|dist: int|
                later.adjacent(center, CellState::Passage, dist) == #[trigger] self.adjacent(
                    center,
                    CellState::Passage,
                    dist,
                ),
            later.diagonal(center) == self.diagonal(center),
            later.near(center) == self.near(center),
            later.footprint(center) == self.footprint(center),
            forall|q: CellPos| later.covers(center, q) == #[trigger] self.covers(center, q),
    {
        assert forall|x: int, y: int|
            later.probe(x, y, CellState::Passage) == #[trigger] self.probe(
                x,
                y,
                CellState::Passage,
            ) && later.probe_open(x, y) == #[trigger] self.probe_open(x, y) by {
            let p = cell_at(x, y);
            assert(later.has(p) <==> self.has(p));
        }
        assert forall|dist: int|
            later.adjacent(center, CellState::Passage, dist) == #[trigger] self.adjacent(
                center,
                CellState::Passage,
                dist,
            ) by {
            assert(later.probe(center.0 as int, center.1 as int, CellState::Passage) == self.probe(
                center.0 as int,
                center.1 as int,
                CellState::Passage,
            ));
            assert(later.probe(center.0 - dist, center.1 as int, CellState::Passage) == self.probe(
                center.0 - dist,
                center.1 as int,
                CellState::Passage,
            ));
            assert(later.probe(center.0 + dist, center.1 as int, CellState::Passage) == self.probe(
                center.0 + dist,
                center.1 as int,
                CellState::Passage,
            ));
            assert(later.probe(center.0 as int, center.1 - dist, CellState::Passage) == self.probe(
                center.0 as int,
                center.1 - dist,
                CellState::Passage,
            ));
            assert(later.probe(center.0 as int, center.1 + dist, CellState::Passage) == self.probe(
                center.0 as int,
                center.1 + dist,
                CellState::Passage,
            ));
        }
        assert(later.diagonal(center) == self.diagonal(center)) by {
            assert(later.probe_open(center.0 - 1, center.1 - 1) == self.probe_open(
                center.0 - 1,
                center.1 - 1,
            ));
            assert(later.probe_open(center.0 - 1, center.1 + 1) == self.probe_open(
                center.0 - 1,
                center.1 + 1,
            ));
            assert(later.probe_open(center.0 + 1, center.1 - 1) == self.probe_open(
                center.0 + 1,
                center.1 - 1,
            ));
            assert(later.probe_open(center.0 + 1, center.1 + 1) == self.probe_open(
                center.0 + 1,
                center.1 + 1,
            ));
        }
        assert(later.adjacent(center, CellState::Passage, 1) == self.adjacent(
            center,
            CellState::Passage,
            1,
        ));
        assert(later.adjacent(center, CellState::Passage, 2) == self.adjacent(
            center,
            CellState::Passage,
            2,
        ));
    }
}

/// A walk in progress.
pub struct Walk {
    /// The grid, with the lights placed so far.
    pub grid: Grid,
    /// The cells that wait to be visited, the next one last.
    pub stack: Seq<CellPos>,
    /// The cells visited so far.
    pub visited: Seq<CellPos>,
    /// The cells covered by the lights placed so far.
    pub lit: Seq<CellPos>,
    /// The steps taken since the last light was placed.
    pub steps: nat,
}

impl Walk {
    /// The walk over `grid` before its first step.
    pub open spec fn begin(grid: Grid) -> Walk {
        Walk {
            grid,
            stack: seq![Grid::walk_start()],
            visited: Seq::empty(),
            lit: Seq::empty(),
            steps: 0,
        }
    }

    /// The cell visited next.
    pub open spec fn here(self) -> CellPos {
        self.stack.last()
    }

    /// The passages next to the cell visited next that will not have been
    /// visited once it has.
    pub open spec fn onward(self) -> Seq<CellPos> {
        without(
            self.grid.adjacent(self.here(), CellState::Passage, 1),
            self.visited.push(self.here()),
        )
    }

    /// The next visit places a light: enough steps have passed, the cell is
    /// not covered, and its footprint touches nothing covered.
    pub open spec fn places(self) -> bool {
        &&& self.steps + 1 >= LIGHT_SPACING
        &&& !self.lit.contains(self.here())
        &&& !overlaps(self.grid.footprint(self.here()), self.lit)
    }

    /// The walk after its next visit.
    pub open spec fn step(self) -> Walk {
        let here = self.here();
        let stack = self.stack.drop_last() + self.onward();
        let visited = self.visited.push(here);
        if self.places() {
            Walk {
                grid: self.grid.with_cell(here, CellState::Light),
                stack,
                visited,
                lit: (self.lit + self.grid.footprint(here)).push(here),
                steps: 0,
            }
        } else {
            Walk { grid: self.grid, stack, visited, lit: self.lit, steps: self.steps + 1 }
        }
    }

    /// The cells that may still be visited for the first time.
    pub open spec fn unvisited(self) -> Set<CellPos> {
        Set::new(
            |p: CellPos| (self.grid.has(p) || self.stack.contains(p)) && !self.visited.contains(p),
        )
    }

    /// Zero where the cell visited next has not been visited before, one
    /// otherwise.
    pub open spec fn revisits(self) -> nat {
        if self.stack.len() > 0 && !self.visited.contains(self.here()) {
            0
        } else {
            1
        }
    }

    /// `self` is closer to the end of the walk than `before`: fewer cells are
    /// unvisited, or as many and a first visit comes next, or all that is the
    /// same and the stack is shorter.
    pub open spec fn closer_than(self, before: Walk) -> bool {
        ||| self.unvisited().len() < before.unvisited().len()
        ||| (self.unvisited().len() == before.unvisited().len() && self.revisits()
            < before.revisits())
        ||| (self.unvisited().len() == before.unvisited().len() && self.revisits()
            == before.revisits() && self.stack.len() < before.stack.len())
    }

    /// The unvisited cells are finitely many.
    pub proof fn lemma_unvisited_finite(self)
        requires
            self.grid.wf(),
        ensures
            self.unvisited().finite(),
    {
        self.grid.lemma_finite();
        vstd::seq_lib::seq_to_set_is_finite(self.stack);
        let all = self.grid.cells.dom().union(self.stack.to_set());
        assert(self.unvisited().subset_of(all));
        vstd::set_lib::lemma_set_subset_finite(all, self.unvisited());
    }

    /// Every visit brings the walk closer to its end.
    pub proof fn lemma_step_closer(self)
        requires
            self.grid.wf(),
            self.stack.len() > 0,
        ensures
            self.step().grid.wf(),
            self.step().closer_than(self),
    {
        let here = self.here();
        let after = self.step();
        let around = self.grid.adjacent(here, CellState::Passage, 1);
        let onward = self.onward();
        self.grid.lemma_adjacent(here, CellState::Passage, 1);
        lemma_without(around, self.visited.push(here));
        self.lemma_unvisited_finite();
        assert(after.grid.wf());
        after.lemma_unvisited_finite();
        assert forall|p: CellPos| #[trigger] after.grid.has(p) <==> self.grid.has(p) by {}
        assert(self.stack.contains(here)) by {
            assert(self.stack[self.stack.len() - 1] == here);
        }
        assert forall|p: CellPos| #[trigger] after.stack.contains(p) implies self.stack.contains(p)
            || self.grid.has(p) by {
            lemma_join_contains(self.stack.drop_last(), onward, p);
            if self.stack.drop_last().contains(p) {
                let i = lemma_index_of(self.stack.drop_last(), p);
                assert(self.stack[i] == p);
            } else {
                assert(around.contains(p));
            }
        }
        assert forall|p: CellPos| p != here && #[trigger] self.stack.contains(p) implies
            after.stack.contains(p) by {
            let i = lemma_index_of(self.stack, p);
            assert(self.stack.drop_last()[i] == p);
            lemma_join_contains(self.stack.drop_last(), onward, p);
        }
        assert forall|p: CellPos| #[trigger]
            after.visited.contains(p) <==> self.visited.contains(p) || p == here by {
            if after.visited.contains(p) {
                let i = lemma_index_of(after.visited, p);
                if i < self.visited.len() {
                    assert(self.visited[i] == p);
                }
            }
            if self.visited.contains(p) {
                let i = lemma_index_of(self.visited, p);
                assert(after.visited[i] == p);
            }
            assert(after.visited[self.visited.len() as int] == here);
        }
        if !self.visited.contains(here) {
            assert(after.unvisited() =~= self.unvisited().remove(here)) by {
                assert forall|p: CellPos|
                    after.unvisited().contains(p) <==> self.unvisited().remove(here).contains(
                        p,
                    ) by {
                    if p != here && self.stack.contains(p) {
                        assert(after.stack.contains(p));
                    }
                    if after.stack.contains(p) {
                        assert(self.stack.contains(p) || self.grid.has(p));
                    }
                }
            }
            assert(self.unvisited().contains(here));
        } else {
            assert(after.unvisited() =~= self.unvisited()) by {
                assert forall|p: CellPos|
                    after.unvisited().contains(p) <==> self.unvisited().contains(p) by {
                    if p != here && self.stack.contains(p) {
                        assert(after.stack.contains(p));
                    }
                    if after.stack.contains(p) {
                        assert(self.stack.contains(p) || self.grid.has(p));
                    }
                }
            }
            assert(self.revisits() == 1);
            if onward.len() > 0 {
                let top = onward.last();
                assert(after.stack.last() == top);
                assert(onward.contains(top)) by {
                    assert(onward[onward.len() - 1] == top);
                }
                assert(!after.visited.contains(top));
                assert(after.revisits() == 0);
            } else {
                assert(after.stack =~= self.stack.drop_last());
            }
        }
    }

    /// The grid in which the walk ends: the grid once the stack has run
    /// empty.
    pub open spec fn finish(self) -> Grid
        decreases self.unvisited().len(), self.revisits(), self.stack.len(),
        when self.grid.wf()
        via Self::finish_decreases
    {
        if self.stack.len() == 0 {
            self.grid
        } else {
            self.step().finish()
        }
    }

    #[via_fn]
    proof fn finish_decreases(self) {
        if self.stack.len() != 0 {
            self.lemma_step_closer();
        }
    }
}

impl Walk {
    /// What holds of a walk over `origin` from its first step to its last:
    /// the grid is `origin` with some passages lit, no more steps are counted
    /// than cells were visited, and once the walk is under way every cell on
    /// the stack is a plain or a lit passage.
    pub open spec fn sound(self, origin: Grid) -> bool {
        &&& origin.wf()
        &&& origin.lit_into(self.grid)
        &&& self.steps <= self.visited.len()
        &&& self.visited.len() == 0 ==> self.stack.len() <= 1
        &&& forall|i: int|
            0 <= i < self.stack.len() ==> self.visited.len() == 0 || #[trigger] self.grid.walkable(
                self.stack[i],
            )
    }

    /// What holds besides of a walk that began without lights: all that a
    /// light covers is recorded as lit, and no cell is covered by two lights.
    pub open spec fn spaced(self) -> bool {
        &&& forall|a: CellPos, q: CellPos|
            self.grid.light(a) && #[trigger] self.grid.covers(a, q) ==> self.lit.contains(q)
        &&& self.grid.lights_apart()
    }

    /// A walk is sound before its first step, and spaced where the grid has
    /// no lights.
    pub proof fn lemma_begin(grid: Grid)
        requires
            grid.wf(),
        ensures
            Walk::begin(grid).sound(grid),
            grid.unlit() ==> Walk::begin(grid).spaced(),
    {
        let walk = Walk::begin(grid);
        if grid.unlit() {
            assert forall|a: CellPos, q: CellPos|
                grid.light(a) && #[trigger] grid.covers(a, q) implies walk.lit.contains(q) by {
                assert(!grid.light(a));
            }
            assert forall|a: CellPos, b: CellPos, q: CellPos|
                grid.light(a) && grid.light(b) && a != b implies !(#[trigger] grid.covers(a, q)
                && #[trigger] grid.covers(b, q)) by {
                assert(!grid.light(a));
            }
        }
    }

    /// A visit keeps a walk sound.
    pub proof fn lemma_step_sound(self, origin: Grid)
        requires
            self.sound(origin),
            self.stack.len() > 0,
        ensures
            self.step().sound(origin),
            self.grid.lit_into(self.step().grid),
            self.places() ==> self.grid.walkable(self.here()),
    {
        let here = self.here();
        let after = self.step();
        let around = self.grid.adjacent(here, CellState::Passage, 1);
        self.grid.lemma_adjacent(here, CellState::Passage, 1);
        lemma_without(around, self.visited.push(here));
        assert(self.stack[self.stack.len() - 1] == here);
        if self.places() {
            assert(self.visited.len() > 0);
            assert(self.grid.walkable(here));
            assert(after.grid == self.grid.put(here, CellState::Light));
        }
        assert(self.grid.lit_into(after.grid));
        assert(origin.lit_into(after.grid)) by {
            assert forall|p: CellPos| #[trigger] after.grid.has(p) <==> origin.has(p) by {
                assert(self.grid.has(p) <==> origin.has(p));
            }
            assert forall|p: CellPos| #[trigger] origin.has(p) implies after.grid.cells[p]
                == origin.cells[p] || (origin.cells[p].is_walkable() && after.grid.cells[p]
                == CellState::Light) by {
                assert(self.grid.has(p));
            }
        }
        assert forall|i: int| 0 <= i < after.stack.len() implies #[trigger] after.grid.walkable(
            after.stack[i],
        ) by {
            let p = after.stack[i];
            if i < self.stack.len() - 1 {
                assert(p == self.stack[i]);
                assert(self.grid.walkable(p));
            } else {
                let j = i - (self.stack.len() - 1);
                assert(p == self.onward()[j]);
                assert(self.onward().contains(p));
                assert(around.contains(p));
                assert(self.grid.walkable(p));
            }
            assert(self.grid.has(p));
        }
    }

    /// A visit keeps a walk spaced: a light is placed only where its
    /// footprint and the cell itself are clear of everything lit.
    pub proof fn lemma_step_spaced(self, origin: Grid)
        requires
            self.sound(origin),
            self.spaced(),
            self.stack.len() > 0,
        ensures
            self.step().spaced(),
    {
        let here = self.here();
        let after = self.step();
        self.lemma_step_sound(origin);
        if self.places() {
            let cover = self.grid.footprint(here);
            assert forall|c: CellPos, q: CellPos|
                after.grid.covers(c, q) == #[trigger] self.grid.covers(c, q) by {
                self.grid.lemma_lit_into(after.grid, c);
            }
            assert(!self.grid.light(here)) by {
                if self.grid.light(here) {
                    assert(self.grid.covers(here, here));
                }
            }
            assert forall|q: CellPos| #[trigger]
                after.lit.contains(q) <==> self.lit.contains(q) || self.grid.covers(here, q) by {
                lemma_join_contains(self.lit, cover, q);
                let joined = self.lit + cover;
                if after.lit.contains(q) {
                    let i = lemma_index_of(after.lit, q);
                    if i < joined.len() {
                        assert(joined[i] == q);
                    }
                }
                if joined.contains(q) {
                    let i = lemma_index_of(joined, q);
                    assert(after.lit[i] == q);
                }
                assert(after.lit[joined.len() as int] == here);
            }
            assert forall|q: CellPos| self.grid.covers(here, q) implies !self.lit.contains(q) by {
                if q != here && self.lit.contains(q) {
                    let i = lemma_index_of(cover, q);
                    assert(self.lit.contains(cover[i]));
                }
            }
            assert forall|a: CellPos| #[trigger] after.grid.light(a) <==> self.grid.light(a) || a
                == here by {}
            assert forall|a: CellPos, q: CellPos|
                after.grid.light(a) && #[trigger] after.grid.covers(a, q) implies after.lit.contains(
                q,
            ) by {
                assert(self.grid.covers(a, q));
                assert(a == here || self.grid.light(a));
            }
            assert forall|a: CellPos, b: CellPos, q: CellPos|
                after.grid.light(a) && after.grid.light(b) && a != b implies !(
                #[trigger] after.grid.covers(a, q) && #[trigger] after.grid.covers(b, q)) by {
                if after.grid.covers(a, q) && after.grid.covers(b, q) {
                    assert(self.grid.covers(a, q) && self.grid.covers(b, q));
                    assert(a == here || self.grid.light(a));
                    assert(b == here || self.grid.light(b));
                    if a == here {
                        assert(self.lit.contains(q));
                    } else if b == here {
                        assert(self.lit.contains(q));
                    }
                }
            }
        }
    }
}

impl Grid {
    /// This grid after the lights have been placed.
    pub open spec fn lit(self) -> Grid {
        Walk::begin(self).finish()
    }
}

} // verus!
