//! The maze carver: randomized frontier growth over an all-wall grid.

use crate::cell::{cell_at, CellPos, CellState};
use crate::grid::{Grid, Maze};
use crate::growth::{after_choice, odd_from, scripted, Carving};
use crate::lattice::is_node;
use crate::random::random_in_range;
use crate::seqs::filter_new;
use vstd::arithmetic::div_mod::lemma_small_mod;
use vstd::prelude::*;

verus! {

/// The odd coordinate that `sample` stands for.
fn odd_coordinate(sample: i32) -> (odd: i32)
    ensures
        odd == odd_from(sample as int),
{
    if sample % 2 == 0 {
        sample + 1
    } else {
        sample
    }
}

/// The cell at which a carving starts, given one sampled column and one
/// sampled row: an even sample is moved up by one, so that both coordinates
/// are odd.
pub fn start_cell(x_sample: i32, y_sample: i32) -> (start: CellPos)
    ensures
        start == cell_at(odd_from(x_sample as int), odd_from(y_sample as int)),
        is_node(start),
{
    CellPos(odd_coordinate(x_sample), odd_coordinate(y_sample))
}

/// Reads the next choice among `bound` alternatives off `script` at position
/// `at`, and moves `at` on. Past the end of the script the choice is the
/// first alternative.
pub fn next_choice(script: &Vec<usize>, at: &mut usize, bound: usize) -> (choice: usize)
    requires
        *old(at) <= script@.len(),
        bound > 0,
    ensures
        choice == scripted(script@.skip(*old(at) as int), bound as int),
        choice < bound,
        *final(at) <= script@.len(),
        script@.skip(*final(at) as int) == after_choice(script@.skip(*old(at) as int)),
{
    if *at < script.len() {
        let choice: usize = script[*at] % bound;
        proof {
            assert(script@.skip(*at as int)[0] == script@[*at as int]);
            assert(script@.skip(*at + 1) =~= script@.skip(*at as int).drop_first());
        }
        *at = *at + 1;
        choice
    } else {
        0
    }
}

impl Maze {
    /// The maze together with a frontier, as a carving in progress.
    pub open spec fn carving(&self, frontier: Seq<CellPos>) -> Carving {
        Carving { grid: self@, frontier }
    }

    /// Carves the first cell, `start`, and returns the frontier that it opens:
    /// the walls two steps from it.
    pub fn open_start(&mut self, start: CellPos) -> (frontier: Vec<CellPos>)
        requires
            old(self)@.has(start),
        ensures
            final(self).carving(frontier@) == Carving::seeded(old(self)@, start),
    {
        let _ = self.set(start, CellState::Passage);
        self.get_adjcells(start, CellState::Blocked, 2)
    }

    /// Connects the wall `cell` to the carved node `neighbor` two steps away:
    /// carves the cell between them and `cell` itself, then adds to the
    /// frontier the walls two steps from `cell` that it does not hold yet.
    pub fn connect(&mut self, cell: CellPos, neighbor: CellPos, frontier: &mut Vec<CellPos>)
        requires
            old(self)@.has(cell),
            old(self)@.has(cell.spec_midpoint(neighbor)),
        ensures
            final(self).carving(final(frontier)@) == old(self).carving(old(frontier)@).connected(
                cell,
                neighbor,
            ),
    {
        let passage = cell.midpoint(neighbor);
        let _ = self.set(passage, CellState::Passage);
        let _ = self.set(cell, CellState::Passage);
        let around = self.get_adjcells(cell, CellState::Blocked, 2);
        let mut fresh = filter_new(&around, frontier);
        frontier.append(&mut fresh);
    }

    /// Carves a maze into the grid, every choice drawn at random: clears the
    /// grid, carves a random interior node, and grows the maze from the
    /// frontier until no wall is left to connect. Whatever is drawn, the
    /// outcome is a maze that some script would have carved: a tree over all
    /// the nodes of the rectangle, walled in where the width and the height
    /// are odd.
    pub fn carve(&mut self)
        requires
            old(self).wf(),
            old(self)@.width >= 3,
            old(self)@.height >= 3,
        ensures
            exists|script: Seq<usize>| final(self)@ == #[trigger] Grid::carved(
                old(self)@.width,
                old(self)@.height,
                script,
            ),
            final(self).wf(),
            final(self)@.width == old(self)@.width,
            final(self)@.height == old(self)@.height,
            final(self)@.is_complete(),
            final(self)@.plain(),
            final(self)@.is_perfect(),
            final(self)@.spans(),
            old(self)@.width % 2 == 1 && old(self)@.height % 2 == 1 ==> final(self)@.walled_in(),
    {
        self.clear_grid();
        let width: i32 = self.width();
        let height: i32 = self.height();
        let x: usize = random_in_range(1, (width - 1) as usize);
        let y: usize = random_in_range(1, (height - 1) as usize);
        let start = start_cell(x as i32, y as i32);
        let ghost mut drawn: Seq<usize> = seq![(x - 1) as usize, (y - 1) as usize];
        proof {
            Carving::lemma_seeded(width as int, height as int, start);
        }
        let mut frontier = self.open_start(start);
        proof {
            assert forall|rest: Seq<usize>|
                Grid::carved(width as int, height as int, drawn + rest) == #[trigger] self.carving(
                    frontier@,
                ).run(rest) by {
                let script = drawn + rest;
                assert(script[0] == x - 1 && script[1] == y - 1);
                assert(after_choice(script)[0] == y - 1);
                assert(after_choice(after_choice(script)) =~= rest);
                lemma_small_mod((x - 1) as nat, (width - 2) as nat);
                lemma_small_mod((y - 1) as nat, (height - 2) as nat);
                assert(Grid::scripted_start(width as int, height as int, script) == start);
            }
        }
        while frontier.len() > 0
            invariant
                self.carving(frontier@).inv(),
                self@.width == width,
                self@.height == height,
                forall|rest: Seq<usize>|
                    Grid::carved(width as int, height as int, drawn + rest)
                        == #[trigger] self.carving(frontier@).run(rest),
            decreases self.carving(frontier@).walls(), frontier@.len(),
        {
            let ghost before = self.carving(frontier@);
            let index: usize = random_in_range(0, frontier.len());
            let cell = frontier.swap_remove(index);
            let neighbors = self.get_adjcells(cell, CellState::Passage, 2);
            proof {
                before.lemma_step(index as int, 0);
            }
            if neighbors.len() == 0 {
                continue ;
            }
            let pick: usize = random_in_range(0, neighbors.len());
            let neighbor = neighbors[pick];
            proof {
                before.lemma_step(index as int, pick as int);
                assert(before.frontier.contains(cell));
                before.grid.lemma_ways(cell);
                assert(neighbors@.contains(neighbor));
                before.grid.lemma_dug(cell, neighbor);
            }
            self.connect(cell, neighbor, &mut frontier);
            proof {
                let after = self.carving(frontier@);
                assert(after == before.step(index as int, pick as int));
                let taken = seq![index, pick];
                assert forall|rest: Seq<usize>|
                    Grid::carved(width as int, height as int, (drawn + taken) + rest)
                        == #[trigger] after.run(rest) by {
                    let left = taken + rest;
                    assert((drawn + taken) + rest =~= drawn + left);
                    assert(Grid::carved(width as int, height as int, drawn + left) == before.run(
                        left,
                    ));
                    assert(left[0] == index && left[1] == pick);
                    assert(after_choice(left)[0] == pick);
                    assert(after_choice(after_choice(left)) =~= rest);
                    lemma_small_mod(index as nat, before.frontier.len());
                    lemma_small_mod(pick as nat, neighbors@.len());
                    assert(before.run(left) == after.run(rest));
                }
                drawn = drawn + taken;
            }
        }
        proof {
            let done = self.carving(frontier@);
            done.lemma_finished();
            if width % 2 == 1 && height % 2 == 1 {
                done.grid.lemma_walled_in();
            }
            assert(drawn + Seq::<usize>::empty() =~= drawn);
            assert(Grid::carved(width as int, height as int, drawn) == done.run(Seq::empty()));
        }
    }

    /// Carves a maze into the grid, every choice read off `script`: first the
    /// column and the row of the start among the interior ones, then in turn
    /// the frontier cell to take and the way to connect it. The outcome is a
    /// tree over all the nodes of the rectangle, walled in where the width and
    /// the height are odd.
    pub fn carve_with(&mut self, script: &Vec<usize>)
        requires
            old(self).wf(),
            old(self)@.width >= 3,
            old(self)@.height >= 3,
        ensures
            final(self)@ == Grid::carved(old(self)@.width, old(self)@.height, script@),
            final(self).wf(),
            final(self)@.width == old(self)@.width,
            final(self)@.height == old(self)@.height,
            final(self)@.is_complete(),
            final(self)@.plain(),
            final(self)@.is_perfect(),
            final(self)@.spans(),
            old(self)@.width % 2 == 1 && old(self)@.height % 2 == 1 ==> final(self)@.walled_in(),
    {
        self.clear_grid();
        let width: i32 = self.width();
        let height: i32 = self.height();
        let mut at: usize = 0;
        assert(script@.skip(0) =~= script@);
        let x: usize = 1 + next_choice(script, &mut at, (width - 2) as usize);
        let y: usize = 1 + next_choice(script, &mut at, (height - 2) as usize);
        let start = start_cell(x as i32, y as i32);
        proof {
            Carving::lemma_seeded(width as int, height as int, start);
        }
        let mut frontier = self.open_start(start);
        while frontier.len() > 0
            invariant
                self.carving(frontier@).inv(),
                self@.width == width,
                self@.height == height,
                at <= script@.len(),
                self.carving(frontier@).run(script@.skip(at as int)) == Grid::carved(
                    width as int,
                    height as int,
                    script@,
                ),
            decreases self.carving(frontier@).walls(), frontier@.len(),
        {
            let ghost before = self.carving(frontier@);
            let ghost left = script@.skip(at as int);
            let index: usize = next_choice(script, &mut at, frontier.len());
            let cell = frontier.swap_remove(index);
            let neighbors = self.get_adjcells(cell, CellState::Passage, 2);
            proof {
                before.lemma_step(index as int, 0);
            }
            if neighbors.len() == 0 {
                continue ;
            }
            let pick: usize = next_choice(script, &mut at, neighbors.len());
            let neighbor = neighbors[pick];
            proof {
                before.lemma_step(index as int, pick as int);
                assert(before.frontier.contains(cell));
                before.grid.lemma_ways(cell);
                assert(neighbors@.contains(neighbor));
                before.grid.lemma_dug(cell, neighbor);
            }
            self.connect(cell, neighbor, &mut frontier);
            assert(self.carving(frontier@) == before.step(index as int, pick as int));
            assert(before.run(left) == before.step(index as int, pick as int).run(
                after_choice(after_choice(left)),
            ));
        }
        proof {
            self.carving(frontier@).lemma_finished();
            if width % 2 == 1 && height % 2 == 1 {
                self@.lemma_walled_in();
            }
        }
    }
}

} // verus!
