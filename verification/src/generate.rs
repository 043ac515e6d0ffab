//! The whole pipeline: clear, carve, mark the boundary, place the lights.

use crate::grid::{Grid, Maze};
use vstd::prelude::*;

verus! {

impl Grid {
    /// What holds of every finished maze: every cell of the rectangle is
    /// stored; the carved cells form a tree that reaches every node; the outer
    /// ring is all wall; one cell is the entry and one the exit, and each can
    /// be reached from the other over carved cells; and no cell is covered by
    /// two lights.
    pub open spec fn is_finished(self) -> bool {
        &&& self.is_complete()
        &&& self.is_perfect()
        &&& self.spans()
        &&& self.walled_in()
        &&& self.marked_once()
        &&& self.reachable(Grid::entry_cell(), self.exit_cell())
        &&& self.reachable(self.exit_cell(), Grid::entry_cell())
        &&& self.lights_apart()
    }

    /// The maze of the given size that is generated when every choice is read
    /// off `script`: carved, marked, and lit.
    pub open spec fn generated(width: int, height: int, script: Seq<usize>) -> Grid {
        Grid::carved(width, height, script).marked().lit()
    }

    /// A carved maze of odd width and height, not three by three, is finished
    /// once it has been marked and lit.
    pub proof fn lemma_finished(self)
        requires
            self.is_complete(),
            self.plain(),
            self.is_perfect(),
            self.spans(),
            3 <= self.width <= i32::MAX,
            3 <= self.height <= i32::MAX,
            self.width % 2 == 1,
            self.height % 2 == 1,
            self.width > 3 || self.height > 3,
            self.marked().lit_into(self.marked().lit()),
            self.marked().lit().lights_apart(),
        ensures
            self.marked().lit().is_finished(),
    {
        let marked = self.marked();
        let lit = marked.lit();
        self.lemma_marked();
        marked.lemma_lit_keeps(lit);
        self.lemma_same_opening(marked);
        marked.lemma_same_opening(lit);
        assert(lit.exit_cell() == marked.exit_cell());
    }
}

impl Maze {
    /// Generates a maze, every choice drawn at random: clears the grid,
    /// carves a perfect maze, stamps the entry and the exit, and places the
    /// lights. The width and the height must be odd and at least three, and
    /// not both three, so that the entry and the exit fall on two different
    /// passages. Whatever is drawn, the outcome is a maze that some script
    /// would have generated.
    pub fn generate(&mut self)
        requires
            old(self).wf(),
            old(self)@.width >= 3,
            old(self)@.height >= 3,
            old(self)@.width % 2 == 1,
            old(self)@.height % 2 == 1,
            old(self)@.width > 3 || old(self)@.height > 3,
        ensures
            exists|script: Seq<usize>| final(self)@ == #[trigger] Grid::generated(
                old(self)@.width,
                old(self)@.height,
                script,
            ),
            final(self).wf(),
            final(self)@.width == old(self)@.width,
            final(self)@.height == old(self)@.height,
            final(self)@.is_finished(),
    {
        let ghost width = self@.width;
        let ghost height = self@.height;
        proof {
            self.lemma_size_fits();
        }
        self.carve();
        let ghost script = choose|script: Seq<usize>|
            self@ == #[trigger] Grid::carved(width, height, script);
        let ghost carved = self@;
        proof {
            carved.lemma_marked();
        }
        self.mark_boundary();
        self.generate_light();
        proof {
            carved.lemma_finished();
            assert(self@ == Grid::generated(width, height, script));
        }
    }

    /// Generates a maze, every choice read off `script`: the same script on
    /// a grid of the same size always gives the same maze.
    pub fn generate_with(&mut self, script: &Vec<usize>)
        requires
            old(self).wf(),
            old(self)@.width >= 3,
            old(self)@.height >= 3,
            old(self)@.width % 2 == 1,
            old(self)@.height % 2 == 1,
            old(self)@.width > 3 || old(self)@.height > 3,
        ensures
            final(self)@ == Grid::generated(old(self)@.width, old(self)@.height, script@),
            final(self).wf(),
            final(self)@.width == old(self)@.width,
            final(self)@.height == old(self)@.height,
            final(self)@.is_finished(),
    {
        proof {
            self.lemma_size_fits();
        }
        self.carve_with(script);
        let ghost carved = self@;
        proof {
            carved.lemma_marked();
        }
        self.mark_boundary();
        self.generate_light();
        proof {
            carved.lemma_finished();
        }
    }
}

} // verus!
