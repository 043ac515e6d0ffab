//! Neighbour queries: the cells around a centre that are in a wanted state.

use crate::cell::{cell_at, fits, CellPos, CellState};
use crate::grid::{Grid, Maze};
use crate::seqs::{lemma_index_of, lemma_join_contains, lemma_join_distinct};
use vstd::prelude::*;

verus! {

impl Grid {
    /// The state stored at column `x`, row `y`, if the grid stores one.
    pub open spec fn state_at(self, x: int, y: int) -> Option<CellState> {
        if fits(x) && fits(y) {
            self.lookup(cell_at(x, y))
        } else {
            None
        }
    }

    /// The cell at `(x, y)` alone where the grid stores it in a state that
    /// answers a query for `target`, and nothing otherwise.
    pub open spec fn probe(self, x: int, y: int, target: CellState) -> Seq<CellPos> {
        match self.state_at(x, y) {
            Some(state) => if state.answers(target) {
                seq![cell_at(x, y)]
            } else {
                Seq::empty()
            },
            None => Seq::empty(),
        }
    }

    /// The cell at `(x, y)` alone where the grid stores it carved, and nothing
    /// otherwise.
    pub open spec fn probe_open(self, x: int, y: int) -> Seq<CellPos> {
        match self.state_at(x, y) {
            Some(state) => if state.is_open() {
                seq![cell_at(x, y)]
            } else {
                Seq::empty()
            },
            None => Seq::empty(),
        }
    }

    /// The cells `dist` away from `center` along one axis that answer a query
    /// for `target`: left, right, up, down, in that order. At distance zero the
    /// four coincide with the centre, which is then listed once.
    pub open spec fn adjacent(self, center: CellPos, target: CellState, dist: int) -> Seq<CellPos> {
        if dist == 0 {
            self.probe(center.0 as int, center.1 as int, target)
        } else {
            self.probe(center.0 - dist, center.1 as int, target) + self.probe(
                center.0 + dist,
                center.1 as int,
                target,
            ) + self.probe(center.0 as int, center.1 - dist, target) + self.probe(
                center.0 as int,
                center.1 + dist,
                target,
            )
        }
    }

    /// The carved cells diagonally next to `center`, column by column.
    pub open spec fn diagonal(self, center: CellPos) -> Seq<CellPos> {
        self.probe_open(center.0 - 1, center.1 - 1) + self.probe_open(center.0 - 1, center.1 + 1)
            + self.probe_open(center.0 + 1, center.1 - 1) + self.probe_open(
            center.0 + 1,
            center.1 + 1,
        )
    }

    /// `q` lies `dist` away from `center` along exactly one axis.
    pub open spec fn apart(center: CellPos, q: CellPos, dist: int) -> bool {
        ||| (q.1 == center.1 && (q.0 == center.0 - dist || q.0 == center.0 + dist))
        ||| (q.0 == center.0 && (q.1 == center.1 - dist || q.1 == center.1 + dist))
    }

    /// A probe finds at most the one cell it looks at.
    pub proof fn lemma_probe(self, x: int, y: int, target: CellState)
        ensures
            self.probe(x, y, target).len() <= 1,
            forall|q: CellPos| #[trigger]
                self.probe(x, y, target).contains(q) <==> (q.0 == x && q.1 == y && self.has(q)
                    && self.cells[q].answers(target)),
    {
        let found = self.probe(x, y, target);
        assert forall|q: CellPos| #[trigger]
            found.contains(q) <==> (q.0 == x && q.1 == y && self.has(q) && self.cells[q].answers(
                target,
            )) by {
            if found.contains(q) {
                let i = lemma_index_of(found, q);
            }
            if q.0 == x && q.1 == y && self.has(q) && self.cells[q].answers(target) {
                assert(cell_at(x, y) == q);
                assert(found[0] == q);
            }
        }
    }

    /// An adjacency query returns exactly the stored cells at the asked
    /// distance whose state answers the query, each once.
    pub proof fn lemma_adjacent(self, center: CellPos, target: CellState, dist: int)
        ensures
            forall|q: CellPos| #[trigger]
                self.adjacent(center, target, dist).contains(q) <==> (Grid::apart(center, q, dist)
                    && self.has(q) && self.cells[q].answers(target)),
            self.adjacent(center, target, dist).no_duplicates(),
            self.adjacent(center, target, dist).len() <= 4,
    {
        let found = self.adjacent(center, target, dist);
        if dist == 0 {
            self.lemma_probe(center.0 as int, center.1 as int, target);
        } else {
            let a = self.probe(center.0 - dist, center.1 as int, target);
            let b = self.probe(center.0 + dist, center.1 as int, target);
            let c = self.probe(center.0 as int, center.1 - dist, target);
            let d = self.probe(center.0 as int, center.1 + dist, target);
            self.lemma_probe(center.0 - dist, center.1 as int, target);
            self.lemma_probe(center.0 + dist, center.1 as int, target);
            self.lemma_probe(center.0 as int, center.1 - dist, target);
            self.lemma_probe(center.0 as int, center.1 + dist, target);
            assert forall|q: CellPos|
                ((a + b).contains(q) <==> a.contains(q) || b.contains(q)) && ((a + b
                    + c).contains(q) <==> (a + b).contains(q) || c.contains(q)) && (#[trigger]
                found.contains(q) <==> (a + b + c).contains(q) || d.contains(q)) by {
                lemma_join_contains(a, b, q);
                lemma_join_contains(a + b, c, q);
                lemma_join_contains(a + b + c, d, q);
            }
            lemma_join_distinct(a, b);
            lemma_join_distinct(a + b, c);
            lemma_join_distinct(a + b + c, d);
        }
    }
}

impl Maze {
    /// Appends the cell at `(x, y)` to `found` where the grid stores it in a
    /// state that answers a query for `target`.
    fn probe_into(&self, x: i64, y: i64, target: CellState, found: &mut Vec<CellPos>)
        ensures
            final(found)@ == old(found)@ + self@.probe(x as int, y as int, target),
    {
        if x < -0x8000_0000 || x > 0x7fff_ffff || y < -0x8000_0000 || y > 0x7fff_ffff {
            assert(found@ =~= old(found)@ + self@.probe(x as int, y as int, target));
            return ;
        }
        let pos = CellPos(x as i32, y as i32);
        let hit: bool = match self.get(pos) {
            Some(CellState::Blocked) => target == CellState::Blocked,
            Some(CellState::Passage) => target != CellState::Blocked,
            Some(CellState::Light) => target != CellState::Blocked,
            _ => false,
        };
        if hit {
            found.push(pos);
        }
        assert(found@ =~= old(found)@ + self@.probe(x as int, y as int, target));
    }

    /// Appends the cell at `(x, y)` to `found` where the grid stores it carved.
    fn probe_open_into(&self, x: i64, y: i64, found: &mut Vec<CellPos>)
        ensures
            final(found)@ == old(found)@ + self@.probe_open(x as int, y as int),
    {
        if x < -0x8000_0000 || x > 0x7fff_ffff || y < -0x8000_0000 || y > 0x7fff_ffff {
            assert(found@ =~= old(found)@ + self@.probe_open(x as int, y as int));
            return ;
        }
        let pos = CellPos(x as i32, y as i32);
        let hit: bool = match self.get(pos) {
            Some(CellState::Blocked) => false,
            Some(_) => true,
            None => false,
        };
        if hit {
            found.push(pos);
        }
        assert(found@ =~= old(found)@ + self@.probe_open(x as int, y as int));
    }

    /// The cells `dist` away from `cell_pos` to the left, to the right, above
    /// and below, in that order, that the grid stores in a state answering a
    /// query for `cell_state`: walls for `Blocked`, plain or lit passages for
    /// anything else. Coordinates outside the grid are passed over.
    pub fn get_adjcells(&self, cell_pos: CellPos, cell_state: CellState, dist: i32) -> (adjcells:
        Vec<CellPos>)
        ensures
            adjcells@ == self@.adjacent(cell_pos, cell_state, dist as int),
            adjcells@.no_duplicates(),
            adjcells@.len() <= 4,
    {
        let mut adjcells: Vec<CellPos> = Vec::new();
        let x: i64 = cell_pos.0 as i64;
        let y: i64 = cell_pos.1 as i64;
        let step: i64 = dist as i64;
        if dist == 0 {
            self.probe_into(x, y, cell_state, &mut adjcells);
        } else {
            self.probe_into(x - step, y, cell_state, &mut adjcells);
            self.probe_into(x + step, y, cell_state, &mut adjcells);
            self.probe_into(x, y - step, cell_state, &mut adjcells);
            self.probe_into(x, y + step, cell_state, &mut adjcells);
        }
        proof {
            assert(adjcells@ =~= self@.adjacent(cell_pos, cell_state, dist as int));
            self@.lemma_adjacent(cell_pos, cell_state, dist as int);
        }
        adjcells
    }

    /// Appends to `neighbors` the carved cells diagonally next to `center`.
    pub fn get_diagonal_cells(&self, neighbors: &mut Vec<CellPos>, center: CellPos)
        ensures
            final(neighbors)@ == old(neighbors)@ + self@.diagonal(center),
    {
        let x: i64 = center.0 as i64;
        let y: i64 = center.1 as i64;
        self.probe_open_into(x - 1, y - 1, neighbors);
        self.probe_open_into(x - 1, y + 1, neighbors);
        self.probe_open_into(x + 1, y - 1, neighbors);
        self.probe_open_into(x + 1, y + 1, neighbors);
        assert(neighbors@ =~= old(neighbors)@ + self@.diagonal(center));
    }
}

} // verus!
