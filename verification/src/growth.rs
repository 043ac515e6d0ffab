//! The model of frontier growth: what one carving step does to the grid and to
//! the frontier, and what every step keeps true.

use crate::cell::{cell_at, fits, CellPos, CellState};
use crate::grid::Grid;
use crate::lattice::{is_link, is_node};
use crate::seqs::{lemma_index_of, lemma_join_contains, lemma_join_distinct, lemma_without, without};
use vstd::prelude::*;

verus! {

/// A carving in progress: the grid so far and the frontier, the walls that
/// stand two steps from a carved node and wait to be carved themselves.
pub struct Carving {
    pub grid: Grid,
    pub frontier: Seq<CellPos>,
}

/// `s` after its element at `i` has been taken out and the last element has
/// moved into the gap.
pub open spec fn swap_removed(s: Seq<CellPos>, i: int) -> Seq<CellPos> {
    s.update(i, s.last()).drop_last()
}

/// Taking one element out of a sequence without repeats leaves all the others,
/// and no repeats.
pub proof fn lemma_swap_removed(s: Seq<CellPos>, i: int)
    requires
        0 <= i < s.len(),
        s.no_duplicates(),
    ensures
        swap_removed(s, i).no_duplicates(),
        swap_removed(s, i).len() == s.len() - 1,
        forall|q: CellPos| #[trigger] swap_removed(s, i).contains(q) <==> s.contains(q) && q != s[i],
{
    let rest = swap_removed(s, i);
    assert forall|q: CellPos| #[trigger] rest.contains(q) <==> s.contains(q) && q != s[i] by {
        if rest.contains(q) {
            let j = lemma_index_of(rest, q);
            if j == i {
                assert(s[s.len() - 1] == q);
            } else {
                assert(s[j] == q);
            }
        }
        if s.contains(q) && q != s[i] {
            let j = lemma_index_of(s, q);
            if j == s.len() - 1 {
                assert(rest[i] == q);
            } else {
                assert(rest[j] == q);
            }
        }
    }
}

/// The odd coordinate that a sampled coordinate stands for: itself where it is
/// odd, the next one up where it is even.
pub open spec fn odd_from(sample: int) -> int {
    if sample % 2 == 0 {
        sample + 1
    } else {
        sample
    }
}

/// The choice that a script makes next among `bound` alternatives: its first
/// entry reduced below `bound`, and the first alternative once the script has
/// run out.
pub open spec fn scripted(script: Seq<usize>, bound: int) -> int {
    if script.len() > 0 && bound > 0 {
        (script[0] as int) % bound
    } else {
        0
    }
}

/// The script that is left after one choice has been made.
pub open spec fn after_choice(script: Seq<usize>) -> Seq<usize> {
    if script.len() > 0 {
        script.drop_first()
    } else {
        script
    }
}

impl Grid {
    /// `p` is stored as a wall or as a plain passage, or not stored at all.
    pub open spec fn plain_at(self, p: CellPos) -> bool {
        self.has(p) ==> self.cells[p] == CellState::Blocked || self.cells[p] == CellState::Passage
    }

    /// The grid holds walls and plain passages only.
    pub open spec fn plain(self) -> bool {
        forall|p: CellPos| #[trigger] self.plain_at(p)
    }

    /// A carved cell stands two steps from `p` along an axis.
    pub open spec fn beside_open(self, p: CellPos) -> bool {
        ||| self.open_at(p.0 - 2, p.1 as int)
        ||| self.open_at(p.0 + 2, p.1 as int)
        ||| self.open_at(p.0 as int, p.1 - 2)
        ||| self.open_at(p.0 as int, p.1 + 2)
    }

    /// `p` is a wall on a node two steps from a carved cell: it is due to be
    /// on the frontier.
    pub open spec fn due(self, p: CellPos) -> bool {
        self.blocked(p) && is_node(p) && self.beside_open(p)
    }

    /// This grid after the wall `cell` has been connected to `neighbor`: the
    /// cell between the two is carved, then `cell` itself.
    pub open spec fn dug(self, cell: CellPos, neighbor: CellPos) -> Grid {
        self.with_cell(cell.spec_midpoint(neighbor), CellState::Passage).with_cell(
            cell,
            CellState::Passage,
        )
    }

    /// What digging from the wall `cell` to the carved node `neighbor` changes:
    /// the two cells become passages, and nothing else moves.
    pub proof fn lemma_dug(self, cell: CellPos, neighbor: CellPos)
        requires
            self.is_complete(),
            self.plain(),
            self.on_lattice(),
            self.blocked(cell),
            is_node(cell),
            self.open(neighbor),
            Grid::apart(cell, neighbor, 2),
        ensures
            is_node(neighbor),
            is_link(cell.spec_midpoint(neighbor)),
            self.blocked(cell.spec_midpoint(neighbor)),
            cell.spec_midpoint(neighbor) != cell,
            self.dug(cell, neighbor).width == self.width,
            self.dug(cell, neighbor).height == self.height,
            self.dug(cell, neighbor).is_complete(),
            self.dug(cell, neighbor).plain(),
            self.dug(cell, neighbor).link_joins(cell.spec_midpoint(neighbor)),
            self.dug(cell, neighbor).linked(cell, neighbor),
            self.dug(cell, neighbor).linked(neighbor, cell),
            forall|p: CellPos| #[trigger]
                self.dug(cell, neighbor).open(p) <==> self.open(p) || p == cell || p
                    == cell.spec_midpoint(neighbor),
            forall|p: CellPos| #[trigger]
                self.dug(cell, neighbor).blocked(p) <==> self.blocked(p) && p != cell && p
                    != cell.spec_midpoint(neighbor),
    {
        let mid = cell.spec_midpoint(neighbor);
        let after = self.dug(cell, neighbor);
        assert(self.has(neighbor) && self.in_bounds(neighbor));
        assert(self.has(cell) && self.in_bounds(cell));
        assert(self.in_bounds(mid));
        assert(self.has(mid));
        if self.open(mid) {
            assert(is_link(mid));
            assert(self.link_joins(mid));
            assert(self.open(cell));
        }
        assert(self.plain_at(mid));
        assert(after == self.put(mid, CellState::Passage).put(cell, CellState::Passage));
        assert forall|p: CellPos| #[trigger] after.has(p) <==> after.in_bounds(p) by {
            assert(self.has(p) <==> self.in_bounds(p));
        }
        assert forall|p: CellPos| #[trigger] after.plain_at(p) by {
            assert(self.plain_at(p));
        }
    }

    /// Digging keeps every carved cell on the lattice.
    pub proof fn lemma_dug_lattice(self, cell: CellPos, neighbor: CellPos)
        requires
            self.is_complete(),
            self.plain(),
            self.on_lattice(),
            self.blocked(cell),
            is_node(cell),
            self.open(neighbor),
            Grid::apart(cell, neighbor, 2),
        ensures
            self.dug(cell, neighbor).on_lattice(),
    {
        let mid = cell.spec_midpoint(neighbor);
        let after = self.dug(cell, neighbor);
        self.lemma_dug(cell, neighbor);
        assert forall|p: CellPos| #[trigger] after.open(p) implies is_node(p) || (is_link(p)
            && after.link_joins(p)) by {
            if p == cell {
            } else if p == mid {
            } else {
                assert(self.open(p));
                if !is_node(p) {
                    assert(self.link_joins(p));
                    if (p.0 as int) % 2 == 0 {
                        assert(self.open_at(p.0 - 1, p.1 as int));
                        assert(after.open(cell_at(p.0 - 1, p.1 as int)));
                        assert(after.open(cell_at(p.0 + 1, p.1 as int)));
                    } else {
                        assert(after.open(cell_at(p.0 as int, p.1 - 1)));
                        assert(after.open(cell_at(p.0 as int, p.1 + 1)));
                    }
                }
            }
        }
    }

    /// Digging keeps the carved nodes connected: the new node hangs on the
    /// node it was dug from.
    pub proof fn lemma_dug_connected(self, cell: CellPos, neighbor: CellPos)
        requires
            self.is_complete(),
            self.plain(),
            self.on_lattice(),
            self.is_connected(),
            self.blocked(cell),
            is_node(cell),
            self.open(neighbor),
            Grid::apart(cell, neighbor, 2),
        ensures
            self.dug(cell, neighbor).is_connected(),
    {
        let mid = cell.spec_midpoint(neighbor);
        let after = self.dug(cell, neighbor);
        self.lemma_dug(cell, neighbor);
        assert(self.opens_within(after)) by {
            assert forall|p: CellPos| #[trigger] self.open(p) implies after.open(p) by {}
        }
        assert forall|a: CellPos, b: CellPos|
            after.open(a) && is_node(a) && after.open(b) && is_node(b) implies #[trigger]
            after.joined(a, b) by {
            if a == cell && b == cell {
                after.lemma_joined_self(cell);
            } else if b == cell {
                assert(self.open(a));
                assert(self.joined(a, neighbor));
                self.lemma_joined_grows(after, a, neighbor);
                after.lemma_joined_then(a, neighbor, cell);
            } else if a == cell {
                assert(self.open(b));
                assert(self.joined(neighbor, b));
                self.lemma_joined_grows(after, neighbor, b);
                after.lemma_joined_after(cell, neighbor, b);
            } else {
                assert(self.open(a) && self.open(b));
                assert(self.joined(a, b));
                self.lemma_joined_grows(after, a, b);
            }
        }
    }

    /// Digging carves one more node and one more link, out of two walls.
    pub proof fn lemma_dug_counts(self, cell: CellPos, neighbor: CellPos)
        requires
            self.is_complete(),
            self.plain(),
            self.on_lattice(),
            self.blocked(cell),
            is_node(cell),
            self.open(neighbor),
            Grid::apart(cell, neighbor, 2),
        ensures
            self.dug(cell, neighbor).open_nodes().finite(),
            self.dug(cell, neighbor).open_links().finite(),
            self.dug(cell, neighbor).blocked_cells().finite(),
            self.dug(cell, neighbor).open_nodes().len() == self.open_nodes().len() + 1,
            self.dug(cell, neighbor).open_links().len() == self.open_links().len() + 1,
            self.dug(cell, neighbor).blocked_cells().len() + 2 == self.blocked_cells().len(),
    {
        let mid = cell.spec_midpoint(neighbor);
        let after = self.dug(cell, neighbor);
        self.lemma_dug(cell, neighbor);
        assert(self.wf());
        assert(after.wf());
        self.lemma_finite();
        after.lemma_finite();
        assert(after.open_nodes() =~= self.open_nodes().insert(cell));
        assert(after.open_links() =~= self.open_links().insert(mid));
        assert(after.blocked_cells() =~= self.blocked_cells().remove(cell).remove(mid));
        assert(!self.open_nodes().contains(cell));
        assert(!self.open_links().contains(mid));
        assert(self.blocked_cells().contains(cell));
        assert(self.blocked_cells().remove(cell).contains(mid));
    }

    /// On a grid of walls and plain passages, the carved cells two steps from
    /// `p` are what a query for passages at distance two finds, and there is
    /// one exactly where `p` stands beside a carved cell.
    pub proof fn lemma_ways(self, p: CellPos)
        requires
            self.plain(),
        ensures
            forall|q: CellPos| #[trigger]
                self.adjacent(p, CellState::Passage, 2).contains(q) <==> Grid::apart(p, q, 2)
                    && self.open(q),
            self.beside_open(p) <==> self.adjacent(p, CellState::Passage, 2).len() > 0,
    {
        let ways = self.adjacent(p, CellState::Passage, 2);
        self.lemma_adjacent(p, CellState::Passage, 2);
        assert forall|q: CellPos| #[trigger] ways.contains(q) <==> Grid::apart(p, q, 2)
            && self.open(q) by {
            assert(self.plain_at(q));
        }
        if self.beside_open(p) {
            let q = if self.open_at(p.0 - 2, p.1 as int) {
                cell_at(p.0 - 2, p.1 as int)
            } else if self.open_at(p.0 + 2, p.1 as int) {
                cell_at(p.0 + 2, p.1 as int)
            } else if self.open_at(p.0 as int, p.1 - 2) {
                cell_at(p.0 as int, p.1 - 2)
            } else {
                cell_at(p.0 as int, p.1 + 2)
            };
            assert(Grid::apart(p, q, 2) && self.open(q));
            assert(ways.contains(q));
        }
        if ways.len() > 0 {
            let q = ways[0];
            assert(ways.contains(q));
            assert(Grid::apart(p, q, 2) && self.open(q));
            assert(cell_at(q.0 as int, q.1 as int) == q);
        }
    }
}

impl Carving {
    /// The carving that begins at `start`: the start cell is carved, and the
    /// walls two steps from it make up the frontier.
    pub open spec fn seeded(grid: Grid, start: CellPos) -> Carving {
        let opened = grid.with_cell(start, CellState::Passage);
        Carving { grid: opened, frontier: opened.adjacent(start, CellState::Blocked, 2) }
    }

    /// The carved nodes two steps from the frontier cell at `pick`: the ways
    /// by which it can be connected.
    pub open spec fn ways(self, pick: int) -> Seq<CellPos> {
        self.grid.adjacent(self.frontier[pick], CellState::Passage, 2)
    }

    /// The carving after the frontier cell `cell` has been connected to
    /// `neighbor`: both it and the cell between are carved, and the walls two
    /// steps from it that the frontier lacks are added at its end.
    pub open spec fn connected(self, cell: CellPos, neighbor: CellPos) -> Carving {
        let grid = self.grid.dug(cell, neighbor);
        Carving {
            grid,
            frontier: self.frontier + without(
                grid.adjacent(cell, CellState::Blocked, 2),
                self.frontier,
            ),
        }
    }

    /// The carving after one step: the frontier cell at `pick` leaves the
    /// frontier and, unless no carved node stands two steps from it, is
    /// connected to the one at `choice` among them.
    pub open spec fn step(self, pick: int, choice: int) -> Carving {
        let cell = self.frontier[pick];
        let rest = Carving { grid: self.grid, frontier: swap_removed(self.frontier, pick) };
        let ways = self.ways(pick);
        if ways.len() == 0 {
            rest
        } else {
            rest.connected(cell, ways[choice])
        }
    }

    /// What holds of a carving from its first cell to its last:
    /// the grid is complete and holds walls and plain passages only, the carved
    /// cells form a tree, and the frontier lists, each once, exactly the walls
    /// that are due.
    pub open spec fn inv(self) -> bool {
        &&& self.grid.is_complete()
        &&& self.grid.plain()
        &&& self.grid.is_perfect()
        &&& self.frontier.no_duplicates()
        &&& forall|p: CellPos| #[trigger] self.frontier.contains(p) <==> self.grid.due(p)
    }

    /// The number of walls that are left. Every step that connects a cell
    /// takes two of them away.
    pub open spec fn walls(self) -> nat {
        self.grid.blocked_cells().len()
    }

    /// A step can always connect the cell it takes, and it keeps the
    /// invariant: the carved cells stay a tree, two walls fewer are left, and
    /// the frontier again lists exactly the walls that are due.
    pub proof fn lemma_step(self, pick: int, choice: int)
        requires
            self.inv(),
            0 <= pick < self.frontier.len(),
            0 <= choice < self.ways(pick).len() || self.ways(pick).len() == 0,
        ensures
            self.ways(pick).len() > 0,
            self.step(pick, choice).inv(),
            self.step(pick, choice).grid.width == self.grid.width,
            self.step(pick, choice).grid.height == self.grid.height,
            self.step(pick, choice).walls() + 2 == self.walls(),
            self.grid.opens_within(self.step(pick, choice).grid),
    {
        let cell = self.frontier[pick];
        let rest = swap_removed(self.frontier, pick);
        let ways = self.ways(pick);
        assert(self.frontier.contains(cell));
        assert(self.grid.due(cell));
        self.grid.lemma_ways(cell);
        let neighbor = ways[choice];
        assert(ways.contains(neighbor));
        let after = self.step(pick, choice);
        let grid = self.grid.dug(cell, neighbor);
        assert(after.grid == grid);
        self.grid.lemma_dug(cell, neighbor);
        self.grid.lemma_dug_lattice(cell, neighbor);
        self.grid.lemma_dug_connected(cell, neighbor);
        self.grid.lemma_dug_counts(cell, neighbor);
        lemma_swap_removed(self.frontier, pick);
        let around = grid.adjacent(cell, CellState::Blocked, 2);
        let fresh = without(around, rest);
        grid.lemma_adjacent(cell, CellState::Blocked, 2);
        lemma_without(around, rest);
        assert(after.frontier == rest + fresh);
        lemma_join_distinct(rest, fresh);
        assert forall|p: CellPos| #[trigger] after.frontier.contains(p) <==> grid.due(p) by {
            lemma_join_contains(rest, fresh, p);
            Self::lemma_due_after(self.grid, cell, neighbor, p);
            if rest.contains(p) {
                assert(self.frontier.contains(p));
                assert(self.grid.due(p));
            }
            if grid.due(p) && !Grid::apart(cell, p, 2) {
                assert(self.grid.due(p));
                assert(self.frontier.contains(p));
            }
        }
    }

    /// Which walls are due after digging from `cell` to `neighbor`: those that
    /// were due before, but for `cell` itself, and the walls on nodes two
    /// steps from `cell`.
    pub proof fn lemma_due_after(grid: Grid, cell: CellPos, neighbor: CellPos, p: CellPos)
        requires
            grid.is_complete(),
            grid.plain(),
            grid.on_lattice(),
            grid.blocked(cell),
            is_node(cell),
            grid.open(neighbor),
            Grid::apart(cell, neighbor, 2),
        ensures
            grid.dug(cell, neighbor).due(p) <==> (grid.due(p) && p != cell) || (Grid::apart(
                cell,
                p,
                2,
            ) && grid.dug(cell, neighbor).blocked(p)),
    {
        let mid = cell.spec_midpoint(neighbor);
        let after = grid.dug(cell, neighbor);
        grid.lemma_dug(cell, neighbor);
        if is_node(p) {
            Self::lemma_beside_after(grid, cell, neighbor, p.0 - 2, p.1 as int);
            Self::lemma_beside_after(grid, cell, neighbor, p.0 + 2, p.1 as int);
            Self::lemma_beside_after(grid, cell, neighbor, p.0 as int, p.1 - 2);
            Self::lemma_beside_after(grid, cell, neighbor, p.0 as int, p.1 + 2);
        }
        if Grid::apart(cell, p, 2) && after.blocked(p) {
            assert(after.open(cell));
            assert(cell_at(cell.0 as int, cell.1 as int) == cell);
        }
    }

    /// A node at `(x, y)` is carved after digging where it was carved before
    /// or is the cell that was dug.
    proof fn lemma_beside_after(grid: Grid, cell: CellPos, neighbor: CellPos, x: int, y: int)
        requires
            grid.is_complete(),
            grid.plain(),
            grid.on_lattice(),
            grid.blocked(cell),
            is_node(cell),
            grid.open(neighbor),
            Grid::apart(cell, neighbor, 2),
            x % 2 == 1,
            y % 2 == 1,
        ensures
            grid.dug(cell, neighbor).open_at(x, y) <==> grid.open_at(x, y) || (x == cell.0 && y
                == cell.1),
    {
        grid.lemma_dug(cell, neighbor);
        if fits(x) && fits(y) {
            let q = cell_at(x, y);
            assert(is_node(q));
            assert(grid.dug(cell, neighbor).open(q) <==> grid.open(q) || q == cell || q
                == cell.spec_midpoint(neighbor));
        }
    }

    /// A carving that begins at a node of an all-wall grid satisfies the
    /// invariant.
    pub proof fn lemma_seeded(width: int, height: int, start: CellPos)
        requires
            Grid::blank(width, height).in_bounds(start),
            is_node(start),
        ensures
            Carving::seeded(Grid::blank(width, height), start).inv(),
            Carving::seeded(Grid::blank(width, height), start).grid.width == width,
            Carving::seeded(Grid::blank(width, height), start).grid.height == height,
            Carving::seeded(Grid::blank(width, height), start).grid.open(start),
    {
        let blank = Grid::blank(width, height);
        let seeded = Carving::seeded(blank, start);
        let grid = seeded.grid;
        assert(grid == blank.put(start, CellState::Passage));
        assert(grid.is_complete());
        assert(grid.plain()) by {
            assert forall|p: CellPos| #[trigger] grid.plain_at(p) by {}
        }
        assert(grid.on_lattice());
        assert(grid.is_connected()) by {
            assert forall|a: CellPos, b: CellPos|
                grid.open(a) && is_node(a) && grid.open(b) && is_node(b) implies #[trigger]
                grid.joined(a, b) by {
                grid.lemma_joined_self(start);
            }
        }
        grid.lemma_finite();
        assert(grid.open_nodes() =~= Set::<CellPos>::empty().insert(start));
        assert(grid.open_links() =~= Set::<CellPos>::empty());
        grid.lemma_adjacent(start, CellState::Blocked, 2);
        assert forall|p: CellPos| #[trigger] seeded.frontier.contains(p) <==> grid.due(p) by {
            if Grid::apart(start, p, 2) && grid.blocked(p) {
                assert(cell_at(start.0 as int, start.1 as int) == start);
            }
        }
    }

    /// Once the frontier is empty, every node that lies coordinate-wise
    /// between a carved node and `p` is carved, and so is `p`.
    proof fn lemma_reaches(self, root: CellPos, p: CellPos)
        requires
            self.inv(),
            self.frontier.len() == 0,
            self.grid.open(root),
            is_node(root),
            self.grid.in_bounds(p),
            is_node(p),
        ensures
            self.grid.open(p),
        decreases
                (if p.0 >= root.0 {
                    p.0 - root.0
                } else {
                    root.0 - p.0
                }) + (if p.1 >= root.1 {
                    p.1 - root.1
                } else {
                    root.1 - p.1
                }),
    {
        let grid = self.grid;
        assert(grid.has(root) && grid.in_bounds(root));
        if p != root {
            let q = if p.0 > root.0 {
                cell_at(p.0 - 2, p.1 as int)
            } else if p.0 < root.0 {
                cell_at(p.0 + 2, p.1 as int)
            } else if p.1 > root.1 {
                cell_at(p.0 as int, p.1 - 2)
            } else {
                cell_at(p.0 as int, p.1 + 2)
            };
            assert(grid.in_bounds(q) && is_node(q));
            self.lemma_reaches(root, q);
            assert(grid.has(p));
            if grid.blocked(p) {
                assert(grid.open_at(q.0 as int, q.1 as int));
                assert(grid.due(p));
                assert(self.frontier.contains(p));
            }
        }
    }

    /// When the frontier has run empty the carving is done: every node of the
    /// rectangle is carved.
    pub proof fn lemma_finished(self)
        requires
            self.inv(),
            self.frontier.len() == 0,
        ensures
            self.grid.spans(),
    {
        let nodes = self.grid.open_nodes();
        assert(nodes.len() > 0);
        let root = nodes.choose();
        assert(nodes.contains(root));
        assert forall|p: CellPos| self.grid.in_bounds(p) && is_node(p) implies #[trigger]
            self.grid.open(p) by {
            self.lemma_reaches(root, p);
        }
    }

    /// The grid that a carving ends in when its choices are read off `script`:
    /// each step takes the frontier cell that the script picks and connects it
    /// by the way that the script picks next.
    pub open spec fn run(self, script: Seq<usize>) -> Grid
        decreases self.walls(), self.frontier.len(),
        when self.inv()
        via Self::run_decreases
    {
        if self.frontier.len() == 0 {
            self.grid
        } else {
            let pick = scripted(script, self.frontier.len() as int);
            let ways = self.ways(pick).len() as int;
            if ways == 0 {
                self.step(pick, 0).run(after_choice(script))
            } else {
                self.step(pick, scripted(after_choice(script), ways)).run(
                    after_choice(after_choice(script)),
                )
            }
        }
    }

    #[via_fn]
    proof fn run_decreases(self, script: Seq<usize>) {
        if self.frontier.len() != 0 {
            let pick = scripted(script, self.frontier.len() as int);
            let ways = self.ways(pick).len() as int;
            assert(0 <= pick < self.frontier.len());
            if ways == 0 {
                self.lemma_step(pick, 0);
            } else {
                let choice = scripted(after_choice(script), ways);
                assert(0 <= choice < ways);
                self.lemma_step(pick, choice);
            }
        }
    }
}

impl Grid {
    /// The cell at which a carving starts when its two coordinates are read
    /// off `script`: each sampled among the interior coordinates and made
    /// odd.
    pub open spec fn scripted_start(width: int, height: int, script: Seq<usize>) -> CellPos {
        cell_at(
            odd_from(1 + scripted(script, width - 2)),
            odd_from(1 + scripted(after_choice(script), height - 2)),
        )
    }

    /// The maze that is carved into a grid of the given size when every choice
    /// is read off `script`.
    pub open spec fn carved(width: int, height: int, script: Seq<usize>) -> Grid {
        Carving::seeded(
            Grid::blank(width, height),
            Grid::scripted_start(width, height, script),
        ).run(after_choice(after_choice(script)))
    }
}

} // verus!
