//! The boundary marker: stamps the entry and the exit on the two interior
//! corner nodes, and what that means for the finished maze.

use crate::cell::{cell_at, CellPos, CellState};
use crate::grid::{Grid, Maze};
use crate::lattice::{is_link, is_node};
use vstd::prelude::*;

verus! {

impl Grid {
    /// The cell that becomes the entry: the interior corner at the top left.
    pub open spec fn entry_cell() -> CellPos {
        CellPos(1, 1)
    }

    /// The cell that becomes the exit: the interior corner at the bottom
    /// right.
    pub open spec fn exit_cell(self) -> CellPos {
        cell_at(self.width - 2, self.height - 2)
    }

    /// This grid with the entry stamped.
    pub open spec fn with_entry(self) -> Grid {
        self.put(Grid::entry_cell(), CellState::Entry)
    }

    /// This grid with the entry and then the exit stamped.
    pub open spec fn marked(self) -> Grid {
        self.with_entry().put(self.exit_cell(), CellState::Exit)
    }

    /// The entry cell is the one cell marked `Entry`, and the exit cell the
    /// one cell marked `Exit`.
    pub open spec fn marked_once(self) -> bool {
        &&& forall|p: CellPos| #[trigger]
            self.lookup(p) == Some(CellState::Entry) <==> p == Grid::entry_cell()
        &&& forall|p: CellPos| #[trigger]
            self.lookup(p) == Some(CellState::Exit) <==> p == self.exit_cell()
    }

    /// The step from the cell at `i` of `path` to the next one leads from a
    /// carved cell to a carved cell right next to it.
    pub open spec fn pace(self, path: Seq<CellPos>, i: int) -> bool {
        self.open(path[i]) && self.open(path[i + 1]) && Grid::apart(path[i], path[i + 1], 1)
    }

    /// `path` lists carved cells, each right next to the one before.
    pub open spec fn is_path(self, path: Seq<CellPos>) -> bool {
        &&& path.len() >= 1
        &&& self.open(path[0])
        &&& forall|i: int| 0 <= i < path.len() - 1 ==> #[trigger] self.pace(path, i)
    }

    /// One can walk from `a` to `b` over carved cells, one step at a time.
    pub open spec fn reachable(self, a: CellPos, b: CellPos) -> bool {
        exists|path: Seq<CellPos>| #[trigger]
            self.is_path(path) && path[0] == a && path.last() == b
    }

    /// The same cells are carved in `self` and in `other`, two grids of one
    /// size over the same cells.
    pub open spec fn same_opening(self, other: Grid) -> bool {
        &&& self.width == other.width
        &&& self.height == other.height
        &&& forall|p: CellPos| #[trigger] self.has(p) <==> other.has(p)
        &&& forall|p: CellPos| #[trigger] self.open(p) <==> other.open(p)
    }

    /// Along a route one can walk: the links between its nodes fill the gaps.
    proof fn lemma_route_walk(self, r: Seq<CellPos>)
        requires
            self.is_route(r),
        ensures
            self.reachable(r[0], r.last()),
        decreases r.len(),
    {
        if r.len() == 1 {
            let path = seq![r[0]];
            assert(self.is_path(path));
            assert(path[0] == r[0] && path.last() == r.last());
        } else {
            let front = r.drop_last();
            assert forall|i: int| 0 <= i < front.len() - 1 implies #[trigger] self.hop(front, i) by {
                assert(self.hop(r, i));
            }
            assert(self.is_route(front));
            self.lemma_route_walk(front);
            let before = choose|path: Seq<CellPos>| #[trigger]
                self.is_path(path) && path[0] == front[0] && path.last() == front.last();
            let from = front.last();
            let to = r.last();
            assert(self.hop(r, r.len() - 2));
            assert(self.linked(from, to));
            let mid = from.spec_midpoint(to);
            let path = before.push(mid).push(to);
            assert forall|i: int| 0 <= i < path.len() - 1 implies #[trigger] self.pace(path, i) by {
                if i < before.len() - 1 {
                    assert(self.pace(before, i));
                }
            }
            assert(self.is_path(path));
            assert(path[0] == r[0] && path.last() == r.last());
        }
    }

    /// Nodes that a route joins can be reached from each other on foot.
    pub proof fn lemma_joined_reachable(self, a: CellPos, b: CellPos)
        requires
            self.joined(a, b),
        ensures
            self.reachable(a, b),
    {
        let r = choose|r: Seq<CellPos>| #[trigger] self.is_route(r) && r[0] == a && r.last() == b;
        self.lemma_route_walk(r);
    }

    /// Whether a maze is perfect, and whether it spans its rectangle, depends
    /// only on which cells are carved, not on how they are labelled.
    pub proof fn lemma_same_opening(self, other: Grid)
        requires
            self.same_opening(other),
        ensures
            self.is_complete() ==> other.is_complete(),
            self.on_lattice() ==> other.on_lattice(),
            self.is_perfect() ==> other.is_perfect(),
            self.spans() ==> other.spans(),
    {
        assert(self.opens_within(other));
        assert(other.opens_within(self));
        if self.is_complete() {
            assert forall|p: CellPos| #[trigger] other.has(p) <==> other.in_bounds(p) by {
                assert(self.has(p) <==> self.in_bounds(p));
            }
        }
        if self.on_lattice() {
            assert forall|p: CellPos| #[trigger] other.open(p) implies is_node(p) || (
            is_link(p) && other.link_joins(p)) by {
                assert(self.open(p));
                if !is_node(p) {
                    assert(self.link_joins(p));
                    if (p.0 as int) % 2 == 0 {
                        assert(other.open(cell_at(p.0 - 1, p.1 as int)));
                        assert(other.open(cell_at(p.0 + 1, p.1 as int)));
                    } else {
                        assert(other.open(cell_at(p.0 as int, p.1 - 1)));
                        assert(other.open(cell_at(p.0 as int, p.1 + 1)));
                    }
                }
            }
        }
        if self.is_perfect() {
            assert forall|a: CellPos, b: CellPos|
                other.open(a) && is_node(a) && other.open(b) && is_node(b) implies #[trigger]
                other.joined(a, b) by {
                assert(self.open(a) && self.open(b));
                assert(self.joined(a, b));
                self.lemma_joined_grows(other, a, b);
            }
            assert(other.open_nodes() =~= self.open_nodes());
            assert(other.open_links() =~= self.open_links());
        }
        if self.spans() {
            assert forall|p: CellPos| other.in_bounds(p) && is_node(p) implies #[trigger]
                other.open(p) by {
                assert(self.open(p));
            }
        }
    }

    /// In a maze of odd width and height that is not three by three, carved
    /// to span its rectangle, stamping the entry and the exit relabels two
    /// different passages; the maze stays perfect, is walled in, holds no
    /// light, and its exit can be reached from its entry.
    pub proof fn lemma_marked(self)
        requires
            self.is_complete(),
            self.plain(),
            self.is_perfect(),
            self.spans(),
            3 <= self.width <= i32::MAX,
            3 <= self.height <= i32::MAX,
            self.width % 2 == 1,
            self.height % 2 == 1,
            self.width > 3 || self.height > 3,
        ensures
            self.lookup(Grid::entry_cell()) == Some(CellState::Passage),
            self.with_entry().lookup(self.exit_cell()) == Some(CellState::Passage),
            self.same_opening(self.marked()),
            self.marked().wf(),
            self.marked().unlit(),
            self.marked().marked_once(),
            self.marked().walled_in(),
            self.marked().reachable(Grid::entry_cell(), self.marked().exit_cell()),
            self.marked().reachable(self.marked().exit_cell(), Grid::entry_cell()),
    {
        let entry = Grid::entry_cell();
        let exit = self.exit_cell();
        let marked = self.marked();
        assert(self.in_bounds(entry) && is_node(entry));
        assert(self.in_bounds(exit) && is_node(exit));
        assert(self.open(entry) && self.open(exit));
        assert(self.plain_at(entry) && self.plain_at(exit));
        assert(entry != exit);
        assert forall|p: CellPos| #[trigger] marked.has(p) <==> self.has(p) by {}
        assert forall|p: CellPos| #[trigger] marked.open(p) <==> self.open(p) by {}
        self.lemma_same_opening(marked);
        assert forall|p: CellPos| !#[trigger] marked.light(p) by {
            assert(self.plain_at(p));
        }
        assert forall|p: CellPos| #[trigger]
            marked.lookup(p) == Some(CellState::Entry) <==> p == entry by {
            assert(self.plain_at(p));
        }
        assert forall|p: CellPos| #[trigger]
            marked.lookup(p) == Some(CellState::Exit) <==> p == exit by {
            assert(self.plain_at(p));
        }
        marked.lemma_walled_in();
        assert(marked.joined(entry, exit));
        assert(marked.joined(exit, entry));
        marked.lemma_joined_reachable(entry, exit);
        marked.lemma_joined_reachable(exit, entry);
    }

    /// Lighting a marked maze keeps what marking and carving established.
    pub proof fn lemma_lit_keeps(self, later: Grid)
        requires
            self.lit_into(later),
            self.wf(),
        ensures
            self.same_opening(later),
            self.marked_once() ==> later.marked_once(),
            self.walled_in() ==> later.walled_in(),
            forall|a: CellPos, b: CellPos| self.reachable(a, b) ==> #[trigger] later.reachable(a, b),
    {
        assert forall|p: CellPos| #[trigger] self.open(p) <==> later.open(p) by {
            assert(later.has(p) <==> self.has(p));
        }
        if self.marked_once() {
            assert forall|p: CellPos| #[trigger]
                later.lookup(p) == Some(CellState::Entry) <==> p == Grid::entry_cell() by {
                assert(later.has(p) <==> self.has(p));
                assert(self.lookup(p) == Some(CellState::Entry) <==> p == Grid::entry_cell());
            }
            assert forall|p: CellPos| #[trigger]
                later.lookup(p) == Some(CellState::Exit) <==> p == later.exit_cell() by {
                assert(later.has(p) <==> self.has(p));
                assert(self.lookup(p) == Some(CellState::Exit) <==> p == self.exit_cell());
            }
        }
        if self.walled_in() {
            assert forall|p: CellPos| later.on_border(p) implies #[trigger] later.blocked(p) by {
                assert(self.blocked(p));
                assert(later.has(p) <==> self.has(p));
            }
        }
        assert forall|a: CellPos, b: CellPos| self.reachable(a, b) implies #[trigger]
            later.reachable(a, b) by {
            let path = choose|path: Seq<CellPos>| #[trigger]
                self.is_path(path) && path[0] == a && path.last() == b;
            assert forall|i: int| 0 <= i < path.len() - 1 implies #[trigger] later.pace(path, i) by {
                assert(self.pace(path, i));
            }
            assert(later.is_path(path));
        }
    }
}

impl Maze {
    /// Stamps the entry on the interior corner at the top left and then the
    /// exit on the interior corner at the bottom right. Each must be a plain
    /// passage when its turn comes.
    pub fn mark_boundary(&mut self)
        requires
            old(self).wf(),
            old(self)@.lookup(Grid::entry_cell()) == Some(CellState::Passage),
            old(self)@.with_entry().lookup(old(self)@.exit_cell()) == Some(CellState::Passage),
        ensures
            final(self)@ == old(self)@.marked(),
            final(self).wf(),
    {
        let _ = self.set(CellPos(1, 1), CellState::Entry);
        let width: i32 = self.width();
        let height: i32 = self.height();
        proof {
            let exit = old(self)@.exit_cell();
            assert(old(self)@.has(exit));
            assert(old(self)@.in_bounds(exit));
        }
        let _ = self.set(CellPos(width - 2, height - 2), CellState::Exit);
    }
}

} // verus!
