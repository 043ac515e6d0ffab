//! The lattice of a maze: cells with two odd coordinates are its nodes, the
//! cells between two nodes are its links, and a maze is perfect when its carved
//! nodes and links form a tree.

use crate::cell::{cell_at, fits, CellPos, CellState};
use crate::grid::Grid;
use vstd::prelude::*;

verus! {

/// Both coordinates of `p` are odd: a place where a passage cell may stand.
pub open spec fn is_node(p: CellPos) -> bool {
    (p.0 as int) % 2 == 1 && (p.1 as int) % 2 == 1
}

/// Exactly one coordinate of `p` is odd: a place between two nodes.
pub open spec fn is_link(p: CellPos) -> bool {
    ((p.0 as int) % 2 == 1) != ((p.1 as int) % 2 == 1)
}

/// The cells of the rectangle `[0, width) x [0, height)`.
pub open spec fn rect(width: int, height: int) -> Set<CellPos> {
    Set::new(|p: CellPos| 0 <= p.0 < width && 0 <= p.1 < height)
}

/// The cells of column `x` above row `height`.
pub open spec fn column(x: int, height: int) -> Set<CellPos> {
    Set::new(|p: CellPos| p.0 == x && 0 <= p.1 < height)
}

proof fn lemma_column_finite(x: int, height: int)
    ensures
        column(x, height).finite(),
    decreases height,
{
    if height <= 0 {
        assert(column(x, height) =~= Set::empty());
    } else {
        lemma_column_finite(x, height - 1);
        if fits(x) && fits(height - 1) {
            assert(column(x, height) =~= column(x, height - 1).insert(cell_at(x, height - 1)));
        } else {
            assert(column(x, height) =~= column(x, height - 1));
        }
    }
}

/// A rectangle of cells is a finite set.
pub proof fn lemma_rect_finite(width: int, height: int)
    ensures
        rect(width, height).finite(),
    decreases width,
{
    if width <= 0 {
        assert(rect(width, height) =~= Set::empty());
    } else {
        lemma_rect_finite(width - 1, height);
        lemma_column_finite(width - 1, height);
        assert(rect(width, height) =~= rect(width - 1, height).union(column(width - 1, height)));
    }
}

impl Grid {
    /// The grid stores `p` carved.
    pub open spec fn open(self, p: CellPos) -> bool {
        self.has(p) && self.cells[p].is_open()
    }

    /// The grid stores `p` as a wall.
    pub open spec fn blocked(self, p: CellPos) -> bool {
        self.has(p) && self.cells[p] == CellState::Blocked
    }

    /// The grid stores the cell at `(x, y)` carved.
    pub open spec fn open_at(self, x: int, y: int) -> bool {
        fits(x) && fits(y) && self.open(cell_at(x, y))
    }

    /// The two nodes on either side of the link `m` are both carved.
    pub open spec fn link_joins(self, m: CellPos) -> bool {
        if (m.0 as int) % 2 == 0 {
            self.open_at(m.0 - 1, m.1 as int) && self.open_at(m.0 + 1, m.1 as int)
        } else {
            self.open_at(m.0 as int, m.1 - 1) && self.open_at(m.0 as int, m.1 + 1)
        }
    }

    /// `a` and `b` are carved nodes two steps apart with the link between them
    /// carved too: one connection of the maze.
    pub open spec fn linked(self, a: CellPos, b: CellPos) -> bool {
        &&& self.open(a)
        &&& self.open(b)
        &&& is_node(a)
        &&& is_node(b)
        &&& Grid::apart(a, b, 2)
        &&& self.open(a.spec_midpoint(b))
    }

    /// The step from the node at `i` of `r` to the next one is a connection.
    pub open spec fn hop(self, r: Seq<CellPos>, i: int) -> bool {
        self.linked(r[i], r[i + 1])
    }

    /// `r` lists carved nodes, each connected to the next.
    pub open spec fn is_route(self, r: Seq<CellPos>) -> bool {
        &&& r.len() >= 1
        &&& self.open(r[0])
        &&& is_node(r[0])
        &&& forall|i: int| 0 <= i < r.len() - 1 ==> #[trigger] self.hop(r, i)
    }

    /// A route leads from `a` to `b`.
    pub open spec fn joined(self, a: CellPos, b: CellPos) -> bool {
        exists|r: Seq<CellPos>| #[trigger] self.is_route(r) && r[0] == a && r.last() == b
    }

    /// The carved nodes.
    pub open spec fn open_nodes(self) -> Set<CellPos> {
        Set::new(|p: CellPos| self.open(p) && is_node(p))
    }

    /// The carved links.
    pub open spec fn open_links(self) -> Set<CellPos> {
        Set::new(|p: CellPos| self.open(p) && is_link(p))
    }

    /// The walls.
    pub open spec fn blocked_cells(self) -> Set<CellPos> {
        Set::new(|p: CellPos| self.blocked(p))
    }

    /// Every carved cell is a node or a link between two carved nodes.
    pub open spec fn on_lattice(self) -> bool {
        forall|p: CellPos| #[trigger]
            self.open(p) ==> is_node(p) || (is_link(p) && self.link_joins(p))
    }

    /// Any two carved nodes are joined by a route.
    pub open spec fn is_connected(self) -> bool {
        forall|a: CellPos, b: CellPos|
            self.open(a) && is_node(a) && self.open(b) && is_node(b) ==> #[trigger] self.joined(
                a,
                b,
            )
    }

    /// The carved cells form a tree: they lie on the lattice, every carved
    /// node can be reached from every other, and there is exactly one carved
    /// link fewer than there are carved nodes, so no route closes a cycle.
    pub open spec fn is_perfect(self) -> bool {
        &&& self.on_lattice()
        &&& self.is_connected()
        &&& self.open_nodes().finite()
        &&& self.open_links().finite()
        &&& self.open_nodes().len() == self.open_links().len() + 1
    }

    /// Every node of the rectangle is carved.
    pub open spec fn spans(self) -> bool {
        forall|p: CellPos| self.in_bounds(p) && is_node(p) ==> #[trigger] self.open(p)
    }

    /// Every carved cell of `self` is carved in `other`.
    pub open spec fn opens_within(self, other: Grid) -> bool {
        forall|p: CellPos| #[trigger] self.open(p) ==> other.open(p)
    }

    /// A well-formed grid stores finitely many cells, so its carved nodes, its
    /// carved links and its walls are finite sets.
    pub proof fn lemma_finite(self)
        requires
            self.wf(),
        ensures
            self.cells.dom().finite(),
            self.open_nodes().finite(),
            self.open_links().finite(),
            self.blocked_cells().finite(),
    {
        lemma_rect_finite(self.width, self.height);
        let all = rect(self.width, self.height);
        assert(self.cells.dom().subset_of(all));
        assert(self.open_nodes().subset_of(all));
        assert(self.open_links().subset_of(all));
        assert(self.blocked_cells().subset_of(all));
        vstd::set_lib::lemma_set_subset_finite(all, self.cells.dom());
        vstd::set_lib::lemma_set_subset_finite(all, self.open_nodes());
        vstd::set_lib::lemma_set_subset_finite(all, self.open_links());
        vstd::set_lib::lemma_set_subset_finite(all, self.blocked_cells());
    }

    /// A route stays a route when more cells are carved.
    pub proof fn lemma_route_grows(self, other: Grid, r: Seq<CellPos>)
        requires
            self.is_route(r),
            self.opens_within(other),
        ensures
            other.is_route(r),
    {
        assert forall|i: int| 0 <= i < r.len() - 1 implies #[trigger] other.hop(r, i) by {
            assert(self.hop(r, i));
        }
    }

    /// Nodes that are joined stay joined when more cells are carved.
    pub proof fn lemma_joined_grows(self, other: Grid, a: CellPos, b: CellPos)
        requires
            self.joined(a, b),
            self.opens_within(other),
        ensures
            other.joined(a, b),
    {
        let r = choose|r: Seq<CellPos>| #[trigger] self.is_route(r) && r[0] == a && r.last() == b;
        self.lemma_route_grows(other, r);
    }

    /// A carved node is joined to itself.
    pub proof fn lemma_joined_self(self, a: CellPos)
        requires
            self.open(a),
            is_node(a),
        ensures
            self.joined(a, a),
    {
        let r = seq![a];
        assert(self.is_route(r));
        assert(r[0] == a && r.last() == a);
    }

    /// A route can be followed by one more connection.
    pub proof fn lemma_joined_then(self, a: CellPos, b: CellPos, c: CellPos)
        requires
            self.joined(a, b),
            self.linked(b, c),
        ensures
            self.joined(a, c),
    {
        let r = choose|r: Seq<CellPos>| #[trigger] self.is_route(r) && r[0] == a && r.last() == b;
        let longer = r.push(c);
        assert forall|i: int| 0 <= i < longer.len() - 1 implies #[trigger] self.hop(longer, i) by {
            if i < r.len() - 1 {
                assert(self.hop(r, i));
            }
        }
        assert(self.is_route(longer));
        assert(longer[0] == a && longer.last() == c);
    }

    /// A route can be entered by one more connection.
    pub proof fn lemma_joined_after(self, c: CellPos, a: CellPos, b: CellPos)
        requires
            self.linked(c, a),
            self.joined(a, b),
        ensures
            self.joined(c, b),
    {
        let r = choose|r: Seq<CellPos>| #[trigger] self.is_route(r) && r[0] == a && r.last() == b;
        let longer = seq![c] + r;
        assert forall|i: int| 0 <= i < longer.len() - 1 implies #[trigger] self.hop(longer, i) by {
            if i > 0 {
                assert(self.hop(r, i - 1));
            }
        }
        assert(self.is_route(longer));
        assert(longer[0] == c && longer.last() == b);
    }

    /// `p` lies on the outer ring of the rectangle.
    pub open spec fn on_border(self, p: CellPos) -> bool {
        self.in_bounds(p) && (p.0 == 0 || p.0 == self.width - 1 || p.1 == 0 || p.1 == self.height
            - 1)
    }

    /// Every cell of the outer ring is a wall.
    pub open spec fn walled_in(self) -> bool {
        forall|p: CellPos| self.on_border(p) ==> #[trigger] self.blocked(p)
    }

    /// On a complete grid of odd width and height whose carved cells lie on
    /// the lattice, every cell of the outer ring is a wall.
    pub proof fn lemma_walled_in(self)
        requires
            self.is_complete(),
            self.on_lattice(),
            self.width % 2 == 1,
            self.height % 2 == 1,
        ensures
            self.walled_in(),
    {
        assert forall|p: CellPos| self.on_border(p) implies #[trigger] self.blocked(p) by {
            self.lemma_border(p);
            assert(self.has(p));
        }
    }

    /// On a grid of odd width and height whose carved cells lie on the
    /// lattice, no cell of the outer ring is carved.
    proof fn lemma_border(self, p: CellPos)
        requires
            self.wf(),
            self.on_lattice(),
            self.width % 2 == 1,
            self.height % 2 == 1,
            self.on_border(p),
        ensures
            !self.open(p),
    {
        if self.open(p) {
            assert(self.has(p) && self.in_bounds(p));
            assert(!is_node(p));
            assert(self.link_joins(p));
            if (p.0 as int) % 2 == 0 {
                assert(self.open(cell_at(p.0 - 1, p.1 as int)));
                assert(self.has(cell_at(p.0 - 1, p.1 as int)));
                assert(self.has(cell_at(p.0 + 1, p.1 as int)));
                assert(self.in_bounds(cell_at(p.0 - 1, p.1 as int)));
                assert(self.in_bounds(cell_at(p.0 + 1, p.1 as int)));
            } else {
                assert(self.has(cell_at(p.0 as int, p.1 - 1)));
                assert(self.has(cell_at(p.0 as int, p.1 + 1)));
                assert(self.in_bounds(cell_at(p.0 as int, p.1 - 1)));
                assert(self.in_bounds(cell_at(p.0 as int, p.1 + 1)));
            }
        }
    }
}

} // verus!
