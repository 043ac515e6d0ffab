//! Grid storage: a map from coordinates to cell states over a fixed rectangle.

use crate::cell::{fits, CellPos, CellState};
use std::collections::HashMap;
use vstd::prelude::*;

verus! {

/// The mathematical model of a maze: its dimensions and the state of every
/// cell that it stores.
#[verifier::ext_equal]
pub struct Grid {
    pub width: int,
    pub height: int,
    pub cells: Map<CellPos, CellState>,
}

impl Grid {
    /// `p` lies inside the rectangle `[0, width) x [0, height)`.
    pub open spec fn in_bounds(self, p: CellPos) -> bool {
        0 <= p.0 < self.width && 0 <= p.1 < self.height
    }

    /// The grid stores a state for `p`.
    #[verifier::inline]
    pub open spec fn has(self, p: CellPos) -> bool {
        self.cells.contains_key(p)
    }

    /// What a lookup of `p` gives: its state, or nothing where none is stored.
    pub open spec fn lookup(self, p: CellPos) -> Option<CellState> {
        if self.has(p) {
            Some(self.cells[p])
        } else {
            None
        }
    }

    /// Nothing is stored outside the rectangle.
    pub open spec fn wf(self) -> bool {
        forall|p: CellPos| #[trigger] self.has(p) ==> self.in_bounds(p)
    }

    /// Every cell of the rectangle is stored, and nothing else.
    pub open spec fn is_complete(self) -> bool {
        forall|p: CellPos| #[trigger] self.has(p) <==> self.in_bounds(p)
    }

    /// The grid of the given size with no cell stored yet.
    pub open spec fn unset(width: int, height: int) -> Grid {
        Grid { width, height, cells: Map::empty() }
    }

    /// The grid of the given size with every cell of the rectangle `Blocked`.
    pub open spec fn blank(width: int, height: int) -> Grid {
        Grid {
            width,
            height,
            cells: Map::new(
                |p: CellPos| 0 <= p.0 < width && 0 <= p.1 < height,
                |p: CellPos| CellState::Blocked,
            ),
        }
    }

    /// This grid after it has been cleared.
    pub open spec fn cleared(self) -> Grid {
        Grid::blank(self.width, self.height)
    }

    /// This grid with the state of `p` replaced.
    pub open spec fn put(self, p: CellPos, state: CellState) -> Grid {
        Grid { cells: self.cells.insert(p, state), ..self }
    }

    /// This grid after an attempt to set `p`: unchanged where `p` is not stored.
    pub open spec fn with_cell(self, p: CellPos, state: CellState) -> Grid {
        if self.has(p) {
            self.put(p, state)
        } else {
            self
        }
    }

    /// Clearing a grid that is already clear changes nothing: the second of
    /// two clears in a row leaves the same all-`Blocked` grid as the first.
    pub proof fn lemma_clear_idempotent(self)
        ensures
            self.cleared().cleared() == self.cleared(),
            self.cleared().is_complete(),
            forall|p: CellPos| #[trigger]
                self.cleared().has(p) ==> self.cleared().cells[p] == CellState::Blocked,
    {
    }
}

/// Why a write to the grid was turned down.
#[derive(Clone, Copy, Debug, PartialEq, Eq, Structural)]
pub enum GridError {
    /// The coordinate is not stored in the grid.
    OutOfDomain,
}

/// The key under which the state of `p` is stored: both components shifted to
/// be non-negative, the column in the upper half of the key.
pub closed spec fn key_of(p: CellPos) -> u64 {
    ((p.0 + 0x8000_0000) * 0x1_0000_0000 + (p.1 + 0x8000_0000)) as u64
}

proof fn lemma_key_injective(p: CellPos, q: CellPos)
    requires
        key_of(p) == key_of(q),
    ensures
        p == q,
{
    let hp: int = p.0 + 0x8000_0000;
    let lp: int = p.1 + 0x8000_0000;
    let hq: int = q.0 + 0x8000_0000;
    let lq: int = q.1 + 0x8000_0000;
    assert(hp * 0x1_0000_0000 + lp == hq * 0x1_0000_0000 + lq);
    if hp < hq {
        assert(hp * 0x1_0000_0000 + lp < hq * 0x1_0000_0000);
    } else if hq < hp {
        assert(hq * 0x1_0000_0000 + lq < hp * 0x1_0000_0000);
    }
}

fn key(p: CellPos) -> (k: u64)
    ensures
        k == key_of(p),
{
    let high: u64 = (p.0 as i64 + 0x8000_0000) as u64;
    let low: u64 = (p.1 as i64 + 0x8000_0000) as u64;
    high * 0x1_0000_0000 + low
}

/// A maze under construction: a rectangle of cells, each in one state.
pub struct Maze {
    height: i32,
    width: i32,
    grid: HashMap<u64, CellState>,
}

impl View for Maze {
    type V = Grid;

    closed spec fn view(&self) -> Grid {
        Grid {
            width: self.width as int,
            height: self.height as int,
            cells: Map::new(
                |p: CellPos| self.grid@.contains_key(key_of(p)),
                |p: CellPos| self.grid@[key_of(p)],
            ),
        }
    }
}

impl Maze {
    /// Nothing is stored outside the maze's rectangle.
    pub open spec fn wf(&self) -> bool {
        self@.wf()
    }

    /// The width and the height of a maze are numbers that a coordinate can
    /// hold.
    pub proof fn lemma_size_fits(&self)
        ensures
            fits(self@.width),
            fits(self@.height),
    {
    }

    /// A maze of the given size. No cell is stored until the maze is cleared.
    pub fn new(height: i32, width: i32) -> (maze: Maze)
        ensures
            maze@ == Grid::unset(width as int, height as int),
            maze.wf(),
    {
        let maze = Maze { height, width, grid: HashMap::new() };
        assert(maze@.cells =~= Map::empty());
        maze
    }

    /// The number of columns.
    pub fn width(&self) -> (w: i32)
        ensures
            w == self@.width,
    {
        self.width
    }

    /// The number of rows.
    pub fn height(&self) -> (h: i32)
        ensures
            h == self@.height,
    {
        self.height
    }

    /// The state of `pos`, or `None` where the grid stores none: outside the
    /// rectangle, and everywhere before the first clear.
    pub fn get(&self, pos: CellPos) -> (state: Option<CellState>)
        ensures
            state == self@.lookup(pos),
    {
        let k: u64 = key(pos);
        match self.grid.get(&k) {
            Some(found) => Some(*found),
            None => None,
        }
    }

    /// Replaces the state of `pos`. A coordinate that the grid does not store
    /// is turned down and the grid stays as it is.
    pub fn set(&mut self, pos: CellPos, state: CellState) -> (done: Result<(), GridError>)
        ensures
            final(self)@ == old(self)@.with_cell(pos, state),
            old(self).wf() ==> final(self).wf(),
            done is Ok <==> old(self)@.has(pos),
            done is Err ==> done == Err::<(), GridError>(GridError::OutOfDomain),
    {
        let k: u64 = key(pos);
        if self.grid.contains_key(&k) {
            self.grid.insert(k, state);
            proof {
                assert forall|p: CellPos| key_of(p) == k implies p == pos by {
                    lemma_key_injective(p, pos);
                }
                assert(self@.cells =~= old(self)@.cells.insert(pos, state));
            }
            Ok(())
        } else {
            Err(GridError::OutOfDomain)
        }
    }

    /// Stores `Blocked` for the cells of column `x`.
    fn clear_column(&mut self, x: i32)
        requires
            old(self).wf(),
            0 <= x < old(self)@.width,
        ensures
            final(self).wf(),
            final(self)@.width == old(self)@.width,
            final(self)@.height == old(self)@.height,
            forall|p: CellPos|
                p.0 != x ==> #[trigger] final(self)@.lookup(p) == old(self)@.lookup(p),
            forall|p: CellPos|
                p.0 == x && 0 <= p.1 < old(self)@.height ==> #[trigger] final(self)@.lookup(p)
                    == Some(CellState::Blocked),
    {
        let height: i32 = self.height;
        let mut y: i32 = 0;
        while y < height
            invariant
                0 <= y,
                y <= height || height < 0,
                0 <= x < self.width,
                self.width == old(self).width,
                self.height == height,
                old(self).height == height,
                self.wf(),
                forall|p: CellPos|
                    p.0 != x ==> #[trigger] self@.lookup(p) == old(self)@.lookup(p),
                forall|p: CellPos|
                    p.0 == x && 0 <= p.1 < y ==> #[trigger] self@.lookup(p) == Some(
                        CellState::Blocked,
                    ),
            decreases height - y,
        {
            let pos = CellPos(x, y);
            let k: u64 = key(pos);
            let ghost before = self@;
            self.grid.insert(k, CellState::Blocked);
            proof {
                assert forall|p: CellPos| key_of(p) == k implies p == pos by {
                    lemma_key_injective(p, pos);
                }
                assert(self@.cells =~= before.cells.insert(pos, CellState::Blocked));
                assert forall|p: CellPos| p.0 != x implies #[trigger] self@.lookup(p) == old(
                    self,
                )@.lookup(p) by {
                    assert(before.lookup(p) == old(self)@.lookup(p));
                }
                assert forall|p: CellPos| p.0 == x && 0 <= p.1 < y + 1 implies #[trigger]
                    self@.lookup(p) == Some(CellState::Blocked) by {
                    if p.1 < y {
                        assert(before.lookup(p) == Some(CellState::Blocked));
                    }
                }
            }
            y = y + 1;
        }
    }

    /// Stores `Blocked` for every cell of the rectangle.
    pub fn clear_grid(&mut self)
        requires
            old(self).wf(),
        ensures
            final(self)@ == old(self)@.cleared(),
            final(self).wf(),
    {
        let width: i32 = self.width;
        let mut x: i32 = 0;
        while x < width
            invariant
                0 <= x,
                x <= width || width < 0,
                self@.width == width,
                self@.height == old(self)@.height,
                old(self)@.width == width,
                self.wf(),
                forall|p: CellPos|
                    0 <= p.0 < x && 0 <= p.1 < self@.height ==> #[trigger] self@.lookup(p)
                        == Some(CellState::Blocked),
            decreases width - x,
        {
            let ghost before = self@;
            self.clear_column(x);
            proof {
                assert forall|p: CellPos|
                    0 <= p.0 < x + 1 && 0 <= p.1 < self@.height implies #[trigger] self@.lookup(
                    p,
                ) == Some(CellState::Blocked) by {
                    if p.0 < x {
                        assert(before.lookup(p) == Some(CellState::Blocked));
                    }
                }
            }
            x = x + 1;
        }
        assert(self@.cells =~= old(self)@.cleared().cells) by {
            assert forall|p: CellPos| #[trigger]
                old(self)@.cleared().has(p) implies self@.has(p) && self@.cells[p]
                == CellState::Blocked by {
                assert(self@.lookup(p) == Some(CellState::Blocked));
            }
        }
    }
}

} // verus!
