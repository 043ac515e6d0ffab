//! Cell states and grid coordinates.

use vstd::prelude::*;

verus! {

/// What one cell of the grid holds.
///
/// Every cell starts out `Blocked`. Carving turns it into a `Passage`, and a
/// passage may later be relabelled `Light`, `Entry` or `Exit`.
#[derive(Clone, Copy, Debug, PartialEq, Eq, Structural)]
pub enum CellState {
    Passage,
    Blocked,
    Light,
    Entry,
    Exit,
}

impl CellState {
    /// The cell has been carved: it is anything but a wall.
    pub open spec fn is_open(self) -> bool {
        self != CellState::Blocked
    }

    /// The cell can be walked over by the queries that look for passages:
    /// a plain passage or a lit one.
    pub open spec fn is_walkable(self) -> bool {
        self == CellState::Passage || self == CellState::Light
    }

    /// The character that stands for a cell in this state when a maze is
    /// drawn.
    pub open spec fn spec_glyph(self) -> char {
        match self {
            CellState::Blocked => '#',
            CellState::Passage => ' ',
            CellState::Light => '.',
            CellState::Entry => 'E',
            CellState::Exit => 'S',
        }
    }

    /// The character that stands for a cell in this state when a maze is
    /// drawn: `#` for a wall, a blank for a passage, `.` for a light, `E` for
    /// the entry and `S` for the exit.
    pub fn glyph(self) -> (c: char)
        ensures
            c == self.spec_glyph(),
    {
        match self {
            CellState::Blocked => '#',
            CellState::Passage => ' ',
            CellState::Light => '.',
            CellState::Entry => 'E',
            CellState::Exit => 'S',
        }
    }

    /// Whether a cell in this state answers a query for `target`. A query for
    /// `Blocked` finds walls; a query for anything else finds walkable cells.
    pub open spec fn answers(self, target: CellState) -> bool {
        if target == CellState::Blocked {
            self == CellState::Blocked
        } else {
            self.is_walkable()
        }
    }
}

/// A grid coordinate: column first, row second.
#[derive(Clone, Copy, Debug, PartialEq, Eq, Hash, Structural)]
pub struct CellPos(pub i32, pub i32);

/// An integer that a coordinate component can hold.
pub open spec fn fits(v: int) -> bool {
    i32::MIN <= v <= i32::MAX
}

/// The coordinate with column `x` and row `y`, meaningful where both fit.
pub open spec fn cell_at(x: int, y: int) -> CellPos
    recommends
        fits(x),
        fits(y),
{
    CellPos(x as i32, y as i32)
}

/// The integer halfway from `a` to `b`, rounded towards `a`.
pub open spec fn halfway(a: int, b: int) -> int {
    if b >= a {
        a + (b - a) / 2
    } else {
        a - (a - b) / 2
    }
}

fn halfway_between(a: i32, b: i32) -> (m: i32)
    ensures
        m == halfway(a as int, b as int),
{
    let wide_a: i64 = a as i64;
    let wide_b: i64 = b as i64;
    let wide_m: i64 = if wide_b >= wide_a {
        wide_a + (wide_b - wide_a) / 2
    } else {
        wide_a - (wide_a - wide_b) / 2
    };
    wide_m as i32
}

impl CellPos {
    /// The cell halfway between `self` and `other`, each component rounded
    /// towards `self`. Between two cells two steps apart on one axis this is
    /// the cell that separates them.
    pub open spec fn spec_midpoint(self, other: CellPos) -> CellPos {
        CellPos(
            halfway(self.0 as int, other.0 as int) as i32,
            halfway(self.1 as int, other.1 as int) as i32,
        )
    }

    /// The cell halfway between `self` and `other`.
    pub fn midpoint(self, other: CellPos) -> (mid: CellPos)
        ensures
            mid == self.spec_midpoint(other),
            mid.0 == halfway(self.0 as int, other.0 as int),
            mid.1 == halfway(self.1 as int, other.1 as int),
    {
        CellPos(halfway_between(self.0, other.0), halfway_between(self.1, other.1))
    }
}

} // verus!
