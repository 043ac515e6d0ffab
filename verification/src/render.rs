//! Drawing a maze: one character for each stored cell, row by row.

use crate::cell::{cell_at, fits, CellPos};
use crate::grid::{Grid, Maze};
use vstd::prelude::*;

verus! {

impl Grid {
    /// The characters of the stored cells of row `y` in the columns before
    /// `end`, from left to right.
    pub open spec fn row_before(self, y: int, end: int) -> Seq<char>
        decreases end,
    {
        if end <= 0 {
            Seq::empty()
        } else {
            let before = self.row_before(y, end - 1);
            if fits(end - 1) && fits(y) {
                match self.lookup(cell_at(end - 1, y)) {
                    Some(state) => before.push(state.spec_glyph()),
                    None => before,
                }
            } else {
                before
            }
        }
    }

    /// The characters of row `y`: one for each stored cell, from left to
    /// right.
    pub open spec fn row(self, y: int) -> Seq<char> {
        self.row_before(y, self.width)
    }
}

impl Maze {
    /// The characters that draw row `y`, one for each stored cell from left
    /// to right.
    pub fn render_row(&self, y: i32) -> (glyphs: Vec<char>)
        ensures
            glyphs@ == self@.row(y as int),
    {
        let width: i32 = self.width();
        let mut glyphs: Vec<char> = Vec::new();
        let mut x: i32 = 0;
        while x < width
            invariant
                0 <= x,
                x <= width || (width < 0 && x == 0),
                width == self@.width,
                glyphs@ == self@.row_before(y as int, x as int),
            decreases width - x,
        {
            match self.get(CellPos(x, y)) {
                Some(state) => {
                    glyphs.push(state.glyph());
                },
                None => {},
            }
            x = x + 1;
        }
        assert(self@.row_before(y as int, x as int) == self@.row_before(y as int, width as int));
        glyphs
    }
}

} // verus!
