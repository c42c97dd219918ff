//! One grid position.
use vstd::prelude::*;
use crate::cell_content::CellContent;
use crate::flag::Flag;
use crate::tile_visibility::TileVisibility;

verus! {

/// One grid position: what it holds and whether the player sees it.
#[derive(Copy, Clone, Debug, PartialEq, Eq, Structural)]
pub struct Cell {
    pub visibility: TileVisibility,
    pub content: CellContent,
}

/// The character for a digit below ten.
pub open spec fn digit_char(n: u8) -> char
    recommends
        n < 10,
{
    (n + 48) as char
}

impl Cell {
    /// A fresh cell: hidden, unflagged, no mine near it.
    pub open spec fn blank() -> Cell {
        Cell { visibility: TileVisibility::Hidden(Flag::Clear), content: CellContent::Empty(0) }
    }

    /// A neighbour count is at most eight.
    pub open spec fn wf(self) -> bool {
        self.content matches CellContent::Empty(n) ==> n <= 8
    }

    pub open spec fn is_hidden(self) -> bool {
        self.visibility is Hidden
    }

    pub open spec fn is_mine(self) -> bool {
        self.content is Mine
    }

    /// The same cell, opened.
    pub open spec fn shown(self) -> Cell {
        Cell { visibility: TileVisibility::Show, content: self.content }
    }

    /// The same cell with another visibility.
    pub open spec fn with_visibility(self, visibility: TileVisibility) -> Cell {
        Cell { visibility, content: self.content }
    }

    /// The character that stands for this cell in a textual board.
    pub open spec fn symbol_spec(self) -> char {
        match self.visibility {
            TileVisibility::Hidden(Flag::Clear) => '#',
            TileVisibility::Hidden(Flag::Flagged) => '!',
            TileVisibility::Hidden(Flag::FlaggedMaybe) => '?',
            TileVisibility::Show => match self.content {
                CellContent::Empty(n) => if n == 0 {
                    '.'
                } else {
                    digit_char(n)
                },
                CellContent::Mine => '*',
            },
        }
    }

    /// One character per cell: `#` hidden, `!` flagged, `?` flagged-maybe,
    /// `.` or a digit for an opened empty cell, `*` for an opened mine.
    pub fn symbol(&self) -> (c: char)
        requires
            self.wf(),
        ensures
            c == self.symbol_spec(),
    {
        match self.visibility {
            TileVisibility::Hidden(flag) => match flag {
                Flag::Clear => '#',
                Flag::Flagged => '!',
                Flag::FlaggedMaybe => '?',
            },
            TileVisibility::Show => match self.content {
                CellContent::Empty(n) => {
                    if n == 0 {
                        '.'
                    } else {
                        (n + 48) as char
                    }
                },
                CellContent::Mine => '*',
            },
        }
    }
}

impl Default for Cell {
    fn default() -> (r: Self)
        ensures
            r == Cell::blank(),
    {
        Cell { visibility: TileVisibility::Hidden(Flag::Clear), content: CellContent::Empty(0) }
    }
}

} // verus!
