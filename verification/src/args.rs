//! The size of the board and the number of its mines.
use vstd::prelude::*;

verus! {

/// The smallest width and height of a board.
pub const MIN_SIDE: u16 = 8;

/// The largest width and height of a board.
pub const MAX_SIDE: u16 = 256;

/// The cells around the first opened cell, and that cell, which stay free of mines.
pub const SAFE_ZONE: u32 = 9;

/// The size of the board and the number of its mines.
#[derive(Copy, Clone, Debug)]
pub struct MinesweeperArgs {
    pub width: u16,
    pub height: u16,
    pub mines: u32,
}

/// `x`, moved into `lo..=hi`.
pub open spec fn clamp_spec(x: int, lo: int, hi: int) -> int {
    if x < lo {
        lo
    } else if x > hi {
        hi
    } else {
        x
    }
}

impl MinesweeperArgs {
    /// The number of cells.
    pub open spec fn size(self) -> int {
        self.width * self.height
    }

    /// Width and height lie within their limits, there is at least one
    /// mine, and nine cells at least are left without one.
    pub open spec fn valid(self) -> bool {
        &&& MIN_SIDE <= self.width <= MAX_SIDE
        &&& MIN_SIDE <= self.height <= MAX_SIDE
        &&& 1 <= self.mines <= self.size() - SAFE_ZONE
    }

    /// These arguments with each value moved into its limits.
    pub open spec fn clamped_spec(self) -> MinesweeperArgs {
        let width = clamp_spec(self.width as int, MIN_SIDE as int, MAX_SIDE as int);
        let height = clamp_spec(self.height as int, MIN_SIDE as int, MAX_SIDE as int);
        MinesweeperArgs {
            width: width as u16,
            height: height as u16,
            mines: clamp_spec(self.mines as int, 1, width * height - SAFE_ZONE) as u32,
        }
    }

    /// Moves width and height into `8..=256`, then the number of mines
    /// into `1..=width * height - 9`.
    pub fn clamped(self) -> (r: Self)
        ensures
            r == self.clamped_spec(),
            r.valid(),
    {
        let width = if self.width < MIN_SIDE {
            MIN_SIDE
        } else if self.width > MAX_SIDE {
            MAX_SIDE
        } else {
            self.width
        };
        let height = if self.height < MIN_SIDE {
            MIN_SIDE
        } else if self.height > MAX_SIDE {
            MAX_SIDE
        } else {
            self.height
        };
        assert(64 <= width * height <= 65536) by (nonlinear_arith)
            requires
                8 <= width <= 256,
                8 <= height <= 256,
        ;
        let max_mines = width as u32 * height as u32 - SAFE_ZONE;
        let mines = if self.mines < 1 {
            1
        } else if self.mines > max_mines {
            max_mines
        } else {
            self.mines
        };
        MinesweeperArgs { width, height, mines }
    }
}

impl Default for MinesweeperArgs {
    fn default() -> (r: Self)
        ensures
            r == (MinesweeperArgs { width: 0, height: 0, mines: 0 }),
    {
        MinesweeperArgs { width: 0, height: 0, mines: 0 }
    }
}

/// A valid board has between 64 and 65536 cells.
pub proof fn lemma_valid_size(args: MinesweeperArgs)
    requires
        args.valid(),
    ensures
        64 <= args.size() <= 65536,
{
    assert(64 <= args.width * args.height <= 65536) by (nonlinear_arith)
        requires
            8 <= args.width <= 256,
            8 <= args.height <= 256,
    ;
}

} // verus!
