//! The texts shown around the board.
use vstd::prelude::*;
use crate::args::MinesweeperArgs;

verus! {

/// The texts shown on a board that is wide enough for them.
pub const RETRY: &'static str = "(R)etry (Q)uit";

pub const NEXT: &'static str = "(N)ext (P)rev";

pub const TITLE: &'static str = "Minesweeper!";

/// Their short forms, for narrow boards.
pub const RETRY_SHORT: &'static str = "(R) (Q)";

pub const NEXT_SHORT: &'static str = "(N) (P)";

pub const TITLE_SHORT: &'static str = "mnswpr!!";

/// The width from which the long title fits: its length.
pub const TITLE_WIDTH: u16 = 12;

/// The width from which both long hints fit: the length of the longer one.
pub const HINT_WIDTH: u16 = 14;

/// The texts around the board, and how many digits its numbers take.
#[derive(Debug)]
pub struct DisplayText {
    pub text_top: &'static str,
    pub title: &'static str,
    pub text_bottom: &'static str,
    pub width_digits: usize,
    pub height_digits: usize,
    pub mines_digits: usize,
}

/// The number of decimal digits of `n`.
pub open spec fn digits_spec(n: nat) -> nat
    decreases n,
{
    if n < 10 {
        1
    } else {
        1 + digits_spec(n / 10)
    }
}

/// A number that fits thirty-two bits has at most ten digits.
pub proof fn lemma_digits_bound(n: nat)
    requires
        n <= u32::MAX,
    ensures
        1 <= digits_spec(n) <= 10,
{
    reveal_with_fuel(digits_spec, 11);
}

/// The number of decimal digits of `n`; zero has one.
pub fn decimal_digits(n: u32) -> (d: usize)
    ensures
        d == digits_spec(n as nat),
        1 <= d <= 10,
{
    let mut rest = n;
    let mut d: usize = 1;
    proof {
        lemma_digits_bound(n as nat);
    }
    while rest >= 10
        invariant
            1 <= d,
            d + digits_spec(rest as nat) == 1 + digits_spec(n as nat),
            digits_spec(n as nat) <= 10,
        decreases rest,
    {
        rest = rest / 10;
        d += 1;
    }
    d
}

impl DisplayText {
    /// Whether these are the texts for a board with the given arguments:
    /// the long title and hints where the board is wide enough for them,
    /// else the short ones, and the digits of the largest column, the
    /// largest row and the number of mines.
    pub open spec fn is_for(&self, args: MinesweeperArgs) -> bool {
        &&& self.title@ == (if args.width < TITLE_WIDTH {
            TITLE_SHORT@
        } else {
            TITLE@
        })
        &&& self.text_top@ == (if args.width < HINT_WIDTH {
            RETRY_SHORT@
        } else {
            RETRY@
        })
        &&& self.text_bottom@ == (if args.width < HINT_WIDTH {
            NEXT_SHORT@
        } else {
            NEXT@
        })
        &&& self.width_digits == digits_spec((args.width - 1) as nat)
        &&& self.height_digits == digits_spec((args.height - 1) as nat)
        &&& self.mines_digits == digits_spec(args.mines as nat)
    }

    /// The texts for a board with the given arguments.
    pub fn new(args: &MinesweeperArgs) -> (r: Self)
        requires
            args.width >= 1,
            args.height >= 1,
        ensures
            r.is_for(*args),
    {
        let title = if args.width < TITLE_WIDTH {
            TITLE_SHORT
        } else {
            TITLE
        };
        let (text_top, text_bottom) = if args.width < HINT_WIDTH {
            (RETRY_SHORT, NEXT_SHORT)
        } else {
            (RETRY, NEXT)
        };
        DisplayText {
            text_top,
            title,
            text_bottom,
            width_digits: decimal_digits((args.width - 1) as u32),
            height_digits: decimal_digits((args.height - 1) as u32),
            mines_digits: decimal_digits(args.mines),
        }
    }
}

impl Default for DisplayText {
    fn default() -> (r: Self)
        ensures
            r.text_top@ == ""@,
            r.title@ == ""@,
            r.text_bottom@ == ""@,
            r.width_digits == 0,
            r.height_digits == 0,
            r.mines_digits == 0,
    {
        DisplayText {
            text_top: "",
            title: "",
            text_bottom: "",
            width_digits: 0,
            height_digits: 0,
            mines_digits: 0,
        }
    }
}

/// The two widths are the lengths of the long title and of the longer hint.
pub proof fn lemma_text_widths()
    ensures
        TITLE@.len() == TITLE_WIDTH,
        RETRY@.len() == HINT_WIDTH,
        NEXT@.len() <= HINT_WIDTH,
        TITLE_SHORT@.len() == 8,
        RETRY_SHORT@.len() == 7,
        NEXT_SHORT@.len() == 7,
{
    reveal_strlit("Minesweeper!");
    reveal_strlit("(R)etry (Q)uit");
    reveal_strlit("(N)ext (P)rev");
    reveal_strlit("mnswpr!!");
    reveal_strlit("(R) (Q)");
    reveal_strlit("(N) (P)");
}

} // verus!
