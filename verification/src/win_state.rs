//! The phases of a game.
use vstd::prelude::*;

verus! {

/// The phase of a game. `Won` and `Lost` are terminal.
#[derive(Copy, Clone, Debug, PartialEq, Eq, Structural)]
pub enum WinState {
    Untouched,
    Ongoing,
    Lost,
    Won,
}

impl WinState {
    /// The phase that the two counters stand for once mines are placed.
    pub open spec fn derived(closed_empty_cells: int, open_mine_cells: int) -> WinState {
        if open_mine_cells != 0 {
            WinState::Lost
        } else if closed_empty_cells == 0 {
            WinState::Won
        } else {
            WinState::Ongoing
        }
    }

    /// `Won` or `Lost`.
    pub open spec fn is_terminal(self) -> bool {
        self == WinState::Won || self == WinState::Lost
    }
}

impl Default for WinState {
    fn default() -> (r: Self)
        ensures
            r == WinState::Untouched,
    {
        WinState::Untouched
    }
}

} // verus!
