//! The marks on hidden cells.
use vstd::prelude::*;

verus! {

/// The mark a player may leave on a hidden cell.
#[derive(Copy, Clone, Debug, PartialEq, Eq, Structural)]
pub enum Flag {
    Clear,
    Flagged,
    FlaggedMaybe,
}

impl Flag {
    /// The cyclic successor: `Clear`, then `Flagged`, then `FlaggedMaybe`, then `Clear` again.
    pub open spec fn next_spec(self) -> Flag {
        match self {
            Flag::Clear => Flag::Flagged,
            Flag::Flagged => Flag::FlaggedMaybe,
            Flag::FlaggedMaybe => Flag::Clear,
        }
    }

    pub fn next(self) -> (r: Flag)
        ensures
            r == self.next_spec(),
    {
        match self {
            Flag::Clear => Flag::Flagged,
            Flag::Flagged => Flag::FlaggedMaybe,
            Flag::FlaggedMaybe => Flag::Clear,
        }
    }
}

/// Stepping three times through the cycle comes back to the start.
pub proof fn lemma_flag_cycle(f: Flag)
    ensures
        f.next_spec().next_spec().next_spec() == f,
        f.next_spec() != f,
{
}

} // verus!
