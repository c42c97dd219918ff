//! Whether a cell is seen.
use vstd::prelude::*;
use crate::flag::Flag;

verus! {

/// Whether a cell has been opened; a hidden cell carries its flag.
#[derive(Copy, Clone, Debug, PartialEq, Eq, Structural)]
pub enum TileVisibility {
    Hidden(Flag),
    Show,
}

impl Default for TileVisibility {
    fn default() -> (r: Self)
        ensures
            r == TileVisibility::Hidden(Flag::Clear),
    {
        TileVisibility::Hidden(Flag::Clear)
    }
}

} // verus!
