//! What a cell holds.
use vstd::prelude::*;

verus! {

/// What lies under a cell: a mine, or the number of mines that touch it.
#[derive(Copy, Clone, Debug, PartialEq, Eq, Structural)]
pub enum CellContent {
    Empty(u8),
    Mine,
}

impl Default for CellContent {
    fn default() -> (r: Self)
        ensures
            r == CellContent::Empty(0),
    {
        CellContent::Empty(0)
    }
}

} // verus!
