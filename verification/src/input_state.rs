//! What the player has entered.
use vstd::prelude::*;
use crate::action::Action;
use crate::util::Cursor;

verus! {

/// What the player has entered: where the cursor stands, and the one
/// action that waits for the next update.
#[derive(Debug)]
pub struct InputState {
    pub cursor: Cursor,
    pub action: Option<Action>,
}

impl Default for InputState {
    fn default() -> (r: Self)
        ensures
            r.cursor == (0u16, 0u16),
            r.action is None,
    {
        InputState { cursor: (0, 0), action: None }
    }
}

} // verus!
