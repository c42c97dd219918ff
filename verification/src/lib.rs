//! A reversible minesweeper board engine.
pub mod action;
pub mod args;
pub mod board;
pub mod cell;
pub mod cell_content;
pub mod diff;
pub mod display;
pub mod flag;
pub mod flood;
pub mod game_state;
pub mod history;
pub mod input_state;
pub mod laws;
pub mod math_util;
pub mod minesweeper;
pub mod placement;
pub mod random_fill;
pub mod tile_visibility;
pub mod util;
pub mod win_state;
