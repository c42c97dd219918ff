use minesweeper::args::MinesweeperArgs;
use minesweeper::cell::Cell;
use minesweeper::cell_content::CellContent;
use minesweeper::display::{decimal_digits, DisplayText};
use minesweeper::flag::Flag;
use minesweeper::math_util::{dist_to_range, get_in_range};
use minesweeper::minesweeper::next_multiple_of;
use minesweeper::tile_visibility::TileVisibility;
use minesweeper::util::{i_xy, valid_neighbors, xy_i, Sign, DIRS_8, DIRS_9};
use minesweeper::win_state::WinState;

fn cell(visibility: TileVisibility, content: CellContent) -> Cell {
    Cell { visibility, content }
}

#[test]
fn flag_cycles_through_three_states() {
    assert_eq!(Flag::Clear.next(), Flag::Flagged);
    assert_eq!(Flag::Flagged.next(), Flag::FlaggedMaybe);
    assert_eq!(Flag::FlaggedMaybe.next(), Flag::Clear);
    assert_eq!(Flag::Clear.next().next().next(), Flag::Clear);
}

#[test]
fn defaults_are_a_blank_hidden_cell() {
    assert_eq!(CellContent::default(), CellContent::Empty(0));
    assert_eq!(TileVisibility::default(), TileVisibility::Hidden(Flag::Clear));
    assert_eq!(WinState::default(), WinState::Untouched);
    assert_eq!(
        Cell::default(),
        cell(TileVisibility::Hidden(Flag::Clear), CellContent::Empty(0))
    );
}

#[test]
fn symbols_of_hidden_cells() {
    let mine = CellContent::Mine;
    assert_eq!(cell(TileVisibility::Hidden(Flag::Clear), mine).symbol(), '#');
    assert_eq!(cell(TileVisibility::Hidden(Flag::Flagged), mine).symbol(), '!');
    assert_eq!(
        cell(TileVisibility::Hidden(Flag::FlaggedMaybe), CellContent::Empty(3)).symbol(),
        '?'
    );
}

#[test]
fn symbols_of_shown_cells() {
    assert_eq!(cell(TileVisibility::Show, CellContent::Empty(0)).symbol(), '.');
    assert_eq!(cell(TileVisibility::Show, CellContent::Empty(1)).symbol(), '1');
    assert_eq!(cell(TileVisibility::Show, CellContent::Empty(5)).symbol(), '5');
    assert_eq!(cell(TileVisibility::Show, CellContent::Empty(8)).symbol(), '8');
    assert_eq!(cell(TileVisibility::Show, CellContent::Mine).symbol(), '*');
}

#[test]
fn sign_values() {
    assert_eq!(Sign::Negative.value(), -1);
    assert_eq!(Sign::Positive.value(), 1);
}

#[test]
fn cursor_to_index_is_row_major() {
    assert_eq!(xy_i((0, 0), 8, 8), Some(0));
    assert_eq!(xy_i((4, 4), 8, 8), Some(36));
    assert_eq!(xy_i((7, 7), 8, 8), Some(63));
    assert_eq!(xy_i((3, 2), 10, 5), Some(23));
}

#[test]
fn cursor_off_the_grid_has_no_index() {
    assert_eq!(xy_i((8, 0), 8, 8), None);
    assert_eq!(xy_i((0, 8), 8, 8), None);
    assert_eq!(xy_i((0, 0), 0, 0), None);
    assert_eq!(xy_i((65535, 65535), 256, 256), None);
}

#[test]
fn index_to_cursor_inverts_cursor_to_index() {
    assert_eq!(i_xy(0, 8, 8), Some((0, 0)));
    assert_eq!(i_xy(36, 8, 8), Some((4, 4)));
    assert_eq!(i_xy(23, 10, 5), Some((3, 2)));
    assert_eq!(i_xy(64, 8, 8), None);
    assert_eq!(i_xy(0, 0, 5), None);
    for i in 0..50usize {
        let c = i_xy(i, 10, 5).unwrap();
        assert_eq!(xy_i(c, 10, 5), Some(i));
    }
}

#[test]
fn neighbors_in_the_middle_are_eight() {
    let n = valid_neighbors(&DIRS_8, (4, 4), 8, 8);
    assert_eq!(
        n,
        vec![(5, 4), (5, 5), (4, 5), (3, 5), (3, 4), (3, 3), (4, 3), (5, 3)]
    );
}

#[test]
fn neighbors_in_a_corner_are_three_and_distinct() {
    let n = valid_neighbors(&DIRS_8, (0, 0), 8, 8);
    assert_eq!(n, vec![(1, 0), (1, 1), (0, 1)]);
    let m = valid_neighbors(&DIRS_8, (7, 7), 8, 8);
    assert_eq!(m, vec![(6, 7), (6, 6), (7, 6)]);
}

#[test]
fn neighbors_on_an_edge_are_five() {
    let n = valid_neighbors(&DIRS_8, (0, 3), 8, 8);
    assert_eq!(n, vec![(1, 3), (1, 4), (0, 4), (0, 2), (1, 2)]);
}

#[test]
fn nine_directions_include_the_cell_itself() {
    let n = valid_neighbors(&DIRS_9, (0, 0), 8, 8);
    assert_eq!(n, vec![(0, 0), (1, 0), (1, 1), (0, 1)]);
    let m = valid_neighbors(&DIRS_9, (4, 4), 8, 8);
    assert_eq!(m.len(), 9);
    assert_eq!(m[0], (4, 4));
}

#[test]
fn neighbors_of_a_cursor_off_the_grid() {
    let n = valid_neighbors(&DIRS_8, (8, 8), 8, 8);
    assert_eq!(n, vec![(7, 7)]);
    let m = valid_neighbors(&DIRS_8, (20, 20), 8, 8);
    assert!(m.is_empty());
    let none: [(i8, i8); 0] = [];
    assert!(valid_neighbors(&none, (4, 4), 8, 8).is_empty());
}

#[test]
fn args_are_clamped_from_below() {
    let a = MinesweeperArgs { width: 0, height: 0, mines: 0 }.clamped();
    assert_eq!((a.width, a.height, a.mines), (8, 8, 1));
}

#[test]
fn args_are_clamped_from_above() {
    let a = MinesweeperArgs { width: 300, height: 10, mines: 100_000 }.clamped();
    assert_eq!((a.width, a.height, a.mines), (256, 10, 2551));
    let b = MinesweeperArgs { width: 65535, height: 65535, mines: u32::MAX }.clamped();
    assert_eq!((b.width, b.height, b.mines), (256, 256, 65527));
}

#[test]
fn args_within_limits_are_kept() {
    let a = MinesweeperArgs { width: 32, height: 16, mines: 100 }.clamped();
    assert_eq!((a.width, a.height, a.mines), (32, 16, 100));
    let b = MinesweeperArgs { width: 8, height: 8, mines: 55 }.clamped();
    assert_eq!(b.mines, 55);
    let c = MinesweeperArgs { width: 8, height: 8, mines: 56 }.clamped();
    assert_eq!(c.mines, 55);
}

#[test]
fn default_args_are_zero() {
    let a = MinesweeperArgs::default();
    assert_eq!((a.width, a.height, a.mines), (0, 0, 0));
}

#[test]
fn distance_to_a_range() {
    assert_eq!(dist_to_range(5i16, 10, 20), -5);
    assert_eq!(dist_to_range(25i16, 10, 20), 5);
    assert_eq!(dist_to_range(10i16, 10, 20), 0);
    assert_eq!(dist_to_range(20i16, 10, 20), 0);
    assert_eq!(dist_to_range(15i32, 10, 20), 0);
    assert_eq!(dist_to_range(-3i32, -1, 1), -2);
}

#[test]
fn value_within_a_range() {
    assert_eq!(get_in_range(15i16, 10, 20), Some(15));
    assert_eq!(get_in_range(10i16, 10, 20), Some(10));
    assert_eq!(get_in_range(20i16, 10, 20), Some(20));
    assert_eq!(get_in_range(9i16, 10, 20), None);
    assert_eq!(get_in_range(21i16, 10, 20), None);
}

#[test]
fn next_multiple() {
    assert_eq!(next_multiple_of(7, 5), 10);
    assert_eq!(next_multiple_of(10, 5), 10);
    assert_eq!(next_multiple_of(0, 5), 0);
    assert_eq!(next_multiple_of(1, 1), 1);
    assert_eq!(next_multiple_of(101, 5), 105);
}

#[test]
fn digits_of_numbers() {
    assert_eq!(decimal_digits(0), 1);
    assert_eq!(decimal_digits(9), 1);
    assert_eq!(decimal_digits(10), 2);
    assert_eq!(decimal_digits(255), 3);
    assert_eq!(decimal_digits(65527), 5);
    assert_eq!(decimal_digits(u32::MAX), 10);
}

#[test]
fn texts_for_a_narrow_board() {
    let d = DisplayText::new(&MinesweeperArgs { width: 8, height: 8, mines: 1 });
    assert_eq!(d.title, "mnswpr!!");
    assert_eq!(d.text_top, "(R) (Q)");
    assert_eq!(d.text_bottom, "(N) (P)");
    assert_eq!((d.width_digits, d.height_digits, d.mines_digits), (1, 1, 1));
}

#[test]
fn texts_for_a_wide_board() {
    let d = DisplayText::new(&MinesweeperArgs { width: 32, height: 16, mines: 100 });
    assert_eq!(d.title, "Minesweeper!");
    assert_eq!(d.text_top, "(R)etry (Q)uit");
    assert_eq!(d.text_bottom, "(N)ext (P)rev");
    assert_eq!((d.width_digits, d.height_digits, d.mines_digits), (2, 2, 3));
}

#[test]
fn texts_for_a_board_between_the_two_widths() {
    let d = DisplayText::new(&MinesweeperArgs { width: 12, height: 8, mines: 1 });
    assert_eq!(d.title, "Minesweeper!");
    assert_eq!(d.text_top, "(R) (Q)");
    let e = DisplayText::new(&MinesweeperArgs { width: 11, height: 8, mines: 1 });
    assert_eq!(e.title, "mnswpr!!");
    let f = DisplayText::new(&MinesweeperArgs { width: 14, height: 8, mines: 1 });
    assert_eq!(f.text_top, "(R)etry (Q)uit");
    let g = DisplayText::new(&MinesweeperArgs { width: 13, height: 8, mines: 1 });
    assert_eq!(g.text_bottom, "(N) (P)");
}
