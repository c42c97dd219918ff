use minesweeper::action::{Action, DebugAction, GameCommand, RestartAction};
use minesweeper::args::MinesweeperArgs;
use minesweeper::cell::Cell;
use minesweeper::cell_content::CellContent;
use minesweeper::flag::Flag;
use minesweeper::input_state::InputState;
use minesweeper::minesweeper::Minesweeper;
use minesweeper::tile_visibility::TileVisibility;
use minesweeper::util::Sign;
use minesweeper::win_state::WinState;

fn game(width: u16, height: u16, mines: u32) -> Minesweeper {
    Minesweeper::new(MinesweeperArgs { width, height, mines })
}

fn submit(m: &mut Minesweeper, action: Action) {
    m.input_state.action = Some(action);
    m.update();
    assert!(m.input_state.action.is_none());
}

fn command(m: &mut Minesweeper, cmd: GameCommand) {
    submit(m, Action::Command(cmd));
}

fn counts(m: &Minesweeper) -> (u32, u32, u32) {
    let cells = &m.game_state.cells;
    let closed_empty = cells
        .iter()
        .filter(|c| {
            matches!(c.content, CellContent::Empty(_))
                && matches!(c.visibility, TileVisibility::Hidden(_))
        })
        .count() as u32;
    let open_mines = cells
        .iter()
        .filter(|c| c.content == CellContent::Mine && c.visibility == TileVisibility::Show)
        .count() as u32;
    let flagged = cells
        .iter()
        .filter(|c| c.visibility == TileVisibility::Hidden(Flag::Flagged))
        .count() as u32;
    (closed_empty, open_mines, flagged)
}

fn assert_counters_match(m: &Minesweeper) {
    let g = &m.game_state;
    assert_eq!((g.closed_empty_cells, g.open_mine_cells, g.flagged_cells), counts(m));
}

fn mine_cursor(m: &Minesweeper) -> (u16, u16) {
    let i = m.game_state.cells.iter().position(|c| c.content == CellContent::Mine).unwrap();
    ((i % m.args.width as usize) as u16, (i / m.args.width as usize) as u16)
}

#[test]
fn a_new_game_is_fresh() {
    let m = game(8, 8, 1);
    assert_eq!((m.args.width, m.args.height, m.args.mines), (8, 8, 1));
    assert_eq!(m.game_state.win_state, WinState::Untouched);
    assert_eq!(m.game_state.cells.len(), 64);
    assert!(m.game_state.cells.iter().all(|c| *c == Cell::default()));
    assert_eq!(m.game_state.closed_empty_cells, 63);
    assert_eq!(m.game_state.flagged_cells, 0);
    assert_eq!(m.game_state.open_mine_cells, 0);
    assert!(m.history.entries.is_empty());
    assert_eq!(m.history.index, 0);
    assert_eq!(m.input_state.cursor, (0, 0));
    assert!(m.input_state.action.is_none());
    assert_eq!(m.display.title, "mnswpr!!");
}

#[test]
fn a_new_game_clamps_its_arguments() {
    let m = game(2, 1000, 0);
    assert_eq!((m.args.width, m.args.height, m.args.mines), (8, 256, 1));
    assert_eq!(m.game_state.cells.len(), 8 * 256);
    let n = game(16, 16, 100_000);
    assert_eq!(n.args.mines, 247);
    assert_eq!(n.game_state.closed_empty_cells, 9);
}

#[test]
fn update_without_an_action_changes_nothing() {
    let mut m = game(8, 8, 1);
    m.update();
    assert_eq!(m.game_state.win_state, WinState::Untouched);
    assert!(m.history.entries.is_empty());
}

#[test]
fn first_click_keeps_its_neighbourhood_free_of_mines() {
    for _ in 0..100 {
        let mut m = game(8, 8, 1);
        command(&mut m, GameCommand::OpenCell((4, 4)));
        for y in 3..=5 {
            for x in 3..=5 {
                let tile = m.get_tile(x, y).unwrap();
                assert!(matches!(tile.content, CellContent::Empty(_)));
            }
        }
        assert_eq!(
            m.game_state.cells.iter().filter(|c| c.content == CellContent::Mine).count(),
            1
        );
        assert_ne!(m.game_state.win_state, WinState::Untouched);
        assert_eq!(m.get_tile(4, 4).unwrap().visibility, TileVisibility::Show);
        assert_eq!(m.history.entries.len(), 1);
        assert_counters_match(&m);
    }
}

#[test]
fn first_click_with_the_most_mines_opens_just_the_safe_zone() {
    for _ in 0..50 {
        let mut m = game(8, 8, 55);
        command(&mut m, GameCommand::OpenCell((4, 4)));
        assert_eq!(m.game_state.win_state, WinState::Won);
        let shown = m
            .game_state
            .cells
            .iter()
            .filter(|c| c.visibility == TileVisibility::Show)
            .count();
        assert_eq!(shown, 9);
        assert_eq!(m.game_state.closed_empty_cells, 0);
        assert_counters_match(&m);
    }
}

#[test]
fn first_click_in_a_corner() {
    for _ in 0..50 {
        let mut m = game(9, 8, 30);
        command(&mut m, GameCommand::OpenCell((0, 0)));
        for (x, y) in [(0, 0), (1, 0), (0, 1), (1, 1)] {
            assert!(matches!(m.get_tile(x, y).unwrap().content, CellContent::Empty(_)));
            assert_eq!(m.get_tile(x, y).unwrap().visibility, TileVisibility::Show);
        }
        assert_eq!(
            m.game_state.cells.iter().filter(|c| c.content == CellContent::Mine).count(),
            30
        );
        assert_counters_match(&m);
    }
}

#[test]
fn first_click_off_the_grid_is_ignored() {
    let mut m = game(8, 8, 1);
    command(&mut m, GameCommand::OpenCell((8, 8)));
    assert_eq!(m.game_state.win_state, WinState::Untouched);
    assert!(m.game_state.cells.iter().all(|c| *c == Cell::default()));
    assert!(m.history.entries.is_empty());
}

#[test]
fn flags_wait_for_the_first_click() {
    let mut m = game(8, 8, 1);
    command(&mut m, GameCommand::FlagCell((0, 0)));
    command(&mut m, GameCommand::Surrender);
    assert_eq!(m.game_state.win_state, WinState::Untouched);
    assert!(m.game_state.cells.iter().all(|c| *c == Cell::default()));
    assert!(m.history.entries.is_empty());
}

#[test]
fn opening_the_mine_loses_and_undo_takes_it_back() {
    let mut m = game(8, 8, 1);
    command(&mut m, GameCommand::OpenCell((4, 4)));
    let (mx, my) = mine_cursor(&m);
    if m.game_state.win_state == WinState::Won {
        submit(&mut m, Action::Debug(DebugAction::Undo));
        assert_eq!(m.game_state.win_state, WinState::Ongoing);
    }
    command(&mut m, GameCommand::OpenCell((mx, my)));
    assert_eq!(m.game_state.win_state, WinState::Lost);
    assert_eq!(m.game_state.open_mine_cells, 1);
    assert_eq!(m.get_tile(mx, my).unwrap().visibility, TileVisibility::Show);
    submit(&mut m, Action::Debug(DebugAction::Undo));
    assert_eq!(m.game_state.win_state, WinState::Ongoing);
    assert_eq!(m.get_tile(mx, my).unwrap().visibility, TileVisibility::Hidden(Flag::Clear));
    assert_eq!(m.game_state.open_mine_cells, 0);
    assert_counters_match(&m);
}

#[test]
fn a_lost_game_ignores_commands() {
    let mut m = game(8, 8, 10);
    command(&mut m, GameCommand::OpenCell((4, 4)));
    let (mx, my) = mine_cursor(&m);
    command(&mut m, GameCommand::OpenCell((mx, my)));
    assert_eq!(m.game_state.win_state, WinState::Lost);
    let cells = m.game_state.cells.clone();
    let logged = m.history.entries.len();
    for cmd in [
        GameCommand::OpenCell((0, 0)),
        GameCommand::FlagCell((0, 0)),
        GameCommand::ClearFlag((0, 0)),
        GameCommand::Surrender,
    ] {
        command(&mut m, cmd);
        assert_eq!(m.game_state.win_state, WinState::Lost);
        assert_eq!(m.game_state.cells, cells);
        assert_eq!(m.history.entries.len(), logged);
    }
}

#[test]
fn surrender_shows_the_whole_board() {
    let mut m = game(10, 8, 20);
    command(&mut m, GameCommand::OpenCell((2, 2)));
    if m.game_state.win_state == WinState::Ongoing {
        command(&mut m, GameCommand::Surrender);
        assert_eq!(m.game_state.win_state, WinState::Lost);
        assert_eq!(m.game_state.open_mine_cells, 20);
    }
    assert_counters_match(&m);
}

#[test]
fn undo_and_redo_walk_the_log() {
    let mut m = game(16, 16, 40);
    command(&mut m, GameCommand::OpenCell((8, 8)));
    let after_open = m.game_state.cells.clone();
    let (mx, my) = mine_cursor(&m);
    command(&mut m, GameCommand::FlagCell((mx, my)));
    let after_flag = m.game_state.cells.clone();
    assert_eq!(m.game_state.flagged_cells, 1);
    assert_eq!(m.history.entries.len(), 2);

    submit(&mut m, Action::Debug(DebugAction::Undo));
    assert_eq!(m.game_state.cells, after_open);
    assert_eq!(m.game_state.flagged_cells, 0);
    submit(&mut m, Action::Debug(DebugAction::Undo));
    assert!(m.game_state.cells.iter().all(|c| c.visibility == TileVisibility::Hidden(Flag::Clear)));
    assert_eq!(m.game_state.win_state, WinState::Ongoing);
    assert_eq!(m.game_state.closed_empty_cells, 256 - 40);
    submit(&mut m, Action::Debug(DebugAction::Undo));
    assert_eq!(m.history.index, 2);

    submit(&mut m, Action::Debug(DebugAction::Redo));
    assert_eq!(m.game_state.cells, after_open);
    submit(&mut m, Action::Debug(DebugAction::Redo));
    assert_eq!(m.game_state.cells, after_flag);
    submit(&mut m, Action::Debug(DebugAction::Redo));
    assert_eq!(m.game_state.cells, after_flag);
    assert_eq!(m.history.index, 0);
    assert_counters_match(&m);
}

#[test]
fn a_new_action_after_undo_forgets_the_undone() {
    let mut m = game(16, 16, 40);
    command(&mut m, GameCommand::OpenCell((8, 8)));
    let (mx, my) = mine_cursor(&m);
    command(&mut m, GameCommand::FlagCell((mx, my)));
    submit(&mut m, Action::Debug(DebugAction::Undo));
    command(&mut m, GameCommand::FlagCell((mx, my)));
    command(&mut m, GameCommand::FlagCell((mx, my)));
    assert_eq!(m.history.entries.len(), 3);
    assert_eq!(m.history.index, 0);
    assert_eq!(m.get_tile(mx, my).unwrap().visibility, TileVisibility::Hidden(Flag::FlaggedMaybe));
    submit(&mut m, Action::Debug(DebugAction::Redo));
    assert_eq!(m.get_tile(mx, my).unwrap().visibility, TileVisibility::Hidden(Flag::FlaggedMaybe));
}

#[test]
fn undo_on_a_fresh_board_does_nothing() {
    let mut m = game(8, 8, 1);
    submit(&mut m, Action::Debug(DebugAction::Undo));
    submit(&mut m, Action::Debug(DebugAction::Redo));
    assert_eq!(m.game_state.win_state, WinState::Untouched);
    assert_eq!(m.history.index, 0);
}

#[test]
fn counters_stay_true_through_a_random_game() {
    for round in 0..20u16 {
        let mut m = game(12, 10, 25);
        command(&mut m, GameCommand::OpenCell((round % 12, round % 10)));
        assert_counters_match(&m);
        for step in 0..60u16 {
            let c = ((step * 7 + round) % 12, (step * 5 + round * 3) % 10);
            let cmd = match step % 5 {
                0 | 1 => GameCommand::OpenCell(c),
                2 | 3 => GameCommand::FlagCell(c),
                _ => GameCommand::ClearFlag(c),
            };
            command(&mut m, cmd);
            assert_counters_match(&m);
            if step % 9 == 8 {
                submit(&mut m, Action::Debug(DebugAction::Undo));
                assert_counters_match(&m);
            }
        }
    }
}

#[test]
fn restart_makes_a_fresh_board_and_keeps_the_cursor() {
    let mut m = game(10, 10, 10);
    m.input_state.cursor = (3, 4);
    command(&mut m, GameCommand::OpenCell((3, 4)));
    assert_ne!(m.game_state.win_state, WinState::Untouched);
    submit(&mut m, Action::Restart(None));
    assert_eq!(m.game_state.win_state, WinState::Untouched);
    assert!(m.game_state.cells.iter().all(|c| *c == Cell::default()));
    assert!(m.history.entries.is_empty());
    assert_eq!((m.args.width, m.args.height, m.args.mines), (10, 10, 10));
    assert_eq!(m.game_state.closed_empty_cells, 90);
    assert_eq!(m.input_state.cursor, (3, 4));
}

#[test]
fn resize_changes_one_side_by_one() {
    let mut m = game(10, 10, 10);
    submit(&mut m, Action::Restart(Some(RestartAction::ResizeH(Sign::Positive))));
    assert_eq!((m.args.width, m.args.height), (11, 10));
    assert_eq!(m.game_state.cells.len(), 110);
    submit(&mut m, Action::Restart(Some(RestartAction::ResizeV(Sign::Negative))));
    assert_eq!((m.args.width, m.args.height), (11, 9));
    assert_eq!(m.game_state.cells.len(), 99);
    submit(&mut m, Action::Restart(Some(RestartAction::ResizeH(Sign::Negative))));
    submit(&mut m, Action::Restart(Some(RestartAction::ResizeV(Sign::Positive))));
    assert_eq!((m.args.width, m.args.height), (10, 10));
}

#[test]
fn resize_stops_at_the_limits() {
    let mut m = game(8, 256, 10);
    submit(&mut m, Action::Restart(Some(RestartAction::ResizeH(Sign::Negative))));
    assert_eq!(m.args.width, 8);
    submit(&mut m, Action::Restart(Some(RestartAction::ResizeV(Sign::Positive))));
    assert_eq!(m.args.height, 256);
}

#[test]
fn shrinking_the_board_keeps_the_cursor_on_it() {
    let mut m = game(10, 10, 10);
    m.input_state.cursor = (9, 9);
    submit(&mut m, Action::Restart(Some(RestartAction::ResizeH(Sign::Negative))));
    assert_eq!(m.input_state.cursor, (8, 9));
    submit(&mut m, Action::Restart(Some(RestartAction::ResizeV(Sign::Negative))));
    assert_eq!(m.input_state.cursor, (8, 8));
}

#[test]
fn shrinking_the_board_clamps_the_mines() {
    let mut m = game(8, 9, 63);
    assert_eq!(m.args.mines, 63);
    submit(&mut m, Action::Restart(Some(RestartAction::ResizeV(Sign::Negative))));
    assert_eq!((m.args.height, m.args.mines), (8, 55));
}

#[test]
fn mines_go_up_and_down_by_one() {
    let mut m = game(10, 10, 10);
    submit(&mut m, Action::Restart(Some(RestartAction::IncrementMines(Sign::Positive))));
    assert_eq!(m.args.mines, 11);
    assert_eq!(m.game_state.closed_empty_cells, 89);
    submit(&mut m, Action::Restart(Some(RestartAction::IncrementMines(Sign::Negative))));
    submit(&mut m, Action::Restart(Some(RestartAction::IncrementMines(Sign::Negative))));
    assert_eq!(m.args.mines, 9);
    let mut low = game(10, 10, 1);
    submit(&mut low, Action::Restart(Some(RestartAction::IncrementMines(Sign::Negative))));
    assert_eq!(low.args.mines, 1);
    let mut high = game(10, 10, 91);
    submit(&mut high, Action::Restart(Some(RestartAction::IncrementMines(Sign::Positive))));
    assert_eq!(high.args.mines, 91);
}

#[test]
fn mines_go_up_and_down_by_a_hundredth_of_the_cells() {
    let mut m = game(32, 16, 100);
    let up = Action::Restart(Some(RestartAction::IncrementMinesPercent(Sign::Positive)));
    let down = Action::Restart(Some(RestartAction::IncrementMinesPercent(Sign::Negative)));
    submit(&mut m, up);
    assert_eq!(m.args.mines, 105);
    submit(&mut m, up);
    assert_eq!(m.args.mines, 110);
    submit(&mut m, down);
    assert_eq!(m.args.mines, 105);
    let mut odd = game(32, 16, 102);
    submit(&mut odd, down);
    assert_eq!(odd.args.mines, 100);
    let mut odd_up = game(32, 16, 102);
    submit(&mut odd_up, up);
    assert_eq!(odd_up.args.mines, 105);
}

#[test]
fn a_small_board_steps_its_mines_by_one() {
    let mut m = game(8, 8, 5);
    submit(&mut m, Action::Restart(Some(RestartAction::IncrementMinesPercent(Sign::Positive))));
    assert_eq!(m.args.mines, 6);
    submit(&mut m, Action::Restart(Some(RestartAction::IncrementMinesPercent(Sign::Negative))));
    assert_eq!(m.args.mines, 5);
    let mut low = game(8, 8, 1);
    submit(&mut low, Action::Restart(Some(RestartAction::IncrementMinesPercent(Sign::Negative))));
    assert_eq!(low.args.mines, 1);
}

#[test]
fn the_cursor_moves_within_the_board() {
    let mut m = game(10, 8, 5);
    m.move_cursor(3, 2);
    assert_eq!(m.input_state.cursor, (3, 2));
    m.move_cursor(-1, -1);
    assert_eq!(m.input_state.cursor, (2, 1));
    m.move_cursor(-5, -5);
    assert_eq!(m.input_state.cursor, (0, 0));
    m.move_cursor(100, 100);
    assert_eq!(m.input_state.cursor, (9, 7));
    m.move_cursor(0, 0);
    assert_eq!(m.input_state.cursor, (9, 7));
    m.move_cursor(i32::MAX, i32::MIN);
    assert_eq!(m.input_state.cursor, (9, 0));
    m.move_cursor(i32::MIN, i32::MAX);
    assert_eq!(m.input_state.cursor, (0, 7));
}

#[test]
fn moving_the_cursor_keeps_a_pending_action() {
    let mut m = game(10, 8, 5);
    m.input_state.action = Some(Action::Command(GameCommand::Surrender));
    m.move_cursor(1, 1);
    assert!(matches!(
        m.input_state.action,
        Some(Action::Command(GameCommand::Surrender))
    ));
}

#[test]
fn tiles_outside_the_board_are_none() {
    let m = game(8, 9, 1);
    assert!(m.get_tile(0, 0).is_some());
    assert!(m.get_tile(7, 8).is_some());
    assert!(m.get_tile(8, 0).is_none());
    assert!(m.get_tile(0, 9).is_none());
    assert!(m.get_tile(u16::MAX, u16::MAX).is_none());
}

#[test]
fn a_fresh_board_renders_as_rows_of_hashes() {
    let m = game(8, 9, 1);
    let text = m.render();
    let rows: Vec<&str> = text.lines().collect();
    assert_eq!(rows.len(), 9);
    assert!(rows.iter().all(|r| *r == "########"));
    assert!(text.ends_with('\n'));
    assert_eq!(text.len(), 9 * 9);
}

#[test]
fn a_won_board_renders_dots_digits_and_the_hidden_mine() {
    let mut m = game(8, 8, 1);
    command(&mut m, GameCommand::OpenCell((4, 4)));
    let (mx, my) = mine_cursor(&m);
    if m.game_state.win_state != WinState::Won {
        return;
    }
    let text = m.render();
    let rows: Vec<Vec<char>> = text.lines().map(|r| r.chars().collect()).collect();
    assert_eq!(rows.len(), 8);
    for (y, row) in rows.iter().enumerate() {
        assert_eq!(row.len(), 8);
        for (x, ch) in row.iter().enumerate() {
            let near = (x as i32 - mx as i32).abs() <= 1 && (y as i32 - my as i32).abs() <= 1;
            let expected = if (x as u16, y as u16) == (mx, my) {
                '#'
            } else if near {
                '1'
            } else {
                '.'
            };
            assert_eq!(*ch, expected);
        }
    }
}

#[test]
fn a_surrendered_board_renders_its_mines_and_flags_are_gone() {
    let mut m = game(8, 8, 55);
    command(&mut m, GameCommand::OpenCell((0, 0)));
    submit(&mut m, Action::Debug(DebugAction::Undo));
    command(&mut m, GameCommand::FlagCell((1, 0)));
    command(&mut m, GameCommand::FlagCell((0, 1)));
    command(&mut m, GameCommand::FlagCell((0, 1)));
    let text = m.render();
    let rows: Vec<&str> = text.lines().collect();
    assert!(rows[0].starts_with("#!"));
    assert!(rows[1].starts_with("?#"));
    command(&mut m, GameCommand::Surrender);
    let text = m.render();
    assert_eq!(text.chars().filter(|c| *c == '*').count(), 55);
    assert_eq!(text.chars().filter(|c| *c == '#' || *c == '!' || *c == '?').count(), 0);
    assert_eq!(m.game_state.win_state, WinState::Lost);
}

#[test]
fn default_input_state_has_no_action() {
    let i = InputState::default();
    assert_eq!(i.cursor, (0, 0));
    assert!(i.action.is_none());
}

#[test]
fn submit_enters_the_action_for_the_next_update() {
    let mut m = game(8, 8, 1);
    m.submit(Action::Command(GameCommand::OpenCell((4, 4))));
    assert!(matches!(
        m.input_state.action,
        Some(Action::Command(GameCommand::OpenCell((4, 4))))
    ));
    assert_eq!(m.game_state.win_state, WinState::Untouched);
    m.submit(Action::Restart(None));
    assert!(matches!(m.input_state.action, Some(Action::Restart(None))));
    m.submit(Action::Command(GameCommand::OpenCell((1, 1))));
    m.update();
    assert!(m.input_state.action.is_none());
    assert_eq!(m.get_tile(1, 1).unwrap().visibility, TileVisibility::Show);
}

#[test]
fn the_largest_board_plays() {
    let mut m = game(256, 256, 2000);
    assert_eq!(m.game_state.cells.len(), 65536);
    command(&mut m, GameCommand::OpenCell((255, 255)));
    assert_eq!(
        m.game_state.cells.iter().filter(|c| c.content == CellContent::Mine).count(),
        2000
    );
    assert_eq!(m.get_tile(255, 255).unwrap().visibility, TileVisibility::Show);
    assert_counters_match(&m);
    if m.game_state.win_state == WinState::Ongoing {
        command(&mut m, GameCommand::Surrender);
        assert_eq!(m.game_state.win_state, WinState::Lost);
        assert_eq!(m.game_state.open_mine_cells, 2000);
    }
    let text = m.render();
    assert_eq!(text.len(), 257 * 256);
    submit(&mut m, Action::Debug(DebugAction::Undo));
    assert_counters_match(&m);
}
