use minesweeper::action::{expand_cell_diff_result, GameCommand};
use minesweeper::args::MinesweeperArgs;
use minesweeper::cell::Cell;
use minesweeper::cell_content::CellContent;
use minesweeper::diff::{Diff, SingleCellDiff};
use minesweeper::flag::Flag;
use minesweeper::game_state::GameState;
use minesweeper::history::History;
use minesweeper::tile_visibility::TileVisibility;
use minesweeper::win_state::WinState;

const W: u16 = 8;
const H: u16 = 8;

fn args() -> MinesweeperArgs {
    MinesweeperArgs { width: W, height: H, mines: 1 }
}

fn idx(x: u16, y: u16) -> usize {
    y as usize * W as usize + x as usize
}

/// An 8 by 8 board in play with mines at the given cursors, all cells hidden.
fn board(mines: &[(u16, u16)]) -> GameState {
    let mut cells = vec![Cell::default(); 64];
    for &(x, y) in mines {
        cells[idx(x, y)].content = CellContent::Mine;
    }
    for y in 0..H as i32 {
        for x in 0..W as i32 {
            let i = idx(x as u16, y as u16);
            if cells[i].content == CellContent::Mine {
                continue;
            }
            let mut n = 0u8;
            for dy in -1..=1i32 {
                for dx in -1..=1i32 {
                    let (nx, ny) = (x + dx, y + dy);
                    if (dx, dy) != (0, 0) && nx >= 0 && ny >= 0 && nx < W as i32 && ny < H as i32 {
                        if cells[idx(nx as u16, ny as u16)].content == CellContent::Mine {
                            n += 1;
                        }
                    }
                }
            }
            cells[i].content = CellContent::Empty(n);
        }
    }
    GameState {
        win_state: WinState::Ongoing,
        cells,
        flagged_cells: 0,
        closed_empty_cells: 64 - mines.len() as u32,
        open_mine_cells: 0,
    }
}

fn entries(diff: &Diff) -> Vec<SingleCellDiff> {
    match diff {
        Diff::SingleCell(d) => vec![*d],
        Diff::MultiCell(ds) => ds.clone(),
    }
}

fn play(game: &mut GameState, cmd: GameCommand) -> Option<Diff> {
    let diff = cmd.apply(game, &args());
    if let Some(d) = &diff {
        game.apply(d);
    }
    diff
}

fn count<F: Fn(&Cell) -> bool>(game: &GameState, f: F) -> u32 {
    game.cells.iter().filter(|c| f(c)).count() as u32
}

fn assert_counters_match(game: &GameState) {
    assert_eq!(
        game.closed_empty_cells,
        count(game, |c| matches!(c.content, CellContent::Empty(_))
            && matches!(c.visibility, TileVisibility::Hidden(_)))
    );
    assert_eq!(
        game.open_mine_cells,
        count(game, |c| c.content == CellContent::Mine && c.visibility == TileVisibility::Show)
    );
    assert_eq!(
        game.flagged_cells,
        count(game, |c| c.visibility == TileVisibility::Hidden(Flag::Flagged))
    );
}

fn snapshot(game: &GameState) -> (WinState, Vec<Cell>, u32, u32, u32) {
    (
        game.win_state,
        game.cells.clone(),
        game.flagged_cells,
        game.closed_empty_cells,
        game.open_mine_cells,
    )
}

#[test]
fn flag_twice_then_clear_walks_the_cycle() {
    let mut game = board(&[(7, 7)]);
    assert_eq!(game.cells[0].visibility, TileVisibility::Hidden(Flag::Clear));
    play(&mut game, GameCommand::FlagCell((0, 0))).unwrap();
    assert_eq!(game.cells[0].visibility, TileVisibility::Hidden(Flag::Flagged));
    assert_eq!(game.flagged_cells, 1);
    play(&mut game, GameCommand::FlagCell((0, 0))).unwrap();
    assert_eq!(game.cells[0].visibility, TileVisibility::Hidden(Flag::FlaggedMaybe));
    assert_eq!(game.flagged_cells, 0);
    play(&mut game, GameCommand::ClearFlag((0, 0))).unwrap();
    assert_eq!(game.cells[0].visibility, TileVisibility::Hidden(Flag::Clear));
    assert_eq!(game.flagged_cells, 0);
    assert_eq!(game.win_state, WinState::Ongoing);
}

#[test]
fn flagging_yields_a_single_cell_diff() {
    let game = board(&[(7, 7)]);
    let diff = GameCommand::FlagCell((2, 1)).apply(&game, &args()).unwrap();
    match diff {
        Diff::SingleCell(d) => {
            assert_eq!(d.index, 10);
            assert_eq!(d.before, game.cells[10]);
            assert_eq!(d.after.visibility, TileVisibility::Hidden(Flag::Flagged));
            assert_eq!(d.after.content, game.cells[10].content);
        }
        Diff::MultiCell(_) => panic!("flagging changes one cell"),
    }
    assert_eq!(game.cells[10].visibility, TileVisibility::Hidden(Flag::Clear));
}

#[test]
fn third_flag_step_clears() {
    let mut game = board(&[(7, 7)]);
    for _ in 0..3 {
        play(&mut game, GameCommand::FlagCell((3, 3))).unwrap();
    }
    assert_eq!(game.cells[idx(3, 3)].visibility, TileVisibility::Hidden(Flag::Clear));
}

#[test]
fn clear_flag_is_a_no_op_without_a_flag() {
    let mut game = board(&[(7, 7)]);
    assert!(GameCommand::ClearFlag((0, 0)).apply(&game, &args()).is_none());
    play(&mut game, GameCommand::OpenCell((6, 6))).unwrap();
    assert!(GameCommand::ClearFlag((6, 6)).apply(&game, &args()).is_none());
}

#[test]
fn clear_flag_takes_a_definite_flag_off() {
    let mut game = board(&[(7, 7)]);
    play(&mut game, GameCommand::FlagCell((0, 0))).unwrap();
    let diff = play(&mut game, GameCommand::ClearFlag((0, 0))).unwrap();
    let e = entries(&diff);
    assert_eq!(e.len(), 1);
    assert_eq!(e[0].before.visibility, TileVisibility::Hidden(Flag::Flagged));
    assert_eq!(e[0].after.visibility, TileVisibility::Hidden(Flag::Clear));
    assert_eq!(game.flagged_cells, 0);
}

#[test]
fn commands_off_the_grid_yield_nothing() {
    let game = board(&[(7, 7)]);
    assert!(GameCommand::OpenCell((8, 0)).apply(&game, &args()).is_none());
    assert!(GameCommand::FlagCell((0, 8)).apply(&game, &args()).is_none());
    assert!(GameCommand::ClearFlag((100, 100)).apply(&game, &args()).is_none());
}

#[test]
fn commands_on_an_untouched_board_yield_nothing() {
    let mut game = board(&[(7, 7)]);
    game.win_state = WinState::Untouched;
    assert!(GameCommand::OpenCell((0, 0)).apply(&game, &args()).is_none());
    assert!(GameCommand::FlagCell((0, 0)).apply(&game, &args()).is_none());
    assert!(GameCommand::Surrender.apply(&game, &args()).is_none());
}

#[test]
fn open_a_mine_loses_and_shows_one_cell() {
    let mut game = board(&[(7, 7), (0, 5)]);
    let before = game.cells.clone();
    let diff = play(&mut game, GameCommand::OpenCell((7, 7))).unwrap();
    assert!(matches!(diff, Diff::SingleCell(_)));
    assert_eq!(game.open_mine_cells, 1);
    assert_eq!(game.win_state, WinState::Lost);
    let changed: Vec<usize> = (0..64).filter(|&i| game.cells[i] != before[i]).collect();
    assert_eq!(changed, vec![63]);
    assert_eq!(game.cells[63].visibility, TileVisibility::Show);
    assert_eq!(game.cells[idx(0, 5)].visibility, TileVisibility::Hidden(Flag::Clear));
    assert_eq!(game.closed_empty_cells, 62);
}

#[test]
fn undo_after_opening_a_mine_restores_the_game() {
    let mut game = board(&[(7, 7), (0, 5)]);
    let mut history = History::default();
    let diff = play(&mut game, GameCommand::OpenCell((7, 7))).unwrap();
    history.push(diff);
    assert_eq!(game.win_state, WinState::Lost);
    history.step_back(&mut game);
    assert_eq!(game.win_state, WinState::Ongoing);
    assert_eq!(game.cells[63].visibility, TileVisibility::Hidden(Flag::Clear));
    assert_eq!(game.cells[63].content, CellContent::Mine);
    assert_eq!(game.open_mine_cells, 0);
    assert_eq!(history.index, 1);
}

#[test]
fn open_a_numbered_cell_shows_only_that_cell() {
    let mut game = board(&[(7, 7)]);
    let diff = play(&mut game, GameCommand::OpenCell((6, 6))).unwrap();
    let e = entries(&diff);
    assert!(matches!(diff, Diff::SingleCell(_)));
    assert_eq!(e.len(), 1);
    assert_eq!(e[0].index, idx(6, 6));
    assert_eq!(e[0].after, Cell { visibility: TileVisibility::Show, content: CellContent::Empty(1) });
    assert_eq!(game.closed_empty_cells, 62);
    assert_eq!(game.win_state, WinState::Ongoing);
}

#[test]
fn open_with_a_maybe_flag_is_allowed_with_a_flag_not() {
    let mut game = board(&[(7, 7)]);
    play(&mut game, GameCommand::FlagCell((6, 6))).unwrap();
    assert!(GameCommand::OpenCell((6, 6)).apply(&game, &args()).is_none());
    play(&mut game, GameCommand::FlagCell((6, 6))).unwrap();
    assert!(GameCommand::OpenCell((6, 6)).apply(&game, &args()).is_some());
}

#[test]
fn open_a_shown_cell_yields_nothing() {
    let mut game = board(&[(7, 7)]);
    play(&mut game, GameCommand::OpenCell((6, 6))).unwrap();
    assert!(GameCommand::OpenCell((6, 6)).apply(&game, &args()).is_none());
    assert!(GameCommand::FlagCell((6, 6)).apply(&game, &args()).is_none());
}

#[test]
fn flood_from_a_corner_wins_a_one_mine_board() {
    let mut game = board(&[(7, 7)]);
    let diff = play(&mut game, GameCommand::OpenCell((0, 0))).unwrap();
    assert!(matches!(diff, Diff::MultiCell(_)));
    let e = entries(&diff);
    assert_eq!(e.len(), 63);
    assert_eq!(e[0].index, 0);
    let mut seen: Vec<usize> = e.iter().map(|d| d.index).collect();
    seen.sort();
    seen.dedup();
    assert_eq!(seen, (0..63).collect::<Vec<usize>>());
    assert_eq!(game.closed_empty_cells, 0);
    assert_eq!(game.open_mine_cells, 0);
    assert_eq!(game.win_state, WinState::Won);
    assert_eq!(game.cells[63].visibility, TileVisibility::Hidden(Flag::Clear));
}

#[test]
fn flood_stops_at_numbered_cells() {
    let wall: Vec<(u16, u16)> = (0..8).map(|y| (4u16, y as u16)).collect();
    let mut game = board(&wall);
    let diff = play(&mut game, GameCommand::OpenCell((0, 0))).unwrap();
    let mut seen: Vec<usize> = entries(&diff).iter().map(|d| d.index).collect();
    seen.sort();
    let mut expected = vec![];
    for y in 0..8 {
        for x in 0..4 {
            expected.push(idx(x, y));
        }
    }
    assert_eq!(seen, expected);
    for y in 0..8 {
        assert_eq!(game.cells[idx(3, y)].visibility, TileVisibility::Show);
        assert_eq!(game.cells[idx(4, y)].visibility, TileVisibility::Hidden(Flag::Clear));
        assert_eq!(game.cells[idx(5, y)].visibility, TileVisibility::Hidden(Flag::Clear));
    }
    assert_eq!(game.closed_empty_cells, 24);
    assert_eq!(game.win_state, WinState::Ongoing);
    assert_counters_match(&game);
}

#[test]
fn flood_entries_record_before_and_after() {
    let game = board(&[(7, 7)]);
    let diff = GameCommand::OpenCell((3, 3)).apply(&game, &args()).unwrap();
    for d in entries(&diff) {
        assert_eq!(d.before, game.cells[d.index]);
        assert_eq!(d.after.visibility, TileVisibility::Show);
        assert_eq!(d.after.content, game.cells[d.index].content);
        assert!(matches!(d.before.visibility, TileVisibility::Hidden(_)));
    }
    assert!(game.cells.iter().all(|c| c.visibility == TileVisibility::Hidden(Flag::Clear)));
}

#[test]
fn flood_opens_flagged_cells_on_its_way() {
    let mut game = board(&[(7, 7)]);
    play(&mut game, GameCommand::FlagCell((2, 2))).unwrap();
    assert_eq!(game.flagged_cells, 1);
    play(&mut game, GameCommand::OpenCell((0, 0))).unwrap();
    assert_eq!(game.cells[idx(2, 2)].visibility, TileVisibility::Show);
    assert_eq!(game.flagged_cells, 0);
    assert_counters_match(&game);
}

#[test]
fn flood_skips_cells_that_are_already_shown() {
    let wall: Vec<(u16, u16)> = (0..8).map(|y| (4u16, y as u16)).collect();
    let mut game = board(&wall);
    play(&mut game, GameCommand::OpenCell((3, 0))).unwrap();
    let diff = play(&mut game, GameCommand::OpenCell((0, 0))).unwrap();
    let e = entries(&diff);
    assert_eq!(e.len(), 31);
    assert!(e.iter().all(|d| d.index != idx(3, 0)));
}

#[test]
fn opening_a_flooded_region_again_yields_nothing() {
    let wall: Vec<(u16, u16)> = (0..8).map(|y| (4u16, y as u16)).collect();
    let mut game = board(&wall);
    let diff = play(&mut game, GameCommand::OpenCell((0, 0))).unwrap();
    assert_eq!(game.win_state, WinState::Ongoing);
    for d in entries(&diff) {
        let c = ((d.index % 8) as u16, (d.index / 8) as u16);
        assert!(GameCommand::OpenCell(c).apply(&game, &args()).is_none());
    }
}

#[test]
fn expansion_works_on_a_copy_and_marks_what_it_opens() {
    let game = board(&[(7, 7)]);
    let mut scratch = game.cells.clone();
    let diff = expand_cell_diff_result(&mut scratch, W, H, 0);
    assert_eq!(diff.len(), 63);
    assert_eq!(diff[0].index, 0);
    for i in 0..63 {
        assert_eq!(scratch[i].visibility, TileVisibility::Show);
    }
    assert_eq!(scratch[63], game.cells[63]);
}

#[test]
fn surrender_shows_every_hidden_cell_and_loses() {
    let mut game = board(&[(7, 7), (0, 5), (3, 3)]);
    play(&mut game, GameCommand::OpenCell((6, 6))).unwrap();
    play(&mut game, GameCommand::FlagCell((0, 5))).unwrap();
    let diff = play(&mut game, GameCommand::Surrender).unwrap();
    assert!(matches!(diff, Diff::MultiCell(_)));
    let e = entries(&diff);
    assert_eq!(e.len(), 63);
    let order: Vec<usize> = e.iter().map(|d| d.index).collect();
    let expected: Vec<usize> = (0..64).filter(|&i| i != idx(6, 6)).collect();
    assert_eq!(order, expected);
    assert!(game.cells.iter().all(|c| c.visibility == TileVisibility::Show));
    assert_eq!(game.open_mine_cells, 3);
    assert_eq!(game.closed_empty_cells, 0);
    assert_eq!(game.flagged_cells, 0);
    assert_eq!(game.win_state, WinState::Lost);
}

#[test]
fn no_command_changes_a_finished_game() {
    let mut lost = board(&[(7, 7)]);
    play(&mut lost, GameCommand::OpenCell((7, 7))).unwrap();
    assert_eq!(lost.win_state, WinState::Lost);
    let mut won = board(&[(7, 7)]);
    play(&mut won, GameCommand::OpenCell((0, 0))).unwrap();
    assert_eq!(won.win_state, WinState::Won);
    for game in [&lost, &won] {
        for cmd in [
            GameCommand::OpenCell((0, 0)),
            GameCommand::OpenCell((7, 7)),
            GameCommand::FlagCell((7, 7)),
            GameCommand::ClearFlag((7, 7)),
            GameCommand::Surrender,
        ] {
            assert!(cmd.apply(game, &args()).is_none());
        }
    }
}

#[test]
fn counters_equal_the_counts_after_every_action() {
    let mut game = board(&[(7, 7), (0, 5), (3, 3), (5, 1)]);
    assert_counters_match(&game);
    let cmds = [
        GameCommand::FlagCell((0, 5)),
        GameCommand::FlagCell((1, 1)),
        GameCommand::FlagCell((1, 1)),
        GameCommand::OpenCell((7, 0)),
        GameCommand::OpenCell((0, 0)),
        GameCommand::ClearFlag((1, 1)),
        GameCommand::OpenCell((2, 2)),
        GameCommand::FlagCell((3, 3)),
        GameCommand::OpenCell((0, 7)),
        GameCommand::OpenCell((5, 1)),
    ];
    for cmd in cmds {
        play(&mut game, cmd);
        assert_counters_match(&game);
    }
    assert_eq!(game.win_state, WinState::Lost);
}

#[test]
fn apply_then_undo_in_reverse_restores_every_state() {
    let mut game = board(&[(7, 7), (0, 5), (3, 3), (5, 1)]);
    let cmds = [
        GameCommand::FlagCell((0, 5)),
        GameCommand::FlagCell((1, 1)),
        GameCommand::OpenCell((7, 0)),
        GameCommand::FlagCell((1, 1)),
        GameCommand::OpenCell((0, 0)),
        GameCommand::ClearFlag((1, 1)),
        GameCommand::OpenCell((6, 6)),
        GameCommand::Surrender,
    ];
    let mut states = vec![snapshot(&game)];
    let mut diffs = vec![];
    for cmd in cmds {
        if let Some(d) = play(&mut game, cmd) {
            diffs.push(d);
            states.push(snapshot(&game));
        }
    }
    assert_eq!(diffs.len(), 6);
    while let Some(d) = diffs.pop() {
        states.pop();
        game.undo(&d);
        assert_eq!(&snapshot(&game), states.last().unwrap());
        assert_counters_match(&game);
    }
    assert!(game.cells.iter().all(|c| c.visibility == TileVisibility::Hidden(Flag::Clear)));
}

#[test]
fn single_diff_apply_and_undo() {
    let mut game = board(&[(7, 7)]);
    let d = SingleCellDiff {
        index: 5,
        before: game.cells[5],
        after: Cell { visibility: TileVisibility::Hidden(Flag::Flagged), ..game.cells[5] },
    };
    game.apply_single_diff(&d);
    assert_eq!(game.cells[5], d.after);
    assert_eq!(game.flagged_cells, 1);
    game.undo_single_diff(&d);
    assert_eq!(game.cells[5], d.before);
    assert_eq!(game.flagged_cells, 0);
}

#[test]
fn counters_follow_visibility_changes() {
    let mut game = board(&[(7, 7)]);
    let hidden = Cell { visibility: TileVisibility::Hidden(Flag::Clear), content: CellContent::Empty(2) };
    let shown = Cell { visibility: TileVisibility::Show, content: CellContent::Empty(2) };
    let flagged = Cell { visibility: TileVisibility::Hidden(Flag::Flagged), content: CellContent::Empty(2) };
    game.apply_state(&hidden, &shown);
    assert_eq!((game.closed_empty_cells, game.flagged_cells), (62, 0));
    game.apply_state(&shown, &flagged);
    assert_eq!((game.closed_empty_cells, game.flagged_cells), (63, 1));
    game.apply_state(&flagged, &shown);
    assert_eq!((game.closed_empty_cells, game.flagged_cells), (62, 0));
    let mine = Cell { visibility: TileVisibility::Hidden(Flag::Clear), content: CellContent::Mine };
    let mine_shown = Cell { visibility: TileVisibility::Show, content: CellContent::Mine };
    game.apply_state(&mine, &mine_shown);
    assert_eq!(game.open_mine_cells, 1);
    assert_eq!(game.win_state, WinState::Lost);
    game.apply_state(&mine_shown, &mine);
    assert_eq!(game.open_mine_cells, 0);
    assert_eq!(game.win_state, WinState::Ongoing);
}

#[test]
fn an_empty_diff_changes_nothing() {
    let mut game = board(&[(7, 7)]);
    game.win_state = WinState::Untouched;
    let before = snapshot(&game);
    game.apply(&Diff::MultiCell(vec![]));
    assert_eq!(snapshot(&game), before);
    game.undo(&Diff::MultiCell(vec![]));
    assert_eq!(snapshot(&game), before);
}

#[test]
fn history_push_drops_the_undone_diffs() {
    let mut game = board(&[(7, 7), (0, 5)]);
    let mut history = History::default();
    for c in [(1, 1), (2, 2), (3, 3)] {
        let d = play(&mut game, GameCommand::FlagCell(c)).unwrap();
        history.push(d);
    }
    assert_eq!((history.entries.len(), history.index), (3, 0));
    history.step_back(&mut game);
    history.step_back(&mut game);
    assert_eq!((history.entries.len(), history.index), (3, 2));
    assert_eq!(game.flagged_cells, 1);
    let d = play(&mut game, GameCommand::FlagCell((4, 4))).unwrap();
    history.push(d);
    assert_eq!((history.entries.len(), history.index), (2, 0));
    let kept: Vec<usize> = history.entries.iter().map(|d| entries(d)[0].index).collect();
    assert_eq!(kept, vec![idx(1, 1), idx(4, 4)]);
}

#[test]
fn history_steps_stop_at_both_ends() {
    let mut game = board(&[(7, 7)]);
    let mut history = History::default();
    let start = snapshot(&game);
    history.step_back(&mut game);
    history.step_forward(&mut game);
    assert_eq!(snapshot(&game), start);
    assert_eq!(history.index, 0);
    let d = play(&mut game, GameCommand::FlagCell((1, 1))).unwrap();
    history.push(d);
    let after = snapshot(&game);
    history.step_forward(&mut game);
    assert_eq!(snapshot(&game), after);
    history.step_back(&mut game);
    assert_eq!(snapshot(&game), start);
    history.step_back(&mut game);
    assert_eq!(snapshot(&game), start);
    assert_eq!(history.index, 1);
    history.step_forward(&mut game);
    assert_eq!(snapshot(&game), after);
    assert_eq!(history.index, 0);
}

#[test]
fn undo_and_redo_of_a_flood() {
    let mut game = board(&[(7, 7)]);
    let mut history = History::default();
    let start = snapshot(&game);
    let d = play(&mut game, GameCommand::OpenCell((0, 0))).unwrap();
    history.push(d);
    let won = snapshot(&game);
    assert_eq!(won.0, WinState::Won);
    history.step_back(&mut game);
    assert_eq!(snapshot(&game), start);
    history.step_forward(&mut game);
    assert_eq!(snapshot(&game), won);
}

#[test]
fn cell_diff_changes_the_cell_and_records_both_sides() {
    let mut c = Cell { visibility: TileVisibility::Hidden(Flag::Clear), content: CellContent::Empty(3) };
    let d = c.diff(17, TileVisibility::Show);
    assert_eq!(c.visibility, TileVisibility::Show);
    assert_eq!(d.index, 17);
    assert_eq!(d.before.visibility, TileVisibility::Hidden(Flag::Clear));
    assert_eq!(d.after, c);
    let mut e = Cell { visibility: TileVisibility::Show, content: CellContent::Mine };
    match e.diff_result(2, TileVisibility::Hidden(Flag::Flagged)) {
        Diff::SingleCell(s) => {
            assert_eq!(s.index, 2);
            assert_eq!(s.after.visibility, TileVisibility::Hidden(Flag::Flagged));
            assert_eq!(s.after.content, CellContent::Mine);
        }
        Diff::MultiCell(_) => panic!("one cell was changed"),
    }
}

#[test]
fn default_game_state_is_empty_and_untouched() {
    let g = GameState::default();
    assert_eq!(g.win_state, WinState::Untouched);
    assert!(g.cells.is_empty());
    assert_eq!((g.flagged_cells, g.closed_empty_cells, g.open_mine_cells), (0, 0, 0));
}
