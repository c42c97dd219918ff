//! The engine: arguments, board, log and pending input, and the update cycle.
use vstd::prelude::*;
use vstd::arithmetic::div_mod::{lemma_fundamental_div_mod, lemma_mod_multiples_basic};
use crate::action::{
    lemma_response_fits, Action, DebugAction, GameCommand, RestartAction,
};
use crate::args::{lemma_valid_size, MinesweeperArgs};
use crate::board::{
    lemma_applied_keeps_contents, lemma_numbered_cells_wf, lemma_same_contents,
    lemma_untouched_tallies,
};
use crate::cell::Cell;
use crate::diff::{fits, inverse, well_formed, Diff};
use crate::display::DisplayText;
use crate::flag::Flag;
use crate::game_state::{tally, GameState, GameView, Tally};
use crate::history::{
    lemma_history_back, lemma_history_forward, lemma_history_push, sound, History,
};
use crate::input_state::InputState;
use crate::laws::{
    lemma_apply_keeps_tally, lemma_inverse, lemma_revert_keeps_tally, lemma_safe_zone_stays,
};
use crate::placement::{
    initialize, is_initialized, layout_of, mine_count, numbered, safe_around,
};
use crate::tile_visibility::TileVisibility;
use crate::util::{lemma_index_of, xy_i, xy_i_spec, Cursor, Sign};
use crate::win_state::WinState;

verus! {

/// The engine: the arguments of the board, the board, the log of its
/// diffs, what the player has entered, and the texts around the board.
#[derive(Debug)]
pub struct Minesweeper {
    pub args: MinesweeperArgs,
    pub history: History,
    pub game_state: GameState,
    pub input_state: InputState,
    pub display: DisplayText,
}

/// The state of a board that was just made: every cell hidden, without a
/// flag or a mine, and the counter of hidden cells without a mine set to
/// what it will be once the mines are laid.
pub open spec fn fresh_view(args: MinesweeperArgs) -> GameView {
    GameView {
        win_state: WinState::Untouched,
        cells: Seq::new(args.size() as nat, |i: int| Cell::blank()),
        flagged_cells: 0,
        closed_empty_cells: args.size() - args.mines,
        open_mine_cells: 0,
    }
}

/// Where a cursor coordinate comes to stand after a move by `d` on a side
/// of the given length: not below zero on the way down, not past the last
/// cell on the way up.
pub open spec fn moved(x: int, d: int, side: int) -> int {
    if d < 0 {
        if x + d < 0 {
            0
        } else {
            x + d
        }
    } else {
        if x + d > side - 1 {
            side - 1
        } else {
            x + d
        }
    }
}

impl Minesweeper {
    /// Whether the engine is in order: the arguments are valid and the
    /// texts are those for them; the board has one cell for each position;
    /// before the first click it is a fresh board with an empty log;
    /// afterwards the counters equal the numbers of cells of their kinds,
    /// the phase is the one they stand for, the board holds the mines that
    /// the arguments ask for, each cell without a mine holds the number of
    /// mines around it, and the log belongs to the board.
    pub open spec fn wf(&self) -> bool {
        &&& self.args.valid()
        &&& self.display.is_for(self.args)
        &&& self.game_state.cells@.len() == self.args.size()
        &&& if self.game_state.win_state is Untouched {
            &&& self.game_state@ == fresh_view(self.args)
            &&& self.history.entries@.len() == 0
            &&& self.history.index == 0
        } else {
            in_play(self.game_state@, self.args, self.history)
        }
    }

    /// Whether this is a new game for the given, valid arguments: a
    /// fresh board, an empty log, no action entered.
    pub open spec fn is_fresh(&self, args: MinesweeperArgs) -> bool {
        &&& self.args == args
        &&& self.display.is_for(args)
        &&& self.game_state@ == fresh_view(args)
        &&& self.history.entries@.len() == 0
        &&& self.history.index == 0
        &&& self.input_state.action is None
    }

    /// The cell at column `x` and row `y`, if there is one.
    pub fn get_tile(&self, x: u16, y: u16) -> (r: Option<&Cell>)
        requires
            self.game_state.cells@.len() == self.args.width * self.args.height,
        ensures
            match xy_i_spec((x, y), self.args.width, self.args.height) {
                Some(i) => r == Some(&self.game_state.cells@[i as int]),
                None => r is None,
            },
    {
        let w = self.args.width;
        let h = self.args.height;
        match xy_i((x, y), w, h) {
            Some(i) => Some(&self.game_state.cells[i]),
            None => None,
        }
    }

    /// A new game. The arguments are moved into their limits first; the
    /// cursor stands in the top left corner.
    pub fn new(args: MinesweeperArgs) -> (r: Self)
        ensures
            r.is_fresh(args.clamped_spec()),
            r.input_state.cursor == (0u16, 0u16),
            r.wf(),
    {
        let args = args.clamped();
        proof {
            lemma_valid_size(args);
        }
        let size = args.width as u32 * args.height as u32;
        let display = DisplayText::new(&args);
        let mut cells: Vec<Cell> = Vec::with_capacity(size as usize);
        let mut k: u32 = 0;
        while k < size
            invariant
                k <= size,
                cells.len() == k,
                forall|i: int| 0 <= i < k ==> cells[i] == Cell::blank(),
            decreases size - k,
        {
            cells.push(Cell::default());
            k += 1;
        }
        let game_state = GameState {
            win_state: WinState::Untouched,
            cells,
            flagged_cells: 0,
            closed_empty_cells: size - args.mines,
            open_mine_cells: 0,
        };
        proof {
            assert(game_state.cells@ =~= fresh_view(args).cells);
        }
        Minesweeper {
            args,
            history: History::default(),
            game_state,
            input_state: InputState::default(),
            display,
        }
    }

    /// Enters `action` as the one that the next update carries out, in
    /// place of any that was waiting.
    pub fn submit(&mut self, action: Action)
        ensures
            final(self).input_state.action == Some(action),
            final(self).input_state.cursor == old(self).input_state.cursor,
            final(self).args == old(self).args,
            final(self).game_state == old(self).game_state,
            final(self).history == old(self).history,
            final(self).display == old(self).display,
            old(self).wf() ==> final(self).wf(),
    {
        self.input_state.action = Some(action);
    }

    /// Carries out the pending action, if there is one.
    ///
    /// A command is asked for its diff, which is applied to the game and
    /// logged; the first click on a fresh board lays the mines before
    /// that. A restart makes a new game, with changed arguments if it
    /// asks for that. Undo and redo step through the log. Once the game
    /// is won or lost, commands change nothing any more.
    pub fn update(&mut self)
        requires
            old(self).wf(),
        ensures
            final(self).wf(),
            Self::updated(*old(self), *final(self)),
            old(self).input_state.action matches Some(Action::Command(_)) && old(
                self,
            ).game_state.win_state.is_terminal() ==> final(self).game_state == old(
                self,
            ).game_state && final(self).history == old(self).history,
            Self::opening_click(*old(self)) matches Some(c) ==> safe_around(
                final(self).game_state.cells@,
                c,
                old(self).args.width as int,
                old(self).args.height as int,
            ),
    {
        let ghost pre = *self;
        let action = match self.input_state.action {
            None => {
                return ;
            },
            Some(action) => action,
        };
        let args = self.args;
        let w = args.width;
        let h = args.height;
        let mines = args.mines;
        proof {
            lemma_valid_size(args);
        }
        match action {
            Action::Command(a) => {
                let mut proceed = true;
                let ghost mut base = self.game_state@;
                match (a, self.game_state.win_state) {
                    (GameCommand::OpenCell(cursor), WinState::Untouched) => {
                        if xy_i(cursor, w, h).is_none() {
                            proceed = false;
                        } else {
                            initialize(&mut self.game_state.cells, cursor, args);
                            self.game_state.win_state = WinState::Ongoing;
                            proof {
                                base = self.game_state@;
                                lemma_first_click(args, base, cursor, self.history);
                            }
                        }
                    },
                    _ => {},
                }
                let ghost mut response: Option<Diff> = None;
                let ghost placed = self.game_state.cells@;
                if proceed {
                    match a.apply(&self.game_state, &self.args) {
                        None => {},
                        Some(diff) => {
                            proof {
                                response = Some(diff);
                                lemma_response_fits(a, base, w, h, response);
                                lemma_apply_keeps_tally(base, diff.entries());
                            }
                            self.game_state.apply(&diff);
                            self.history.push(diff);
                            proof {
                                lemma_diff_keeps_play(base, args, pre.history, self.history, diff);
                                if Self::opening_click(pre) is Some {
                                    lemma_safe_zone_stays(
                                        placed,
                                        diff.entries(),
                                        Self::opening_click(pre)->0,
                                        w as int,
                                        h as int,
                                    );
                                }
                            }
                        },
                    }
                }
                self.input_state.action = None;
                proof {
                    assert(Self::commanded(pre, *self, a, base, response));
                }
            },
            Action::Restart(option) => {
                match option {
                    None => {},
                    Some(RestartAction::IncrementMinesPercent(unit)) => {
                        let size: u32 = w as u32 * h as u32;
                        let step = if size / 100 < 1 {
                            1
                        } else {
                            size / 100
                        };
                        let lowered = if mines < step {
                            0
                        } else {
                            mines - step
                        };
                        self.args.mines = match unit {
                            Sign::Positive => next_multiple_of(mines + 1, step),
                            Sign::Negative => next_multiple_of(lowered, step),
                        };
                    },
                    Some(RestartAction::ResizeH(dx)) => {
                        self.args.width = match dx {
                            Sign::Positive => w + 1,
                            Sign::Negative => w - 1,
                        };
                    },
                    Some(RestartAction::ResizeV(dy)) => {
                        self.args.height = match dy {
                            Sign::Positive => h + 1,
                            Sign::Negative => h - 1,
                        };
                    },
                    Some(RestartAction::IncrementMines(sign)) => {
                        self.args.mines = match sign {
                            Sign::Positive => mines + 1,
                            Sign::Negative => mines - 1,
                        };
                    },
                }
                let cursor = self.input_state.cursor;
                *self = Self::new(self.args);
                let last_x = self.args.width - 1;
                let last_y = self.args.height - 1;
                self.input_state.cursor = (
                    if cursor.0 > last_x {
                        last_x
                    } else {
                        cursor.0
                    },
                    if cursor.1 > last_y {
                        last_y
                    } else {
                        cursor.1
                    },
                );
            },
            Action::Debug(a) => {
                match a {
                    DebugAction::Undo => {
                        proof {
                            if self.history.index < self.history.entries.len() {
                                let ghost after = History {
                                    entries: self.history.entries,
                                    index: (self.history.index + 1) as usize,
                                };
                                lemma_undo_keeps_play(self.game_state@, args, self.history, after);
                            }
                        }
                        self.history.step_back(&mut self.game_state);
                        proof {
                            if pre.history.index < pre.history.entries@.len() {
                                lemma_undo_keeps_play(pre.game_state@, args, pre.history, self.history);
                            }
                        }
                    },
                    DebugAction::Redo => {
                        proof {
                            if self.history.index > 0 {
                                let ghost after = History {
                                    entries: self.history.entries,
                                    index: (self.history.index - 1) as usize,
                                };
                                lemma_redo_keeps_play(self.game_state@, args, self.history, after);
                            }
                        }
                        self.history.step_forward(&mut self.game_state);
                        proof {
                            if pre.history.index > 0 {
                                lemma_redo_keeps_play(pre.game_state@, args, pre.history, self.history);
                            }
                        }
                    },
                }
                self.input_state.action = None;
            },
        }
    }

    /// The board as text: one line for each row, one character for each
    /// cell, and a line feed after each row.
    pub fn render(&self) -> (text: String)
        requires
            self.wf(),
        ensures
            text@ == board_text(
                self.game_state.cells@,
                self.args.width as int,
                self.args.height as int,
            ),
    {
        let w = self.args.width as usize;
        let h = self.args.height as usize;
        let ghost cells = self.game_state.cells@;
        let mut text = String::new();
        proof {
            lemma_valid_size(self.args);
            if self.game_state.win_state is Untouched {
                assert forall|j: int| 0 <= j < cells.len() implies (#[trigger] cells[j]).wf() by {
                    assert(cells[j] == Cell::blank());
                }
            } else {
                lemma_numbered_cells_wf(cells, w as int, h as int);
            }
        }
        let mut row: usize = 0;
        while row < h
            invariant
                row <= h,
                w == self.args.width,
                h == self.args.height,
                cells == self.game_state.cells@,
                cells.len() == w * h,
                w * h <= 65536,
                forall|j: int| 0 <= j < cells.len() ==> (#[trigger] cells[j]).wf(),
                text@ == board_text(cells, w as int, row as int),
            decreases h - row,
        {
            let mut col: usize = 0;
            while col < w
                invariant
                    col <= w,
                    row < h,
                    w == self.args.width,
                    h == self.args.height,
                    cells == self.game_state.cells@,
                    cells.len() == w * h,
                    w * h <= 65536,
                    forall|j: int| 0 <= j < cells.len() ==> (#[trigger] cells[j]).wf(),
                    text@ == board_text(cells, w as int, row as int) + row_text(
                        cells,
                        w as int,
                        row as int,
                    ).subrange(0, col as int),
                decreases w - col,
            {
                proof {
                    lemma_index_of(col as int, row as int, w as int, h as int);
                    assert(row_text(cells, w as int, row as int).subrange(0, col + 1)
                        == row_text(cells, w as int, row as int).subrange(0, col as int).push(
                        cells[row * w + col].symbol_spec(),
                    ));
                }
                text.push(self.game_state.cells[row * w + col].symbol());
                col += 1;
            }
            proof {
                assert(row_text(cells, w as int, row as int).subrange(0, col as int) == row_text(
                    cells,
                    w as int,
                    row as int,
                ));
            }
            text.push('\n');
            row += 1;
        }
        text
    }

    /// Moves the cursor by `dx` columns and `dy` rows, as far as the
    /// board goes.
    pub fn move_cursor(&mut self, dx: i32, dy: i32)
        requires
            old(self).args.width >= 1,
            old(self).args.height >= 1,
        ensures
            final(self).input_state.cursor.0 == moved(
                old(self).input_state.cursor.0 as int,
                dx as int,
                old(self).args.width as int,
            ),
            final(self).input_state.cursor.1 == moved(
                old(self).input_state.cursor.1 as int,
                dy as int,
                old(self).args.height as int,
            ),
            final(self).input_state.action == old(self).input_state.action,
            final(self).args == old(self).args,
            final(self).game_state == old(self).game_state,
            final(self).history == old(self).history,
            final(self).display == old(self).display,
    {
        let (x, y) = self.input_state.cursor;
        let nx = move_along(x, dx, self.args.width);
        let ny = move_along(y, dy, self.args.height);
        self.input_state.cursor = (nx, ny);
    }
}

/// One coordinate of a cursor move.
fn move_along(x: u16, d: i32, side: u16) -> (r: u16)
    requires
        side >= 1,
    ensures
        r == moved(x as int, d as int, side as int),
{
    let target: i64 = x as i64 + d as i64;
    if d < 0 {
        if target < 0 {
            0
        } else {
            target as u16
        }
    } else {
        let last: i64 = side as i64 - 1;
        if target > last {
            last as u16
        } else {
            target as u16
        }
    }
}

/// The smallest multiple of `k` that is not below `n`.
pub open spec fn next_multiple_spec(n: int, k: int) -> int {
    if n % k == 0 {
        n
    } else {
        n + k - n % k
    }
}

/// The smallest multiple of `k` that is not below `n`.
pub fn next_multiple_of(n: u32, k: u32) -> (r: u32)
    requires
        k > 0,
        n + k <= u32::MAX,
    ensures
        r == next_multiple_spec(n as int, k as int),
        r % k == 0,
        n <= r < n + k,
{
    let rem = n % k;
    if rem == 0 {
        n
    } else {
        proof {
            let q = n as int / k as int;
            lemma_fundamental_div_mod(n as int, k as int);
            assert(n + k - rem == k * (q + 1)) by (nonlinear_arith)
                requires
                    n == k * q + rem,
            ;
            lemma_mod_multiples_basic(q + 1, k as int);
            assert(k * (q + 1) == (q + 1) * k) by (nonlinear_arith);
        }
        n + (k - rem)
    }
}

/// One hundredth of the cells, at least one: the step by which the
/// number of mines goes up and down.
pub open spec fn hundredth(args: MinesweeperArgs) -> int {
    if args.size() / 100 < 1 {
        1
    } else {
        args.size() / 100
    }
}

/// The arguments that a restart asks for, before they are moved into
/// their limits. A resize changes one side by one. The number of mines
/// goes up or down by one, or to the next multiple of a hundredth of the
/// cells above it, or to the one below it.
pub open spec fn restart_args(
    args: MinesweeperArgs,
    change: Option<RestartAction>,
) -> MinesweeperArgs {
    match change {
        None => args,
        Some(RestartAction::ResizeH(sign)) => MinesweeperArgs {
            width: (args.width + sign.value_spec()) as u16,
            ..args
        },
        Some(RestartAction::ResizeV(sign)) => MinesweeperArgs {
            height: (args.height + sign.value_spec()) as u16,
            ..args
        },
        Some(RestartAction::IncrementMines(sign)) => MinesweeperArgs {
            mines: (args.mines + sign.value_spec()) as u32,
            ..args
        },
        Some(RestartAction::IncrementMinesPercent(Sign::Positive)) => MinesweeperArgs {
            mines: next_multiple_spec(args.mines + 1, hundredth(args)) as u32,
            ..args
        },
        Some(RestartAction::IncrementMinesPercent(Sign::Negative)) => MinesweeperArgs {
            mines: next_multiple_spec(
                if args.mines < hundredth(args) {
                    0
                } else {
                    args.mines - hundredth(args)
                },
                hundredth(args),
            ) as u32,
            ..args
        },
    }
}

/// The smaller of a cursor coordinate and the last position of a side.
pub open spec fn kept_within(x: u16, side: u16) -> u16 {
    if x > side - 1 {
        (side - 1) as u16
    } else {
        x
    }
}

impl Minesweeper {
    /// What a restart leaves: a new game for the changed arguments, with
    /// the cursor where it was, as far as the new board goes.
    pub open spec fn restarted(
        pre: Minesweeper,
        post: Minesweeper,
        change: Option<RestartAction>,
    ) -> bool {
        let args = restart_args(pre.args, change).clamped_spec();
        &&& post.is_fresh(args)
        &&& post.input_state.cursor.0 == kept_within(pre.input_state.cursor.0, args.width)
        &&& post.input_state.cursor.1 == kept_within(pre.input_state.cursor.1, args.height)
    }

    /// What is the same before and after a command, an undo or a redo.
    pub open spec fn same_frame(pre: Minesweeper, post: Minesweeper) -> bool {
        &&& post.args == pre.args
        &&& post.display == pre.display
        &&& post.input_state.cursor == pre.input_state.cursor
        &&& post.input_state.action is None
    }

    /// What an undo leaves: the newest diff in effect is taken back and
    /// marked as undone; with none in effect nothing changes.
    pub open spec fn stepped_back(pre: Minesweeper, post: Minesweeper) -> bool {
        &&& Self::same_frame(pre, post)
        &&& post.history.entries@ == pre.history.entries@
        &&& if pre.history.index >= pre.history.entries@.len() {
            post.history.index == pre.history.index && post.game_state == pre.game_state
        } else {
            post.history.index == pre.history.index + 1 && post.game_state@
                == pre.game_state@.reverted(
                pre.history.entries@[pre.history.applied_len() - 1].entries(),
            )
        }
    }

    /// What a redo leaves: the oldest undone diff is applied again and
    /// marked as in effect; with none undone nothing changes.
    pub open spec fn stepped_forward(pre: Minesweeper, post: Minesweeper) -> bool {
        &&& Self::same_frame(pre, post)
        &&& post.history.entries@ == pre.history.entries@
        &&& if pre.history.index == 0 {
            post.history.index == 0 && post.game_state == pre.game_state
        } else {
            post.history.index == pre.history.index - 1 && post.game_state@
                == pre.game_state@.applied(pre.history.entries@[pre.history.applied_len()].entries())
        }
    }

    /// The cursor of the first click: a command to open a cell of a board
    /// that no one has touched.
    pub open spec fn first_click(pre: Minesweeper, cmd: GameCommand) -> Option<Cursor> {
        match cmd {
            GameCommand::OpenCell(c) => if pre.game_state.win_state is Untouched {
                Some(c)
            } else {
                None
            },
            _ => None,
        }
    }

    /// The cursor of a pending first click that lies on the grid: the
    /// click that lays the mines.
    pub open spec fn opening_click(pre: Minesweeper) -> Option<Cursor> {
        match pre.input_state.action {
            Some(Action::Command(cmd)) => match Self::first_click(pre, cmd) {
                Some(c) => if xy_i_spec(c, pre.args.width, pre.args.height) is Some {
                    Some(c)
                } else {
                    None
                },
                None => None,
            },
            _ => None,
        }
    }

    /// What a command leaves, where `base` is the state that the command
    /// met and `r` what it yielded. A first click off the grid changes
    /// nothing. A first click on the grid lays the mines first: `base` is
    /// then the board made ready for play from the click, with the game
    /// going on. Otherwise `base` is the state before. If the command
    /// yields nothing, `base` stays; a diff is applied to `base` and logged
    /// as the newest one, and whatever was undone is forgotten.
    pub open spec fn commanded(
        pre: Minesweeper,
        post: Minesweeper,
        cmd: GameCommand,
        base: GameView,
        r: Option<Diff>,
    ) -> bool {
        let w = pre.args.width;
        let h = pre.args.height;
        &&& Self::same_frame(pre, post)
        &&& match Self::first_click(pre, cmd) {
            Some(c) => if xy_i_spec(c, w, h) is None {
                &&& r is None
                &&& base == pre.game_state@
            } else {
                &&& base.win_state == WinState::Ongoing
                &&& base.flagged_cells == pre.game_state.flagged_cells
                &&& base.closed_empty_cells == pre.game_state.closed_empty_cells
                &&& base.open_mine_cells == pre.game_state.open_mine_cells
                &&& is_initialized(pre.game_state.cells@, base.cells, c, pre.args)
                &&& cmd.is_response(base, w, h, r)
            },
            None => {
                &&& base == pre.game_state@
                &&& cmd.is_response(base, w, h, r)
            },
        }
        &&& match r {
            None => {
                &&& post.game_state@ == base
                &&& post.history == pre.history
            },
            Some(d) => {
                &&& post.game_state@ == base.applied(d.entries())
                &&& post.history.index == 0
                &&& post.history.entries@ == pre.history.entries@.subrange(
                    0,
                    pre.history.applied_len(),
                ).push(d)
            },
        }
    }

    /// Whether `post` is what an update makes of `pre`: without a pending
    /// action nothing changes; otherwise the action is carried out and
    /// none is pending afterwards.
    pub open spec fn updated(pre: Minesweeper, post: Minesweeper) -> bool {
        match pre.input_state.action {
            None => post == pre,
            Some(Action::Restart(change)) => Self::restarted(pre, post, change),
            Some(Action::Debug(DebugAction::Undo)) => Self::stepped_back(pre, post),
            Some(Action::Debug(DebugAction::Redo)) => Self::stepped_forward(pre, post),
            Some(Action::Command(cmd)) => exists|base: GameView, r: Option<Diff>| #[trigger]
                Self::commanded(pre, post, cmd, base, r),
        }
    }
}

/// Whether a state in play belongs to the arguments and the log: the
/// counters are true, the mines are as many as asked for, the cells are
/// numbered, and the log can be undone and redone from the state.
pub open spec fn in_play(v: GameView, args: MinesweeperArgs, history: History) -> bool {
    &&& v.cells.len() == args.size()
    &&& sound(v)
    &&& mine_count(v.cells) == args.mines
    &&& numbered(v.cells, args.width as int, args.height as int)
    &&& history.consistent(v)
}

/// The first click starts play: a fresh board with the mines laid and
/// the game going on is a sound state, and an empty log belongs to it.
pub proof fn lemma_first_click(args: MinesweeperArgs, base: GameView, c: Cursor, history: History)
    requires
        args.valid(),
        is_initialized(fresh_view(args).cells, base.cells, c, args),
        base.win_state == WinState::Ongoing,
        base.flagged_cells == 0,
        base.open_mine_cells == 0,
        base.closed_empty_cells == args.size() - args.mines,
        history.entries@.len() == 0,
        history.index == 0,
    ensures
        in_play(base, args, history),
{
    lemma_valid_size(args);
    assert forall|j: int| 0 <= j < base.cells.len() implies (#[trigger] base.cells[j]).visibility
        == TileVisibility::Hidden(Flag::Clear) by {
        assert(fresh_view(args).cells[j] == Cell::blank());
    }
    lemma_untouched_tallies(base.cells);
    assert(history.diffs().subrange(0, 0) =~= Seq::empty());
}

/// A diff that a command yields keeps play in order: applied to a sound
/// state and logged, it leaves a sound state with the same mines and
/// numbers, and the log belongs to it.
pub proof fn lemma_diff_keeps_play(
    base: GameView,
    args: MinesweeperArgs,
    before: History,
    after: History,
    d: Diff,
)
    requires
        in_play(base, args, before),
        well_formed_for(base, d),
        after.index == 0,
        after.entries@ == before.entries@.subrange(0, before.applied_len()).push(d),
    ensures
        base.can_apply(d.entries()),
        in_play(base.applied(d.entries()), args, after),
{
    let e = d.entries();
    let past = before.diffs().subrange(0, before.applied_len());
    lemma_history_push(base, past, e);
    lemma_apply_keeps_tally(base, e);
    lemma_applied_keeps_contents(base.cells, e);
    lemma_same_contents(
        base.cells,
        base.applied(e).cells,
        args.width as int,
        args.height as int,
    );
    assert(after.diffs() =~= past.push(e));
    assert(after.diffs().subrange(0, after.applied_len()) =~= after.diffs());
    assert(after.diffs().subrange(after.applied_len(), after.entries@.len() as int) =~= Seq::empty());
}

/// A diff that is well formed and fits the cells of `v`.
pub open spec fn well_formed_for(v: GameView, d: Diff) -> bool {
    well_formed(d.entries()) && fits(v.cells, d.entries())
}

/// Undo keeps play in order.
pub proof fn lemma_undo_keeps_play(
    v: GameView,
    args: MinesweeperArgs,
    before: History,
    after: History,
)
    requires
        in_play(v, args, before),
        before.index < before.entries@.len(),
        after.entries@ == before.entries@,
        after.index == before.index + 1,
    ensures
        v.can_revert(before.entries@[before.applied_len() - 1].entries()),
        in_play(v.reverted(before.entries@[before.applied_len() - 1].entries()), args, after),
{
    let diffs = before.diffs();
    let n = before.applied_len();
    let e = diffs[n - 1];
    assert(after.diffs() =~= diffs);
    lemma_history_back(v, diffs, n);
    let past = diffs.subrange(0, n);
    assert(past.last() == e);
    lemma_inverse(v.cells, e);
    lemma_revert_keeps_tally(v, e);
    lemma_applied_keeps_contents(v.cells, inverse(e));
    lemma_same_contents(v.cells, v.reverted(e).cells, args.width as int, args.height as int);
}

/// Redo keeps play in order.
pub proof fn lemma_redo_keeps_play(
    v: GameView,
    args: MinesweeperArgs,
    before: History,
    after: History,
)
    requires
        in_play(v, args, before),
        before.index > 0,
        after.entries@ == before.entries@,
        after.index == before.index - 1,
    ensures
        v.can_apply(before.entries@[before.applied_len()].entries()),
        in_play(v.applied(before.entries@[before.applied_len()].entries()), args, after),
{
    let diffs = before.diffs();
    let n = before.applied_len();
    let e = diffs[n];
    assert(after.diffs() =~= diffs);
    lemma_history_forward(v, diffs, n);
    let future = diffs.subrange(n, diffs.len() as int);
    assert(future.first() == e);
    lemma_apply_keeps_tally(v, e);
    lemma_applied_keeps_contents(v.cells, e);
    lemma_same_contents(v.cells, v.applied(e).cells, args.width as int, args.height as int);
}

/// `String::push` of the standard library appends one character to the text.
pub assume_specification[ String::push ](text: &mut String, ch: char)
    ensures
        final(text)@ == old(text)@.push(ch),
;

/// The characters of row `row` of a board `w` wide, one for each cell.
pub open spec fn row_text(cells: Seq<Cell>, w: int, row: int) -> Seq<char> {
    Seq::new(w as nat, |col: int| cells[row * w + col].symbol_spec())
}

/// The first `rows` rows of a board `w` wide as text, a line feed after each.
pub open spec fn board_text(cells: Seq<Cell>, w: int, rows: int) -> Seq<char>
    decreases rows,
{
    if rows <= 0 {
        Seq::empty()
    } else {
        board_text(cells, w, rows - 1) + row_text(cells, w, rows - 1).push('\n')
    }
}

/// The counters of an engine in order. The flag counter is the number of
/// flagged cells and the mine counter the number of opened mines at all
/// times. The counter of hidden cells without a mine is their number once
/// the mines are laid; before the first click, while the board holds no
/// mine yet, it is that number less the mines to come.
pub proof fn lemma_counters(m: Minesweeper)
    requires
        m.wf(),
    ensures
        m.game_state.flagged_cells == tally(m.game_state.cells@, Tally::Flagged),
        m.game_state.open_mine_cells == tally(m.game_state.cells@, Tally::OpenMine),
        m.game_state.closed_empty_cells == tally(m.game_state.cells@, Tally::ClosedEmpty)
            - mines_to_come(m),
{
    if m.game_state.win_state is Untouched {
        let cells = m.game_state.cells@;
        lemma_untouched_tallies(cells);
        lemma_no_mines(cells);
    }
}

/// The mines that a board still waits for: all of them before the first
/// click, none afterwards.
pub open spec fn mines_to_come(m: Minesweeper) -> int {
    if m.game_state.win_state is Untouched {
        m.args.mines as int
    } else {
        0
    }
}

/// A board of blank cells holds no mine.
proof fn lemma_no_mines(cells: Seq<Cell>)
    requires
        forall|j: int| 0 <= j < cells.len() ==> #[trigger] cells[j] == Cell::blank(),
    ensures
        mine_count(cells) == 0,
    decreases cells.len(),
{
    if cells.len() > 0 {
        lemma_no_mines(cells.drop_last());
        assert(layout_of(cells).drop_last() =~= layout_of(cells.drop_last()));
    } else {
        assert(layout_of(cells) =~= Seq::<bool>::empty());
    }
}

} // verus!
