//! The commands of the game and the diffs they call for.
use vstd::prelude::*;
use std::collections::VecDeque;
use crate::args::MinesweeperArgs;
use crate::cell::Cell;
use crate::cell_content::CellContent;
use crate::diff::{cells_applied, fits, touches, well_formed, Diff, SingleCellDiff};
use crate::flag::Flag;
use crate::flood::{
    cursor_index, flood_owed, flood_pending, flood_progress, is_flood, lemma_distinct_len,
    lemma_flood_expanded, lemma_flood_finish, lemma_flood_pop, lemma_flood_record,
    lemma_flood_skip, lemma_flood_start, lemma_touches_push, on_hold, opens,
};
use crate::game_state::{GameState, GameView};
use crate::tile_visibility::TileVisibility;
use crate::util::{
    i_xy, lemma_cell_of_index, lemma_index_of, lemma_neighbors_8, neighbors_spec,
    valid_neighbors, xy_i, xy_i_spec, Cursor, Sign, DIRS_8,
};
use crate::win_state::WinState;

verus! {

/// Anything the player can ask for.
#[derive(Copy, Clone, Debug)]
pub enum Action {
    Command(GameCommand),
    Restart(Option<RestartAction>),
    Debug(DebugAction),
}

/// A move in the game.
#[derive(Copy, Clone, Debug)]
pub enum GameCommand {
    OpenCell(Cursor),
    FlagCell(Cursor),
    ClearFlag(Cursor),
    Surrender,
}

/// A change of the board's shape that comes with a new game.
#[derive(Copy, Clone, Debug)]
pub enum RestartAction {
    ResizeH(Sign),
    ResizeV(Sign),
    IncrementMinesPercent(Sign),
    IncrementMines(Sign),
}

/// A step through the history.
#[derive(Copy, Clone, Debug)]
pub enum DebugAction {
    Undo,
    Redo,
}

/// The diff that opens every hidden cell, in the order of the cells.
pub open spec fn surrender_entries(cells: Seq<Cell>) -> Seq<SingleCellDiff>
    decreases cells.len(),
{
    if cells.len() == 0 {
        Seq::empty()
    } else {
        let front = surrender_entries(cells.drop_last());
        let last = cells.last();
        if last.is_hidden() {
            front.push(last.diff_spec((cells.len() - 1) as usize, TileVisibility::Show))
        } else {
            front
        }
    }
}

impl GameCommand {
    /// Whether `r` is what the command yields on the state `v` of a board
    /// `w` wide and `h` high.
    ///
    /// Nothing, unless the game is going on. Opening needs a cursor on
    /// the grid and a hidden cell without a definite flag: a cell with no
    /// mine near it gives the diff of the flood from it, any other cell the
    /// diff that opens just that cell. Flagging a hidden cell steps its
    /// flag on by one. Clearing takes a flag or a maybe-flag off. Surrender
    /// opens whatever is hidden.
    pub open spec fn is_response(self, v: GameView, w: u16, h: u16, r: Option<Diff>) -> bool {
        if v.win_state != WinState::Ongoing {
            r is None
        } else {
            match self {
                GameCommand::OpenCell(c) => match xy_i_spec(c, w, h) {
                    None => r is None,
                    Some(i) => {
                        let cell = v.cells[i as int];
                        if cell.visibility == TileVisibility::Hidden(Flag::Clear) || cell.visibility
                            == TileVisibility::Hidden(Flag::FlaggedMaybe) {
                            if cell.content == CellContent::Empty(0) {
                                r matches Some(Diff::MultiCell(ds)) && is_flood(
                                    v.cells,
                                    w as int,
                                    i as int,
                                    ds@,
                                )
                            } else {
                                r == Some(Diff::SingleCell(cell.diff_spec(i, TileVisibility::Show)))
                            }
                        } else {
                            r is None
                        }
                    },
                },
                GameCommand::FlagCell(c) => match xy_i_spec(c, w, h) {
                    None => r is None,
                    Some(i) => {
                        let cell = v.cells[i as int];
                        match cell.visibility {
                            TileVisibility::Hidden(flag) => r == Some(
                                Diff::SingleCell(
                                    cell.diff_spec(i, TileVisibility::Hidden(flag.next_spec())),
                                ),
                            ),
                            TileVisibility::Show => r is None,
                        }
                    },
                },
                GameCommand::ClearFlag(c) => match xy_i_spec(c, w, h) {
                    None => r is None,
                    Some(i) => {
                        let cell = v.cells[i as int];
                        if cell.visibility == TileVisibility::Show || cell.visibility
                            == TileVisibility::Hidden(Flag::Clear) {
                            r is None
                        } else {
                            r == Some(
                                Diff::SingleCell(
                                    cell.diff_spec(i, TileVisibility::Hidden(Flag::Clear)),
                                ),
                            )
                        }
                    },
                },
                GameCommand::Surrender => r matches Some(Diff::MultiCell(ds)) && ds@
                    == surrender_entries(v.cells),
            }
        }
    }

    /// The diff that the command calls for, or `None` where it changes
    /// nothing. The game is only read: the diff takes effect when it is
    /// applied to the game.
    pub fn apply(&self, game: &GameState, args: &MinesweeperArgs) -> (r: Option<Diff>)
        requires
            game.cells.len() == args.width * args.height,
        ensures
            self.is_response(game@, args.width, args.height, r),
    {
        let w = args.width;
        let h = args.height;
        match game.win_state {
            WinState::Ongoing => {},
            _ => {
                return None;
            },
        }
        match *self {
            GameCommand::OpenCell(xy) => match xy_i(xy, w, h) {
                None => None,
                Some(i) => {
                    let mut cell = game.cells[i];
                    match cell.visibility {
                        TileVisibility::Hidden(Flag::Clear | Flag::FlaggedMaybe) => {},
                        _ => {
                            return None;
                        },
                    }
                    match cell.content {
                        CellContent::Empty(0) => {
                            let mut scratch = copy_cells(&game.cells);
                            Some(Diff::MultiCell(expand_cell_diff_result(&mut scratch, w, h, i)))
                        },
                        CellContent::Empty(_) => Some(cell.diff_result(i, TileVisibility::Show)),
                        CellContent::Mine => Some(cell.diff_result(i, TileVisibility::Show)),
                    }
                },
            },
            GameCommand::FlagCell(xy) => match xy_i(xy, w, h) {
                None => None,
                Some(i) => {
                    let mut cell = game.cells[i];
                    match cell.visibility {
                        TileVisibility::Hidden(flag) => Some(
                            cell.diff_result(i, TileVisibility::Hidden(flag.next())),
                        ),
                        TileVisibility::Show => None,
                    }
                },
            },
            GameCommand::ClearFlag(xy) => match xy_i(xy, w, h) {
                None => None,
                Some(i) => {
                    let mut cell = game.cells[i];
                    match cell.visibility {
                        TileVisibility::Show | TileVisibility::Hidden(Flag::Clear) => None,
                        _ => Some(cell.diff_result(i, TileVisibility::Hidden(Flag::Clear))),
                    }
                },
            },
            GameCommand::Surrender => {
                let mut ret: Vec<SingleCellDiff> = Vec::with_capacity(game.cells.len());
                let mut i: usize = 0;
                while i < game.cells.len()
                    invariant
                        i <= game.cells.len(),
                        ret@ == surrender_entries(game.cells@.subrange(0, i as int)),
                    decreases game.cells.len() - i,
                {
                    let mut cell = game.cells[i];
                    proof {
                        assert(game.cells@.subrange(0, i + 1).drop_last() == game.cells@.subrange(
                            0,
                            i as int,
                        ));
                    }
                    match cell.visibility {
                        TileVisibility::Show => {},
                        TileVisibility::Hidden(_) => {
                            ret.push(cell.diff(i, TileVisibility::Show));
                        },
                    }
                    i += 1;
                }
                proof {
                    assert(game.cells@.subrange(0, i as int) == game.cells@);
                }
                Some(Diff::MultiCell(ret))
            },
        }
    }
}

/// A copy of the cells.
fn copy_cells(cells: &Vec<Cell>) -> (out: Vec<Cell>)
    ensures
        out@ == cells@,
{
    let mut out: Vec<Cell> = Vec::with_capacity(cells.len());
    let mut k: usize = 0;
    while k < cells.len()
        invariant
            k <= cells.len(),
            out@ == cells@.subrange(0, k as int),
        decreases cells.len() - k,
    {
        out.push(cells[k]);
        k += 1;
    }
    out
}

impl Cell {
    /// The change of cell `i` from `self` to the same cell with another visibility.
    pub open spec fn diff_spec(self, i: usize, visibility: TileVisibility) -> SingleCellDiff {
        SingleCellDiff { index: i, before: self, after: self.with_visibility(visibility) }
    }

    /// Gives the cell another visibility and returns the change as that of cell `i`.
    pub fn diff(&mut self, i: usize, visibility: TileVisibility) -> (d: SingleCellDiff)
        ensures
            *final(self) == old(self).with_visibility(visibility),
            d == old(self).diff_spec(i, visibility),
    {
        let before = *self;
        self.visibility = visibility;
        SingleCellDiff { index: i, before, after: *self }
    }

    /// As `diff`, with the change wrapped as a diff of one cell.
    pub fn diff_result(&mut self, i: usize, visibility: TileVisibility) -> (d: Diff)
        ensures
            *final(self) == old(self).with_visibility(visibility),
            d == Diff::SingleCell(old(self).diff_spec(i, visibility)),
    {
        Diff::SingleCell(self.diff(i, visibility))
    }
}

/// The diff of the flood that starts at cell `idx`, a hidden cell with no
/// mine near it. A worklist holds the cells still to expand; every hidden
/// neighbour of an expanded cell is opened, and expanded in turn if it has
/// no mine near it either. `cells` is a working copy of the board: the
/// flood opens in it what it puts in the diff, so that no cell enters twice.
pub fn expand_cell_diff_result(
    cells: &mut Vec<Cell>,
    w: u16,
    h: u16,
    idx: usize,
) -> (ret: Vec<SingleCellDiff>)
    requires
        old(cells).len() == w * h,
        idx < old(cells).len(),
        old(cells)[idx as int].is_hidden(),
        old(cells)[idx as int].content == CellContent::Empty(0),
    ensures
        is_flood(old(cells)@, w as int, idx as int, ret@),
        final(cells)@ == cells_applied(old(cells)@, ret@),
{
    let ghost orig = cells@;
    let ghost wi = w as int;
    let ghost hi = h as int;
    proof {
        assert(w > 0 && h > 0) by (nonlinear_arith)
            requires
                idx < w * h,
                0 <= idx,
                0 <= w,
                0 <= h,
        ;
    }
    let mut ret: Vec<SingleCellDiff> = Vec::new();
    let mut stack: VecDeque<Cursor> = VecDeque::new();
    let mut first = cells[idx];
    let e0 = first.diff(idx, TileVisibility::Show);
    cells[idx] = first;
    ret.push(e0);
    let start = i_xy(idx, w, h).unwrap();
    stack.push_back(start);
    proof {
        lemma_cell_of_index(idx as int, wi, hi);
        lemma_flood_start(orig, wi, hi, idx as int, start, e0);
        assert(ret@ == seq![e0]);
        assert(stack@ == seq![start]);
    }
    while stack.len() > 0
        invariant
            wi == w,
            hi == h,
            flood_progress(orig, wi, hi, idx as int, cells@, ret@, stack@),
            flood_owed(orig, wi, ret@, stack@),
        decreases orig.len() - ret.len(), stack.len(),
    {
        let ghost ret_before = ret@;
        let ghost stack_before = stack@;
        let c = stack.pop_back().unwrap();
        let nb = valid_neighbors(&DIRS_8, c, w, h);
        proof {
            assert(stack@ == stack_before.drop_last());
            assert(on_hold(orig, wi, hi, ret@, stack_before[stack_before.len() - 1]));
            lemma_flood_pop(orig, wi, hi, idx as int, cells@, ret@, stack_before, nb@);
            lemma_neighbors_8(c, w, h);
        }
        let mut t: usize = 0;
        while t < nb.len()
            invariant
                wi == w,
                hi == h,
                t <= nb.len(),
                nb@ == neighbors_spec(DIRS_8@, c, w, h),
                on_hold(orig, wi, hi, ret_before, c),
                flood_progress(orig, wi, hi, idx as int, cells@, ret@, stack@),
                flood_pending(orig, wi, ret@, stack@, cursor_index(c, wi), nb@, t as int),
                ret.len() >= ret_before.len(),
                stack.len() - (stack_before.len() - 1) <= ret.len() - ret_before.len(),
                on_hold(orig, wi, hi, ret@, c),
            decreases nb.len() - t,
        {
            let xy = nb[t];
            proof {
                lemma_neighbors_8(c, w, h);
                assert(nb@.contains(xy));
                lemma_index_of(xy.0 as int, xy.1 as int, wi, hi);
            }
            let i = xy_i(xy, w, h).unwrap();
            let mut cell = cells[i];
            match cell.visibility {
                TileVisibility::Hidden(_) => {
                    let content = cell.content;
                    let e = cell.diff(i, TileVisibility::Show);
                    proof {
                        lemma_flood_record(
                            orig,
                            wi,
                            hi,
                            idx as int,
                            cells@,
                            ret@,
                            stack@,
                            c,
                            nb@,
                            t as int,
                            e,
                        );
                        lemma_touches_push(ret@, e);
                    }
                    cells[i] = cell;
                    ret.push(e);
                    match content {
                        CellContent::Empty(n) => {
                            if n == 0 {
                                stack.push_back(xy);
                            }
                        },
                        CellContent::Mine => {},
                    }
                },
                TileVisibility::Show => {
                    proof {
                        lemma_flood_skip(
                            orig,
                            wi,
                            hi,
                            idx as int,
                            cells@,
                            ret@,
                            stack@,
                            cursor_index(c, wi),
                            nb@,
                            t as int,
                        );
                    }
                },
            }
            t += 1;
        }
        proof {
            lemma_flood_expanded(orig, wi, hi, ret@, stack@, c, nb@);
            assert forall|k: int| 0 <= k < ret.len() implies (#[trigger] ret@[k]).index
                < orig.len() by {
                assert(opens(orig, ret@[k]));
            }
            lemma_distinct_len(ret@, orig.len() as int);
        }
    }
    proof {
        assert(stack@ == Seq::<Cursor>::empty());
        lemma_flood_finish(orig, wi, hi, idx as int, cells@, ret@);
    }
    ret
}

/// The surrender diff opens each hidden cell once, in rising order of
/// the cells, and touches no other cell.
pub proof fn lemma_surrender_entries(cells: Seq<Cell>)
    requires
        cells.len() <= usize::MAX,
    ensures
        surrender_entries(cells).len() <= cells.len(),
        forall|k: int|
            0 <= k < surrender_entries(cells).len() ==> opens(
                cells,
                #[trigger] surrender_entries(cells)[k],
            ),
        forall|i: int, j: int|
            0 <= i < j < surrender_entries(cells).len() ==> (#[trigger] surrender_entries(
                cells,
            )[i]).index < (#[trigger] surrender_entries(cells)[j]).index,
        forall|j: int|
            0 <= j < cells.len() ==> (#[trigger] touches(surrender_entries(cells), j)
                <==> cells[j].is_hidden()),
    decreases cells.len(),
{
    let entries = surrender_entries(cells);
    if cells.len() > 0 {
        let front_cells = cells.drop_last();
        let front = surrender_entries(front_cells);
        let n = cells.len() - 1;
        lemma_surrender_entries(front_cells);
        assert forall|k: int| 0 <= k < front.len()
            implies opens(cells, #[trigger] front[k]) && front[k].index
            < n by {
            assert(opens(front_cells, front[k]));
        }
        let last = cells.last();
        let e = last.diff_spec(n as usize, TileVisibility::Show);
        assert forall|k: int| 0 <= k < entries.len()
            implies opens(cells, #[trigger] entries[k]) by {
            if k < front.len() {
                assert(entries[k] == front[k]);
            }
        }
        assert forall|i: int, j: int| 0 <= i < j < entries.len()
            implies (#[trigger] entries[i]).index < (
        #[trigger] entries[j]).index by {
            assert(entries[i] == front[i]);
            if j < front.len() {
                assert(entries[j] == front[j]);
            }
        }
        lemma_touches_push(front, e);
        assert forall|j: int| 0 <= j < cells.len() implies (#[trigger] touches(entries, j)
            <==> cells[j].is_hidden()) by {
            if j < n {
                assert(touches(front, j) <==> front_cells[j].is_hidden());
            } else {
                if touches(front, j) {
                    let k = choose|k: int| 0 <= k < front.len() && (#[trigger] front[k]).index == j;
                    assert(opens(cells, front[k]) && front[k].index < n);
                }
            }
        }
    } else {
        assert forall|j: int| 0 <= j < cells.len() implies (#[trigger] touches(entries, j)
            <==> cells[j].is_hidden()) by {}
    }
}

/// Whatever a command yields can be applied, and only a game that is
/// going on yields anything: the diff is well formed and fits the board it
/// was made for, each entry changes its cell, and there is at least one
/// entry unless the diff is a surrender of a board with nothing left to open.
pub proof fn lemma_response_fits(cmd: GameCommand, v: GameView, w: u16, h: u16, r: Option<Diff>)
    requires
        v.cells.len() == w * h,
        cmd.is_response(v, w, h, r),
        r is Some,
    ensures
        v.win_state == WinState::Ongoing,
        well_formed(r->0.entries()),
        fits(v.cells, r->0.entries()),
        forall|k: int|
            0 <= k < r->0.entries().len() ==> (#[trigger] r->0.entries()[k]).before
                != r->0.entries()[k].after,
        !(cmd is Surrender) ==> r->0.entries().len() > 0,
{
    let entries = r->0.entries();
    match cmd {
        GameCommand::Surrender => {
            assert(w * h <= 0xffff * 0xffff) by (nonlinear_arith)
                requires
                    0 <= w <= 0xffff,
                    0 <= h <= 0xffff,
            ;
            lemma_surrender_entries(v.cells);
            assert forall|i: int, j: int| 0 <= i < j < entries.len()
                implies (#[trigger] entries[i]).index
                != (#[trigger] entries[j]).index by {
                assert(entries[i].index < entries[j].index);
            }
            assert forall|k: int| 0 <= k < entries.len()
                implies (#[trigger] entries[k]).before.content
                == entries[k].after.content && entries[k].before != entries[k].after by {
                assert(opens(v.cells, entries[k]));
            }
            assert(fits(v.cells, entries)) by {
                assert forall|k: int| 0 <= k < entries.len() implies (#[trigger] entries[k]).index
                    < v.cells.len() && v.cells[entries[k].index as int] == entries[k].before by {
                    assert(opens(v.cells, entries[k]));
                }
            }
        },
        GameCommand::OpenCell(c) | GameCommand::FlagCell(c) | GameCommand::ClearFlag(c) => {
            lemma_index_of(c.0 as int, c.1 as int, w as int, h as int);
            match r->0 {
                Diff::SingleCell(d) => {
                    assert(entries[0] == d);
                },
                Diff::MultiCell(ds) => {
                    assert forall|k: int| 0 <= k < entries.len()
                        implies (#[trigger] entries[k]).before.content
                        == entries[k].after.content && entries[k].index < v.cells.len()
                        && v.cells[entries[k].index as int] == entries[k].before && entries[k].before
                        != entries[k].after by {
                        assert(opens(v.cells, entries[k]));
                    }
                },
            }
        },
    }
}

} // verus!
