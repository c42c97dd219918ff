//! The board with its counters, and how diffs are applied to it and undone.
use vstd::prelude::*;
use crate::cell::Cell;
use crate::cell_content::CellContent;
use crate::diff::{Diff, SingleCellDiff};
use crate::flag::Flag;
use crate::tile_visibility::TileVisibility;
use crate::win_state::WinState;

verus! {

/// The three kinds of cell that the board keeps count of.
pub enum Tally {
    /// Hidden cells without a mine.
    ClosedEmpty,
    /// Opened mines.
    OpenMine,
    /// Hidden cells that carry a definite flag.
    Flagged,
}

/// Whether a cell is of the kind that `t` counts.
pub open spec fn counts_as(t: Tally, c: Cell) -> bool {
    match t {
        Tally::ClosedEmpty => c.content is Empty && c.visibility is Hidden,
        Tally::OpenMine => c.content is Mine && c.visibility is Show,
        Tally::Flagged => c.visibility == TileVisibility::Hidden(Flag::Flagged),
    }
}

/// One if the cell is of the kind that `t` counts, else zero.
pub open spec fn unit(t: Tally, c: Cell) -> int {
    if counts_as(t, c) {
        1
    } else {
        0
    }
}

/// The number of cells of the kind that `t` counts.
pub open spec fn tally(cells: Seq<Cell>, t: Tally) -> int
    decreases cells.len(),
{
    if cells.len() == 0 {
        0
    } else {
        tally(cells.drop_last(), t) + unit(t, cells.last())
    }
}

/// A count lies between zero and the number of cells.
pub proof fn lemma_tally_bounds(cells: Seq<Cell>, t: Tally)
    ensures
        0 <= tally(cells, t) <= cells.len(),
    decreases cells.len(),
{
    if cells.len() > 0 {
        lemma_tally_bounds(cells.drop_last(), t);
    }
}

/// Replacing one cell moves a count by the difference of the two cells.
pub proof fn lemma_tally_update(cells: Seq<Cell>, i: int, c: Cell, t: Tally)
    requires
        0 <= i < cells.len(),
    ensures
        tally(cells.update(i, c), t) == tally(cells, t) - unit(t, cells[i]) + unit(t, c),
    decreases cells.len(),
{
    let front = cells.drop_last();
    if i == cells.len() - 1 {
        assert(cells.update(i, c).drop_last() == front);
    } else {
        lemma_tally_update(front, i, c, t);
        assert(cells.update(i, c).drop_last() == front.update(i, c));
    }
}

/// The state of a game as mathematics: the phase, the cells in row-major
/// order and the three counters.
pub ghost struct GameView {
    pub win_state: WinState,
    pub cells: Seq<Cell>,
    pub flagged_cells: int,
    pub closed_empty_cells: int,
    pub open_mine_cells: int,
}

impl GameView {
    /// Each counter equals the number of cells of its kind.
    pub open spec fn tallied(self) -> bool {
        &&& self.flagged_cells == tally(self.cells, Tally::Flagged)
        &&& self.closed_empty_cells == tally(self.cells, Tally::ClosedEmpty)
        &&& self.open_mine_cells == tally(self.cells, Tally::OpenMine)
    }

    /// The phase is the one that the counters stand for.
    pub open spec fn settled(self) -> bool {
        self.win_state == WinState::derived(self.closed_empty_cells, self.open_mine_cells)
    }

    /// Each counter fits its machine type.
    pub open spec fn counts_in_range(self) -> bool {
        &&& 0 <= self.flagged_cells <= u32::MAX
        &&& 0 <= self.closed_empty_cells <= u32::MAX
        &&& 0 <= self.open_mine_cells <= u32::MAX
    }

    /// The state after the counters took note that a cell with the content
    /// of `before` went from the visibility of `before` to that of `after`,
    /// and the phase was derived anew.
    pub open spec fn counted(self, before: Cell, after: Cell) -> GameView {
        let moved = before.with_visibility(after.visibility);
        let closed = self.closed_empty_cells + unit(Tally::ClosedEmpty, moved) - unit(
            Tally::ClosedEmpty,
            before,
        );
        let mines = self.open_mine_cells + unit(Tally::OpenMine, moved) - unit(
            Tally::OpenMine,
            before,
        );
        GameView {
            win_state: WinState::derived(closed, mines),
            cells: self.cells,
            flagged_cells: self.flagged_cells + unit(Tally::Flagged, moved) - unit(
                Tally::Flagged,
                before,
            ),
            closed_empty_cells: closed,
            open_mine_cells: mines,
        }
    }

    /// Whether one change can be applied: its cell exists and the counters
    /// stay within their type.
    pub open spec fn can_step(self, e: SingleCellDiff) -> bool {
        &&& e.index < self.cells.len()
        &&& self.counted(e.before, e.after).counts_in_range()
    }

    /// The state after one change was applied.
    pub open spec fn stepped(self, e: SingleCellDiff) -> GameView {
        let v = self.counted(e.before, e.after);
        GameView { cells: self.cells.update(e.index as int, e.after), ..v }
    }

    /// Whether one change can be undone: its cell exists and holds what
    /// the change left there, and the counters stay within their type.
    pub open spec fn can_step_back(self, e: SingleCellDiff) -> bool {
        &&& self.can_step(e.inverse())
        &&& self.cells[e.index as int] == e.after
    }

    /// Whether the changes can be applied one after the other.
    pub open spec fn can_apply(self, entries: Seq<SingleCellDiff>) -> bool
        decreases entries.len(),
    {
        entries.len() > 0 ==> {
            &&& self.can_apply(entries.drop_last())
            &&& self.applied(entries.drop_last()).can_step(entries.last())
        }
    }

    /// The state after the changes were applied one after the other.
    pub open spec fn applied(self, entries: Seq<SingleCellDiff>) -> GameView
        decreases entries.len(),
    {
        if entries.len() == 0 {
            self
        } else {
            self.applied(entries.drop_last()).stepped(entries.last())
        }
    }

    /// Whether the changes can be undone one after the other, in the order
    /// in which they are listed.
    pub open spec fn can_revert(self, entries: Seq<SingleCellDiff>) -> bool
        decreases entries.len(),
    {
        entries.len() > 0 ==> {
            &&& self.can_revert(entries.drop_last())
            &&& self.reverted(entries.drop_last()).can_step_back(entries.last())
        }
    }

    /// The state after the changes were undone one after the other, in
    /// the order in which they are listed.
    pub open spec fn reverted(self, entries: Seq<SingleCellDiff>) -> GameView
        decreases entries.len(),
    {
        if entries.len() == 0 {
            self
        } else {
            self.reverted(entries.drop_last()).stepped(entries.last().inverse())
        }
    }
}

/// The board with its counters and its phase.
#[derive(Debug)]
pub struct GameState {
    pub win_state: WinState,
    pub cells: Vec<Cell>,
    pub flagged_cells: u32,
    pub closed_empty_cells: u32,
    pub open_mine_cells: u32,
}

impl View for GameState {
    type V = GameView;

    open spec fn view(&self) -> GameView {
        GameView {
            win_state: self.win_state,
            cells: self.cells@,
            flagged_cells: self.flagged_cells as int,
            closed_empty_cells: self.closed_empty_cells as int,
            open_mine_cells: self.open_mine_cells as int,
        }
    }
}

impl Default for GameState {
    /// An empty board that no one has touched.
    fn default() -> (r: Self)
        ensures
            r@ == (GameView {
                win_state: WinState::Untouched,
                cells: Seq::<Cell>::empty(),
                flagged_cells: 0,
                closed_empty_cells: 0,
                open_mine_cells: 0,
            }),
    {
        GameState {
            win_state: WinState::Untouched,
            cells: Vec::new(),
            flagged_cells: 0,
            closed_empty_cells: 0,
            open_mine_cells: 0,
        }
    }
}

impl GameState {
    /// Moves the counters for a cell that goes from `before` to the
    /// visibility of `after`, and derives the phase from them.
    pub fn apply_state(&mut self, before: &Cell, after: &Cell)
        requires
            old(self)@.counted(*before, *after).counts_in_range(),
        ensures
            final(self)@ == old(self)@.counted(*before, *after),
    {
        match (before.content, before.visibility, after.visibility) {
            (CellContent::Empty(_), TileVisibility::Hidden(_), TileVisibility::Show) => {
                self.closed_empty_cells -= 1;
            },
            (CellContent::Empty(_), TileVisibility::Show, TileVisibility::Hidden(_)) => {
                self.closed_empty_cells += 1;
            },
            (CellContent::Mine, TileVisibility::Hidden(_), TileVisibility::Show) => {
                self.open_mine_cells += 1;
            },
            (CellContent::Mine, TileVisibility::Show, TileVisibility::Hidden(_)) => {
                self.open_mine_cells -= 1;
            },
            _ => {},
        }
        match (before.visibility, after.visibility) {
            (
                TileVisibility::Show
                | TileVisibility::Hidden(Flag::FlaggedMaybe | Flag::Clear),
                TileVisibility::Hidden(Flag::Flagged),
            ) => {
                self.flagged_cells += 1;
            },
            (
                TileVisibility::Hidden(Flag::Flagged),
                TileVisibility::Show
                | TileVisibility::Hidden(Flag::FlaggedMaybe | Flag::Clear),
            ) => {
                self.flagged_cells -= 1;
            },
            _ => {},
        }
        self.win_state =
        if self.open_mine_cells != 0 {
            WinState::Lost
        } else if self.closed_empty_cells == 0 {
            WinState::Won
        } else {
            WinState::Ongoing
        };
    }

    /// Applies one change: counters first, then the cell.
    pub fn apply_single_diff(&mut self, diff: &SingleCellDiff)
        requires
            old(self)@.can_step(*diff),
        ensures
            final(self)@ == old(self)@.stepped(*diff),
    {
        self.apply_state(&diff.before, &diff.after);
        self.cells[diff.index] = diff.after;
    }

    /// Undoes one change: counters first, then the cell. The cell must
    /// hold what the change left there.
    pub fn undo_single_diff(&mut self, diff: &SingleCellDiff)
        requires
            old(self)@.can_step_back(*diff),
        ensures
            final(self)@ == old(self)@.stepped(diff.inverse()),
    {
        self.apply_state(&diff.after, &diff.before);
        self.cells[diff.index] = diff.before;
    }

    /// Applies a diff, entry by entry in the diff's order.
    pub fn apply(&mut self, diff: &Diff)
        requires
            old(self)@.can_apply(diff.entries()),
        ensures
            final(self)@ == old(self)@.applied(diff.entries()),
    {
        let ghost start = self@;
        let ghost entries = diff.entries();
        match diff {
            Diff::SingleCell(d) => {
                proof {
                    assert(entries.drop_last() == Seq::<SingleCellDiff>::empty());
                    reveal_with_fuel(GameView::applied, 2);
                    reveal_with_fuel(GameView::can_apply, 2);
                }
                self.apply_single_diff(d);
            },
            Diff::MultiCell(diffs) => {
                let mut k: usize = 0;
                while k < diffs.len()
                    invariant
                        k <= diffs.len(),
                        entries == diffs@,
                        start.can_apply(entries),
                        self@ == start.applied(entries.subrange(0, k as int)),
                    decreases diffs.len() - k,
                {
                    proof {
                        lemma_can_apply_prefix(start, entries, k + 1);
                        assert(entries.subrange(0, k + 1).drop_last() == entries.subrange(
                            0,
                            k as int,
                        ));
                    }
                    self.apply_single_diff(&diffs[k]);
                    k += 1;
                }
                proof {
                    assert(entries.subrange(0, k as int) == entries);
                }
            },
        }
    }

    /// Undoes a diff, entry by entry in the diff's order.
    pub fn undo(&mut self, diff: &Diff)
        requires
            old(self)@.can_revert(diff.entries()),
        ensures
            final(self)@ == old(self)@.reverted(diff.entries()),
    {
        let ghost start = self@;
        let ghost entries = diff.entries();
        match diff {
            Diff::SingleCell(d) => {
                proof {
                    assert(entries.drop_last() == Seq::<SingleCellDiff>::empty());
                    reveal_with_fuel(GameView::reverted, 2);
                    reveal_with_fuel(GameView::can_revert, 2);
                }
                self.undo_single_diff(d);
            },
            Diff::MultiCell(diffs) => {
                let mut k: usize = 0;
                while k < diffs.len()
                    invariant
                        k <= diffs.len(),
                        entries == diffs@,
                        start.can_revert(entries),
                        self@ == start.reverted(entries.subrange(0, k as int)),
                    decreases diffs.len() - k,
                {
                    proof {
                        lemma_can_revert_prefix(start, entries, k + 1);
                        assert(entries.subrange(0, k + 1).drop_last() == entries.subrange(
                            0,
                            k as int,
                        ));
                    }
                    self.undo_single_diff(&diffs[k]);
                    k += 1;
                }
                proof {
                    assert(entries.subrange(0, k as int) == entries);
                }
            },
        }
    }
}

/// What can be applied as a whole can be applied up to any point.
pub proof fn lemma_can_apply_prefix(v: GameView, entries: Seq<SingleCellDiff>, k: int)
    requires
        v.can_apply(entries),
        0 <= k <= entries.len(),
    ensures
        v.can_apply(entries.subrange(0, k)),
    decreases entries.len(),
{
    if k == entries.len() {
        assert(entries.subrange(0, k) == entries);
    } else {
        lemma_can_apply_prefix(v, entries.drop_last(), k);
        assert(entries.drop_last().subrange(0, k) == entries.subrange(0, k));
    }
}

/// What can be undone as a whole can be undone up to any point.
pub proof fn lemma_can_revert_prefix(v: GameView, entries: Seq<SingleCellDiff>, k: int)
    requires
        v.can_revert(entries),
        0 <= k <= entries.len(),
    ensures
        v.can_revert(entries.subrange(0, k)),
    decreases entries.len(),
{
    if k == entries.len() {
        assert(entries.subrange(0, k) == entries);
    } else {
        lemma_can_revert_prefix(v, entries.drop_last(), k);
        assert(entries.drop_last().subrange(0, k) == entries.subrange(0, k));
    }
}

} // verus!
