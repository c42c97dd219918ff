//! Laws of the engine: counters stay true, undo restores, finished games stay finished.
use vstd::prelude::*;
use crate::cell::Cell;
use crate::diff::{
    cells_applied, fits, in_board, inverse, lemma_cells_applied_at,
    lemma_cells_applied_elsewhere, lemma_cells_applied_len, lemma_front_in_board,
    lemma_front_well_formed, touches, well_formed, SingleCellDiff,
};
use crate::action::GameCommand;
use crate::board::lemma_applied_keeps_contents;
use crate::diff::Diff;
use crate::flood::{is_flood, opens};
use crate::game_state::{lemma_tally_bounds, lemma_tally_update, GameView, Tally};
use crate::placement::safe_around;
use crate::util::{in_grid, index_of, lemma_index_of, near, xy_i_spec, Cursor};

verus! {

/// The entries of a fitting diff lie on the board.
pub proof fn lemma_fits_in_board(cells: Seq<Cell>, entries: Seq<SingleCellDiff>)
    requires
        fits(cells, entries),
    ensures
        in_board(cells, entries),
{
    assert forall|i: int| 0 <= i < entries.len() implies (#[trigger] entries[i]).index
        < cells.len() by {}
}

/// Turning a diff round twice gives the diff; turning it round keeps it
/// well formed and on the board.
pub proof fn lemma_inverse(cells: Seq<Cell>, entries: Seq<SingleCellDiff>)
    ensures
        inverse(inverse(entries)) == entries,
        inverse(entries).len() == entries.len(),
        well_formed(entries) ==> well_formed(inverse(entries)),
        in_board(cells, entries) ==> in_board(cells, inverse(entries)),
        entries.len() > 0 ==> inverse(entries).drop_last() == inverse(entries.drop_last())
            && inverse(entries).last() == entries.last().inverse(),
{
    let inv = inverse(entries);
    assert(inverse(inv) =~= entries);
    if well_formed(entries) {
        assert forall|i: int, j: int| 0 <= i < j < inv.len() implies (#[trigger] inv[i]).index
            != (#[trigger] inv[j]).index by {
            assert(entries[i].index != entries[j].index);
        }
        assert forall|i: int| 0 <= i < inv.len() implies (#[trigger] inv[i]).before.content
            == inv[i].after.content by {
            assert(entries[i].before.content == entries[i].after.content);
        }
    }
    if in_board(cells, entries) {
        assert forall|i: int| 0 <= i < inv.len() implies (#[trigger] inv[i]).index
            < cells.len() by {
            assert(entries[i].index < cells.len());
        }
    }
    if entries.len() > 0 {
        assert(inv.drop_last() =~= inverse(entries.drop_last()));
    }
}

/// Undoing a diff is applying its inverse.
pub proof fn lemma_reverted_is_applied_inverse(v: GameView, entries: Seq<SingleCellDiff>)
    ensures
        v.reverted(entries) == v.applied(inverse(entries)),
    decreases entries.len(),
{
    lemma_inverse(v.cells, entries);
    if entries.len() > 0 {
        lemma_reverted_is_applied_inverse(v, entries.drop_last());
    }
}

/// The cells after a diff was applied are the diff's `after` cells written
/// over the board.
pub proof fn lemma_applied_cells(v: GameView, entries: Seq<SingleCellDiff>)
    requires
        in_board(v.cells, entries),
    ensures
        v.applied(entries).cells == cells_applied(v.cells, entries),
    decreases entries.len(),
{
    if entries.len() > 0 {
        lemma_front_in_board(v.cells, entries);
        lemma_applied_cells(v, entries.drop_last());
    }
}

/// The counters stay true. On a board whose counters equal the numbers of
/// cells of their kinds, a well-formed diff that fits the board can be
/// applied, and afterwards the counters again equal those numbers: the
/// hidden cells without a mine, the opened mines, the flagged cells. If
/// the diff changed anything, the phase is the one the counters stand for.
pub proof fn lemma_apply_keeps_tally(v: GameView, entries: Seq<SingleCellDiff>)
    requires
        v.tallied(),
        v.cells.len() <= u32::MAX,
        well_formed(entries),
        fits(v.cells, entries),
    ensures
        v.can_apply(entries),
        v.applied(entries).tallied(),
        v.applied(entries).cells == cells_applied(v.cells, entries),
        v.applied(entries).cells.len() == v.cells.len(),
        entries.len() > 0 ==> v.applied(entries).settled(),
        entries.len() == 0 ==> v.applied(entries) == v,
    decreases entries.len(),
{
    lemma_fits_in_board(v.cells, entries);
    lemma_applied_cells(v, entries);
    lemma_cells_applied_len(v.cells, entries);
    if entries.len() > 0 {
        let front = entries.drop_last();
        let e = entries.last();
        lemma_front_well_formed(entries);
        lemma_front_in_board(v.cells, entries);
        assert(fits(v.cells, front)) by {
            assert forall|i: int| 0 <= i < front.len() implies (#[trigger] front[i]).index
                < v.cells.len() && v.cells[front[i].index as int] == front[i].before by {
                assert(entries[i].index < v.cells.len());
            }
        }
        lemma_apply_keeps_tally(v, front);
        let w = v.applied(front);
        assert(entries[entries.len() - 1] == e);
        assert(!touches(front, e.index as int)) by {
            if touches(front, e.index as int) {
                let i = choose|i: int| 0 <= i < front.len() && (#[trigger] front[i]).index
                    == e.index as int;
                assert(entries[i].index != entries[entries.len() - 1].index);
            }
        }
        lemma_cells_applied_elsewhere(v.cells, front, e.index as int);
        assert(w.cells[e.index as int] == e.before);
        assert(e.before.with_visibility(e.after.visibility) == e.after);
        lemma_tally_update(w.cells, e.index as int, e.after, Tally::Flagged);
        lemma_tally_update(w.cells, e.index as int, e.after, Tally::ClosedEmpty);
        lemma_tally_update(w.cells, e.index as int, e.after, Tally::OpenMine);
        let x = w.stepped(e);
        lemma_tally_bounds(x.cells, Tally::Flagged);
        lemma_tally_bounds(x.cells, Tally::ClosedEmpty);
        lemma_tally_bounds(x.cells, Tally::OpenMine);
    }
}

/// The same for undoing: a well-formed diff whose `after` cells are what
/// the board holds can be undone, and the counters stay true.
pub proof fn lemma_revert_keeps_tally(v: GameView, entries: Seq<SingleCellDiff>)
    requires
        v.tallied(),
        v.cells.len() <= u32::MAX,
        well_formed(entries),
        fits(v.cells, inverse(entries)),
    ensures
        v.can_revert(entries),
        v.reverted(entries).tallied(),
        v.reverted(entries).cells == cells_applied(v.cells, inverse(entries)),
        v.reverted(entries).cells.len() == v.cells.len(),
        entries.len() > 0 ==> v.reverted(entries).settled(),
        entries.len() == 0 ==> v.reverted(entries) == v,
    decreases entries.len(),
{
    lemma_inverse(v.cells, entries);
    lemma_reverted_is_applied_inverse(v, entries);
    lemma_apply_keeps_tally(v, inverse(entries));
    if entries.len() > 0 {
        let front = entries.drop_last();
        let e = entries.last();
        let inv = inverse(entries);
        lemma_front_well_formed(entries);
        assert(fits(v.cells, inverse(front))) by {
            assert forall|i: int| 0 <= i < front.len() implies (#[trigger] inverse(
                front,
            )[i]).index < v.cells.len() && v.cells[inverse(front)[i].index as int] == inverse(
                front,
            )[i].before by {
                assert(inv[i].index < v.cells.len());
                assert(inv[i] == inverse(front)[i]);
            }
        }
        lemma_revert_keeps_tally(v, front);
        lemma_reverted_is_applied_inverse(v, front);
        assert(inv[entries.len() - 1] == e.inverse());
        assert(entries[entries.len() - 1] == e);
        assert(!touches(inverse(front), e.index as int)) by {
            if touches(inverse(front), e.index as int) {
                let i = choose|i: int| 0 <= i < front.len() && (#[trigger] inverse(front)[i]).index
                    == e.index as int;
                assert(entries[i].index != entries[entries.len() - 1].index);
            }
        }
        lemma_fits_in_board(v.cells, inverse(front));
        lemma_cells_applied_elsewhere(v.cells, inverse(front), e.index as int);
    }
}

/// Round trip of one diff. Applying a well-formed diff that fits a board
/// with true counters and then undoing it restores every cell and every
/// counter, and the phase too where the phase was the one the counters
/// stood for.
pub proof fn lemma_apply_then_undo(v: GameView, entries: Seq<SingleCellDiff>)
    requires
        v.tallied(),
        v.cells.len() <= u32::MAX,
        well_formed(entries),
        fits(v.cells, entries),
    ensures
        v.can_apply(entries),
        fits(v.applied(entries).cells, inverse(entries)),
        v.applied(entries).can_revert(entries),
        v.applied(entries).reverted(entries).cells == v.cells,
        v.applied(entries).reverted(entries).flagged_cells == v.flagged_cells,
        v.applied(entries).reverted(entries).closed_empty_cells == v.closed_empty_cells,
        v.applied(entries).reverted(entries).open_mine_cells == v.open_mine_cells,
        v.settled() ==> v.applied(entries).reverted(entries) == v,
{
    lemma_apply_keeps_tally(v, entries);
    lemma_fits_in_board(v.cells, entries);
    lemma_inverse(v.cells, entries);
    let w = v.applied(entries);
    let inv = inverse(entries);
    assert(fits(w.cells, inv)) by {
        assert forall|i: int| 0 <= i < inv.len() implies (#[trigger] inv[i]).index < w.cells.len()
            && w.cells[inv[i].index as int] == inv[i].before by {
            lemma_cells_applied_at(v.cells, entries, i);
            assert(entries[i].index < v.cells.len());
        }
    }
    lemma_revert_keeps_tally(w, entries);
    let back = w.reverted(entries);
    lemma_fits_in_board(w.cells, inv);
    assert(back.cells =~= v.cells) by {
        assert forall|j: int| 0 <= j < v.cells.len() implies back.cells[j] == v.cells[j] by {
            if touches(entries, j) {
                let i = choose|i: int| 0 <= i < entries.len() && (#[trigger] entries[i]).index == j;
                assert(inv[i].index == j);
                lemma_cells_applied_at(w.cells, inv, i);
            } else {
                assert(!touches(inv, j)) by {
                    if touches(inv, j) {
                        let i = choose|i: int| 0 <= i < inv.len() && (#[trigger] inv[i]).index == j;
                        assert(entries[i].index == j);
                    }
                }
                lemma_cells_applied_elsewhere(w.cells, inv, j);
                lemma_cells_applied_elsewhere(v.cells, entries, j);
            }
        }
    }
}

/// Round trip the other way: undoing a diff whose `after` cells the board
/// holds and then applying it again restores the state.
pub proof fn lemma_undo_then_apply(v: GameView, entries: Seq<SingleCellDiff>)
    requires
        v.tallied(),
        v.cells.len() <= u32::MAX,
        well_formed(entries),
        fits(v.cells, inverse(entries)),
    ensures
        v.can_revert(entries),
        fits(v.reverted(entries).cells, entries),
        v.reverted(entries).can_apply(entries),
        v.reverted(entries).applied(entries).cells == v.cells,
        v.reverted(entries).applied(entries).flagged_cells == v.flagged_cells,
        v.reverted(entries).applied(entries).closed_empty_cells == v.closed_empty_cells,
        v.reverted(entries).applied(entries).open_mine_cells == v.open_mine_cells,
        v.settled() ==> v.reverted(entries).applied(entries) == v,
{
    let inv = inverse(entries);
    lemma_inverse(v.cells, entries);
    lemma_revert_keeps_tally(v, entries);
    lemma_reverted_is_applied_inverse(v, entries);
    lemma_apply_then_undo(v, inv);
    lemma_reverted_is_applied_inverse(v.applied(inv), inv);
    lemma_apply_keeps_tally(v.reverted(entries), entries);
}

/// The state after a run of diffs was applied, the first of them first.
pub open spec fn applied_all(v: GameView, diffs: Seq<Seq<SingleCellDiff>>) -> GameView
    decreases diffs.len(),
{
    if diffs.len() == 0 {
        v
    } else {
        applied_all(v, diffs.drop_last()).applied(diffs.last())
    }
}

/// The state after a run of diffs was undone, the last of them first.
pub open spec fn reverted_all(v: GameView, diffs: Seq<Seq<SingleCellDiff>>) -> GameView
    decreases diffs.len(),
{
    if diffs.len() == 0 {
        v
    } else {
        reverted_all(v.reverted(diffs.last()), diffs.drop_last())
    }
}

/// Whether a run of diffs is one of valid actions from the state `v`:
/// each diff is well formed and fits the board that the diffs before it
/// have left.
pub open spec fn run_fits(v: GameView, diffs: Seq<Seq<SingleCellDiff>>) -> bool
    decreases diffs.len(),
{
    diffs.len() > 0 ==> {
        &&& run_fits(v, diffs.drop_last())
        &&& well_formed(diffs.last())
        &&& fits(applied_all(v, diffs.drop_last()).cells, diffs.last())
    }
}

/// Two states with the same cells and the same counters; the phase may differ.
pub open spec fn same_board(a: GameView, b: GameView) -> bool {
    &&& a.cells == b.cells
    &&& a.flagged_cells == b.flagged_cells
    &&& a.closed_empty_cells == b.closed_empty_cells
    &&& a.open_mine_cells == b.open_mine_cells
}

/// What a diff makes of a state does not depend on the phase before: it
/// depends on the cells and the counters alone, unless the diff is empty.
pub proof fn lemma_applied_same_board(a: GameView, b: GameView, entries: Seq<SingleCellDiff>)
    requires
        same_board(a, b),
    ensures
        same_board(a.applied(entries), b.applied(entries)),
        same_board(a.reverted(entries), b.reverted(entries)),
        entries.len() > 0 ==> a.applied(entries) == b.applied(entries) && a.reverted(entries)
            == b.reverted(entries),
    decreases entries.len(),
{
    if entries.len() > 0 {
        lemma_applied_same_board(a, b, entries.drop_last());
    }
}

/// The same for undoing a run of diffs.
pub proof fn lemma_reverted_all_same_board(
    a: GameView,
    b: GameView,
    diffs: Seq<Seq<SingleCellDiff>>,
)
    requires
        same_board(a, b),
    ensures
        same_board(reverted_all(a, diffs), reverted_all(b, diffs)),
    decreases diffs.len(),
{
    if diffs.len() > 0 {
        lemma_applied_same_board(a, b, diffs.last());
        lemma_reverted_all_same_board(
            a.reverted(diffs.last()),
            b.reverted(diffs.last()),
            diffs.drop_last(),
        );
    }
}

/// Round trip of a run of diffs. From a state whose counters are true,
/// applying any run of diffs of valid actions and then undoing them in
/// reverse order restores every cell and every counter; where the phase
/// was the one that the counters stand for, it restores the phase too, and
/// so the whole state.
pub proof fn lemma_round_trip(v: GameView, diffs: Seq<Seq<SingleCellDiff>>)
    requires
        v.tallied(),
        v.cells.len() <= u32::MAX,
        run_fits(v, diffs),
    ensures
        applied_all(v, diffs).tallied(),
        applied_all(v, diffs).cells.len() == v.cells.len(),
        v.settled() ==> applied_all(v, diffs).settled(),
        same_board(reverted_all(applied_all(v, diffs), diffs), v),
        v.settled() ==> reverted_all(applied_all(v, diffs), diffs) == v,
    decreases diffs.len(),
{
    if diffs.len() > 0 {
        let front = diffs.drop_last();
        let e = diffs.last();
        lemma_round_trip(v, front);
        let w = applied_all(v, front);
        lemma_apply_keeps_tally(w, e);
        lemma_apply_then_undo(w, e);
        lemma_reverted_all_same_board(w.applied(e).reverted(e), w, front);
    }
}

/// Once the game is won or lost, a command yields nothing.
pub proof fn lemma_terminal_yields_nothing(
    cmd: GameCommand,
    v: GameView,
    w: u16,
    h: u16,
    r: Option<Diff>,
)
    requires
        v.win_state.is_terminal(),
        cmd.is_response(v, w, h, r),
    ensures
        r is None,
{
}

/// A flood cannot be repeated. After the diff of a flood was applied,
/// opening any cell that the flood has opened yields nothing.
pub proof fn lemma_flood_opens_once(
    v: GameView,
    w: u16,
    h: u16,
    origin: int,
    entries: Seq<SingleCellDiff>,
    c: Cursor,
    r: Option<Diff>,
)
    requires
        v.cells.len() == w * h,
        is_flood(v.cells, w as int, origin, entries),
        xy_i_spec(c, w, h) is Some,
        touches(entries, xy_i_spec(c, w, h)->0 as int),
        GameCommand::OpenCell(c).is_response(v.applied(entries), w, h, r),
    ensures
        r is None,
{
    let j = xy_i_spec(c, w, h)->0 as int;
    lemma_index_of(c.0 as int, c.1 as int, w as int, h as int);
    assert(in_board(v.cells, entries)) by {
        assert forall|k: int| 0 <= k < entries.len() implies (#[trigger] entries[k]).index
            < v.cells.len() by {
            assert(opens(v.cells, entries[k]));
        }
    }
    lemma_applied_cells(v, entries);
    let k = choose|k: int| 0 <= k < entries.len() && (#[trigger] entries[k]).index == j;
    lemma_cells_applied_at(v.cells, entries, k);
    assert(opens(v.cells, entries[k]));
}

/// The safe zone stays safe. A well-formed diff that fits the board
/// leaves the cell of the first click and the cells around it without a
/// mine, as the placement left them.
pub proof fn lemma_safe_zone_stays(
    cells: Seq<Cell>,
    entries: Seq<SingleCellDiff>,
    cursor: Cursor,
    w: int,
    h: int,
)
    requires
        0 < w,
        0 < h,
        cells.len() == w * h,
        well_formed(entries),
        fits(cells, entries),
        safe_around(cells, cursor, w, h),
    ensures
        safe_around(cells_applied(cells, entries), cursor, w, h),
{
    lemma_applied_keeps_contents(cells, entries);
    let after = cells_applied(cells, entries);
    assert forall|x: int, y: int|
        in_grid(x, y, w, h) && near(
            cursor.0 as int,
            cursor.1 as int,
            x,
            y,
        ) implies !after[#[trigger] index_of(x, y, w)].is_mine() by {
        lemma_index_of(x, y, w, h);
        assert(after[index_of(x, y, w)].content == cells[index_of(x, y, w)].content);
    }
}

} // verus!
