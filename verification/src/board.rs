//! Facts about whole boards: counts on an untouched board, and what diffs leave alone.
use vstd::prelude::*;
use crate::cell::Cell;
use crate::cell_content::CellContent;
use crate::diff::{
    cells_applied, fits, in_board, lemma_cells_applied_at, lemma_cells_applied_elsewhere,
    lemma_cells_applied_len, touches, well_formed, SingleCellDiff,
};
use crate::flag::Flag;
use crate::game_state::{tally, Tally};
use crate::placement::{
    lemma_laid_around_bounds, layout_of, mine_count, mines_around, numbered,
};
use crate::tile_visibility::TileVisibility;

verus! {

/// On a board where every cell is hidden and unflagged no cell is
/// flagged, no mine is open, and the hidden cells without a mine are all
/// cells but the mines.
pub proof fn lemma_untouched_tallies(cells: Seq<Cell>)
    requires
        forall|j: int|
            0 <= j < cells.len() ==> (#[trigger] cells[j]).visibility == TileVisibility::Hidden(
                Flag::Clear,
            ),
    ensures
        tally(cells, Tally::Flagged) == 0,
        tally(cells, Tally::OpenMine) == 0,
        tally(cells, Tally::ClosedEmpty) == cells.len() - mine_count(cells),
    decreases cells.len(),
{
    if cells.len() > 0 {
        let front = cells.drop_last();
        assert forall|j: int| 0 <= j < front.len() implies (#[trigger] front[j]).visibility
            == TileVisibility::Hidden(Flag::Clear) by {
            assert(front[j] == cells[j]);
        }
        lemma_untouched_tallies(front);
        assert(layout_of(cells).drop_last() =~= layout_of(front));
        assert(cells.last() == cells[cells.len() - 1]);
    } else {
        assert(layout_of(cells) =~= Seq::<bool>::empty());
    }
}

/// Two boards that hold the same, cell by cell, have the same mines and
/// are numbered alike.
pub proof fn lemma_same_contents(a: Seq<Cell>, b: Seq<Cell>, w: int, h: int)
    requires
        a.len() == b.len(),
        forall|j: int| 0 <= j < a.len() ==> (#[trigger] a[j]).content == b[j].content,
    ensures
        layout_of(a) == layout_of(b),
        mine_count(a) == mine_count(b),
        numbered(a, w, h) == numbered(b, w, h),
{
    assert(layout_of(a) =~= layout_of(b));
    if numbered(a, w, h) {
        assert forall|i: int| 0 <= i < b.len() implies ((#[trigger] b[i]).content matches
            CellContent::Empty(n) ==> n == mines_around(b, i % w, i / w, w, h)) by {
            assert(a[i].content == b[i].content);
        }
    }
    if numbered(b, w, h) {
        assert forall|i: int| 0 <= i < a.len() implies ((#[trigger] a[i]).content matches
            CellContent::Empty(n) ==> n == mines_around(a, i % w, i / w, w, h)) by {
            assert(a[i].content == b[i].content);
        }
    }
}

/// A well-formed diff that fits the board changes what no cell holds.
pub proof fn lemma_applied_keeps_contents(cells: Seq<Cell>, entries: Seq<SingleCellDiff>)
    requires
        well_formed(entries),
        fits(cells, entries),
    ensures
        cells_applied(cells, entries).len() == cells.len(),
        forall|j: int|
            0 <= j < cells.len() ==> (#[trigger] cells_applied(cells, entries)[j]).content
                == cells[j].content,
{
    assert(in_board(cells, entries)) by {
        assert forall|i: int| 0 <= i < entries.len() implies (#[trigger] entries[i]).index
            < cells.len() by {}
    }
    lemma_cells_applied_len(cells, entries);
    assert forall|j: int| 0 <= j < cells.len() implies (#[trigger] cells_applied(
        cells,
        entries,
    )[j]).content == cells[j].content by {
        if touches(entries, j) {
            let i = choose|i: int| 0 <= i < entries.len() && (#[trigger] entries[i]).index == j;
            lemma_cells_applied_at(cells, entries, i);
            assert(entries[i].before.content == entries[i].after.content);
        } else {
            lemma_cells_applied_elsewhere(cells, entries, j);
        }
    }
}

/// On a numbered board every cell is well formed: no count exceeds eight.
pub proof fn lemma_numbered_cells_wf(cells: Seq<Cell>, w: int, h: int)
    requires
        numbered(cells, w, h),
    ensures
        forall|j: int| 0 <= j < cells.len() ==> (#[trigger] cells[j]).wf(),
{
    assert forall|j: int| 0 <= j < cells.len() implies (#[trigger] cells[j]).wf() by {
        lemma_laid_around_bounds(layout_of(cells), j % w, j / w, w, h, cells.len() as int);
    }
}

} // verus!
