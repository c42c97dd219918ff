//! Reversible descriptions of cell changes.
use vstd::prelude::*;
use crate::cell::Cell;

verus! {

/// The change of one cell: where it is, what it was and what it becomes.
#[derive(Copy, Clone, Debug, PartialEq, Eq, Structural)]
pub struct SingleCellDiff {
    pub index: usize,
    pub before: Cell,
    pub after: Cell,
}

/// The cell changes that one action causes.
#[derive(Debug)]
pub enum Diff {
    SingleCell(SingleCellDiff),
    MultiCell(Vec<SingleCellDiff>),
}

impl Diff {
    /// The single-cell changes of this diff, in order.
    pub open spec fn entries(&self) -> Seq<SingleCellDiff> {
        match self {
            Diff::SingleCell(d) => seq![*d],
            Diff::MultiCell(ds) => ds@,
        }
    }
}

/// No two entries change the same cell.
pub open spec fn distinct_indices(entries: Seq<SingleCellDiff>) -> bool {
    forall|i: int, j: int|
        0 <= i < j < entries.len() ==> (#[trigger] entries[i]).index
            != (#[trigger] entries[j]).index
}

/// Every entry changes how a cell is seen, never what it holds.
pub open spec fn keeps_content(entries: Seq<SingleCellDiff>) -> bool {
    forall|i: int|
        0 <= i < entries.len() ==> (#[trigger] entries[i]).before.content
            == entries[i].after.content
}

/// A diff as the action processor makes them: each cell at most once, and
/// no content changed.
pub open spec fn well_formed(entries: Seq<SingleCellDiff>) -> bool {
    distinct_indices(entries) && keeps_content(entries)
}

/// Every entry lies on the board and records as `before` what the board holds.
pub open spec fn fits(cells: Seq<Cell>, entries: Seq<SingleCellDiff>) -> bool {
    forall|i: int|
        0 <= i < entries.len() ==> {
            &&& (#[trigger] entries[i]).index < cells.len()
            &&& cells[entries[i].index as int] == entries[i].before
        }
}

/// Every entry lies on the board.
pub open spec fn in_board(cells: Seq<Cell>, entries: Seq<SingleCellDiff>) -> bool {
    forall|i: int| 0 <= i < entries.len() ==> (#[trigger] entries[i]).index < cells.len()
}

impl SingleCellDiff {
    /// The change that takes this one back.
    pub open spec fn inverse(self) -> SingleCellDiff {
        SingleCellDiff { index: self.index, before: self.after, after: self.before }
    }
}

/// The entries in the same order, each turned round.
pub open spec fn inverse(entries: Seq<SingleCellDiff>) -> Seq<SingleCellDiff> {
    Seq::new(entries.len(), |i: int| entries[i].inverse())
}

/// Whether some entry changes cell `j`.
pub open spec fn touches(entries: Seq<SingleCellDiff>, j: int) -> bool {
    exists|i: int| 0 <= i < entries.len() && (#[trigger] entries[i]).index == j
}

/// The board after the entries were applied in order.
pub open spec fn cells_applied(cells: Seq<Cell>, entries: Seq<SingleCellDiff>) -> Seq<Cell>
    decreases entries.len(),
{
    if entries.len() == 0 {
        cells
    } else {
        cells_applied(cells, entries.drop_last()).update(
            entries.last().index as int,
            entries.last().after,
        )
    }
}

/// Applying entries keeps the number of cells.
pub proof fn lemma_cells_applied_len(cells: Seq<Cell>, entries: Seq<SingleCellDiff>)
    requires
        in_board(cells, entries),
    ensures
        cells_applied(cells, entries).len() == cells.len(),
    decreases entries.len(),
{
    if entries.len() > 0 {
        lemma_front_in_board(cells, entries);
        lemma_cells_applied_len(cells, entries.drop_last());
        assert(entries[entries.len() - 1].index < cells.len());
    }
}

/// Dropping the last entry keeps a diff on the board.
pub proof fn lemma_front_in_board(cells: Seq<Cell>, entries: Seq<SingleCellDiff>)
    requires
        entries.len() > 0,
        in_board(cells, entries),
    ensures
        in_board(cells, entries.drop_last()),
{
    let front = entries.drop_last();
    assert forall|k: int| 0 <= k < front.len() implies (#[trigger] front[k]).index
        < cells.len() by {
        assert(entries[k].index < cells.len());
    }
}

/// A cell that no entry touches is left alone.
pub proof fn lemma_cells_applied_elsewhere(cells: Seq<Cell>, entries: Seq<SingleCellDiff>, j: int)
    requires
        in_board(cells, entries),
        0 <= j < cells.len(),
        !touches(entries, j),
    ensures
        cells_applied(cells, entries)[j] == cells[j],
    decreases entries.len(),
{
    if entries.len() > 0 {
        let front = entries.drop_last();
        assert(entries[entries.len() - 1].index != j);
        assert(!touches(front, j)) by {
            if touches(front, j) {
                let i = choose|i: int| 0 <= i < front.len() && (#[trigger] front[i]).index == j;
                assert(entries[i].index == j);
            }
        }
        lemma_front_in_board(cells, entries);
        lemma_cells_applied_elsewhere(cells, front, j);
        lemma_cells_applied_len(cells, front);
        assert(entries[entries.len() - 1].index < cells.len());
    }
}

/// Where no cell is changed twice, each entry's cell holds its `after`.
pub proof fn lemma_cells_applied_at(cells: Seq<Cell>, entries: Seq<SingleCellDiff>, i: int)
    requires
        distinct_indices(entries),
        in_board(cells, entries),
        0 <= i < entries.len(),
    ensures
        cells_applied(cells, entries)[entries[i].index as int] == entries[i].after,
    decreases entries.len(),
{
    let front = entries.drop_last();
    lemma_front_in_board(cells, entries);
    lemma_cells_applied_len(cells, front);
    assert(entries[entries.len() - 1].index < cells.len());
    if i < front.len() {
        assert(entries[i].index != entries[entries.len() - 1].index);
        lemma_front_well_formed(entries);
        lemma_cells_applied_at(cells, front, i);
    }
}

/// Dropping the last entry keeps a diff well formed.
pub proof fn lemma_front_well_formed(entries: Seq<SingleCellDiff>)
    requires
        entries.len() > 0,
    ensures
        distinct_indices(entries) ==> distinct_indices(entries.drop_last()),
        keeps_content(entries) ==> keeps_content(entries.drop_last()),
{
    let front = entries.drop_last();
    if distinct_indices(entries) {
        assert forall|i: int, k: int| 0 <= i < k < front.len() implies (#[trigger] front[i]).index
            != (#[trigger] front[k]).index by {
            assert(entries[i].index != entries[k].index);
        }
    }
    if keeps_content(entries) {
        assert forall|i: int| 0 <= i < front.len() implies (#[trigger] front[i]).before.content
            == front[i].after.content by {
            assert(entries[i].before.content == entries[i].after.content);
        }
    }
}

} // verus!
