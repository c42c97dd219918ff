//! The log of applied diffs, with undo and redo.
use vstd::prelude::*;
use crate::diff::{fits, inverse, well_formed, Diff, SingleCellDiff};
use crate::game_state::{GameState, GameView};
use crate::laws::{
    lemma_apply_keeps_tally, lemma_apply_then_undo, lemma_revert_keeps_tally,
    lemma_undo_then_apply,
};

verus! {

/// The log of the diffs that were applied, with a mark that counts from
/// the end how many of them are undone at the moment.
#[derive(Debug)]
pub struct History {
    pub entries: Vec<Diff>,
    pub index: usize,
}

/// Whether the diffs in `past`, the last of them first, can be undone
/// from a board with the cells of `v`.
pub open spec fn unwindable(v: GameView, past: Seq<Seq<SingleCellDiff>>) -> bool
    decreases past.len(),
{
    past.len() > 0 ==> {
        &&& well_formed(past.last())
        &&& fits(v.cells, inverse(past.last()))
        &&& unwindable(v.reverted(past.last()), past.drop_last())
    }
}

/// Whether the diffs in `future`, the first of them first, can be applied
/// to a board with the cells of `v`.
pub open spec fn replayable(v: GameView, future: Seq<Seq<SingleCellDiff>>) -> bool
    decreases future.len(),
{
    future.len() > 0 ==> {
        &&& well_formed(future.first())
        &&& fits(v.cells, future.first())
        &&& replayable(v.applied(future.first()), future.drop_first())
    }
}

impl History {
    /// The logged diffs as sequences of single-cell changes.
    pub open spec fn diffs(&self) -> Seq<Seq<SingleCellDiff>> {
        Seq::new(self.entries@.len(), |i: int| self.entries@[i].entries())
    }

    /// The number of logged diffs that are in effect.
    pub open spec fn applied_len(&self) -> int {
        self.entries@.len() - self.index
    }

    /// The mark does not point before the first diff.
    pub open spec fn wf(&self) -> bool {
        self.index <= self.entries@.len()
    }

    /// Whether the log belongs to the state `v`: the diffs in effect can be
    /// undone from `v` one by one, the undone ones applied again.
    pub open spec fn consistent(&self, v: GameView) -> bool {
        &&& self.wf()
        &&& unwindable(v, self.diffs().subrange(0, self.applied_len()))
        &&& replayable(v, self.diffs().subrange(self.applied_len(), self.entries@.len() as int))
    }

    /// Drops the undone diffs, then logs `diff` as the newest one in effect.
    pub fn push(&mut self, diff: Diff)
        requires
            old(self).wf(),
        ensures
            final(self).index == 0,
            final(self).entries@ == old(self).entries@.subrange(
                0,
                old(self).applied_len(),
            ).push(diff),
    {
        let keep = self.entries.len() - self.index;
        self.entries.truncate(keep);
        self.index = 0;
        self.entries.push(diff);
    }

    /// Redo: applies the oldest undone diff to the game again, if there is one.
    pub fn step_forward(&mut self, game: &mut GameState)
        requires
            old(self).wf(),
            old(self).index > 0 ==> old(game)@.can_apply(
                old(self).entries@[old(self).applied_len()].entries(),
            ),
        ensures
            final(self).entries@ == old(self).entries@,
            old(self).index == 0 ==> final(self).index == 0 && *final(game) == *old(game),
            old(self).index > 0 ==> final(self).index == old(self).index - 1 && final(game)@ == old(
                game,
            )@.applied(old(self).entries@[old(self).applied_len()].entries()),
    {
        let mut i = self.index;
        if i == 0 {
            return ;
        }
        i -= 1;
        self.index = i;
        let ri = self.entries.len() - i - 1;
        game.apply(&self.entries[ri]);
    }

    /// Undo: takes the newest diff in effect back from the game, if there is one.
    pub fn step_back(&mut self, game: &mut GameState)
        requires
            old(self).index < old(self).entries@.len() ==> old(game)@.can_revert(
                old(self).entries@[old(self).applied_len() - 1].entries(),
            ),
        ensures
            final(self).entries@ == old(self).entries@,
            old(self).index >= old(self).entries@.len() ==> final(self).index == old(self).index
                && *final(game) == *old(game),
            old(self).index < old(self).entries@.len() ==> final(self).index == old(self).index + 1
                && final(game)@ == old(game)@.reverted(
                old(self).entries@[old(self).applied_len() - 1].entries(),
            ),
    {
        if self.index >= self.entries.len() {
            return ;
        }
        let ri = self.entries.len() - self.index - 1;
        self.index += 1;
        game.undo(&self.entries[ri]);
    }
}

impl Default for History {
    fn default() -> (r: Self)
        ensures
            r.entries@.len() == 0,
            r.index == 0,
    {
        History { entries: Vec::new(), index: 0 }
    }
}

/// A state in play that the counters describe: each counter equals the
/// number of cells of its kind, the phase is the one they stand for, and
/// the board is small enough for the counters.
pub open spec fn sound(v: GameView) -> bool {
    &&& v.tallied()
    &&& v.settled()
    &&& v.cells.len() <= u32::MAX
}

/// Undo keeps a log and its state together. Where `applied` diffs of the
/// log are in effect, the newest of them can be undone, and afterwards
/// the log with one diff less in effect belongs to the new state.
pub proof fn lemma_history_back(v: GameView, diffs: Seq<Seq<SingleCellDiff>>, applied: int)
    requires
        sound(v),
        0 < applied <= diffs.len(),
        unwindable(v, diffs.subrange(0, applied)),
        replayable(v, diffs.subrange(applied, diffs.len() as int)),
    ensures
        v.can_revert(diffs[applied - 1]),
        sound(v.reverted(diffs[applied - 1])),
        v.reverted(diffs[applied - 1]).cells.len() == v.cells.len(),
        unwindable(v.reverted(diffs[applied - 1]), diffs.subrange(0, applied - 1)),
        replayable(v.reverted(diffs[applied - 1]), diffs.subrange(applied - 1, diffs.len() as int)),
{
    let past = diffs.subrange(0, applied);
    let e = diffs[applied - 1];
    assert(past.last() == e);
    assert(past.drop_last() == diffs.subrange(0, applied - 1));
    lemma_revert_keeps_tally(v, e);
    lemma_undo_then_apply(v, e);
    let future = diffs.subrange(applied - 1, diffs.len() as int);
    assert(future.first() == e);
    assert(future.drop_first() == diffs.subrange(applied, diffs.len() as int));
}

/// Redo keeps a log and its state together.
pub proof fn lemma_history_forward(v: GameView, diffs: Seq<Seq<SingleCellDiff>>, applied: int)
    requires
        sound(v),
        0 <= applied < diffs.len(),
        unwindable(v, diffs.subrange(0, applied)),
        replayable(v, diffs.subrange(applied, diffs.len() as int)),
    ensures
        v.can_apply(diffs[applied]),
        sound(v.applied(diffs[applied])),
        v.applied(diffs[applied]).cells.len() == v.cells.len(),
        unwindable(v.applied(diffs[applied]), diffs.subrange(0, applied + 1)),
        replayable(v.applied(diffs[applied]), diffs.subrange(applied + 1, diffs.len() as int)),
{
    let future = diffs.subrange(applied, diffs.len() as int);
    let e = diffs[applied];
    assert(future.first() == e);
    assert(future.drop_first() == diffs.subrange(applied + 1, diffs.len() as int));
    lemma_apply_keeps_tally(v, e);
    lemma_apply_then_undo(v, e);
    let past = diffs.subrange(0, applied + 1);
    assert(past.last() == e);
    assert(past.drop_last() == diffs.subrange(0, applied));
}

/// Logging a diff that was just applied keeps a log and its state together.
pub proof fn lemma_history_push(v: GameView, past: Seq<Seq<SingleCellDiff>>, e: Seq<SingleCellDiff>)
    requires
        sound(v),
        unwindable(v, past),
        well_formed(e),
        fits(v.cells, e),
    ensures
        v.can_apply(e),
        sound(v.applied(e)),
        v.applied(e).cells.len() == v.cells.len(),
        unwindable(v.applied(e), past.push(e)),
        replayable(v.applied(e), Seq::empty()),
{
    lemma_apply_keeps_tally(v, e);
    lemma_apply_then_undo(v, e);
    assert(past.push(e).last() == e);
    assert(past.push(e).drop_last() == past);
}

} // verus!
