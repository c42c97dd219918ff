//! What a flood reaches, and what holds while one is under way.
use vstd::prelude::*;
use crate::cell::Cell;
use crate::cell_content::CellContent;
use crate::diff::{
    cells_applied, distinct_indices, in_board, lemma_cells_applied_at,
    lemma_cells_applied_elsewhere, lemma_cells_applied_len, touches, SingleCellDiff,
};
use crate::util::{
    adjacent, in_grid, index_of, lemma_cell_of_index, lemma_index_of, lemma_neighbors_8,
    neighbors_spec, Cursor, DIRS_8,
};

verus! {

/// Whether the cells with indices `a` and `b` touch on a grid `w` wide.
pub open spec fn touching(a: int, b: int, w: int) -> bool {
    adjacent(a % w, a / w, b % w, b / w)
}

/// Whether a flood that has reached cell `a` goes on to cell `b`: `a` has
/// no mine near it, `b` is hidden and touches `a`.
pub open spec fn spreads(cells: Seq<Cell>, w: int, a: int, b: int) -> bool {
    &&& 0 <= a < cells.len()
    &&& 0 <= b < cells.len()
    &&& cells[a].content == CellContent::Empty(0)
    &&& cells[b].is_hidden()
    &&& touching(a, b, w)
}

/// A chain of cells from `origin`, each spreading to the next.
pub open spec fn is_flood_path(cells: Seq<Cell>, w: int, origin: int, path: Seq<int>) -> bool {
    &&& path.len() > 0
    &&& path[0] == origin
    &&& forall|k: int|
        0 <= k < path.len() - 1 ==> spreads(cells, w, #[trigger] path[k], path[k + 1])
}

/// Whether the flood that starts at `origin` reaches cell `i`.
pub open spec fn flooded(cells: Seq<Cell>, w: int, origin: int, i: int) -> bool {
    exists|path: Seq<int>| #[trigger] is_flood_path(cells, w, origin, path) && path.last() == i
}

/// Whether `entries` is the diff of the flood that starts at `origin`: it
/// opens `origin` first, then every other cell that the flood reaches,
/// each once, and no other cell.
pub open spec fn is_flood(
    cells: Seq<Cell>,
    w: int,
    origin: int,
    entries: Seq<SingleCellDiff>,
) -> bool {
    &&& entries.len() > 0
    &&& entries[0].index == origin
    &&& distinct_indices(entries)
    &&& forall|k: int| 0 <= k < entries.len() ==> opens(cells, #[trigger] entries[k])
    &&& forall|j: int|
        0 <= j < cells.len() ==> (#[trigger] touches(entries, j) <==> flooded(cells, w, origin, j))
}

/// The flood reaches its origin.
pub proof fn lemma_flood_origin(cells: Seq<Cell>, w: int, origin: int)
    ensures
        flooded(cells, w, origin, origin),
{
    let path = seq![origin];
    assert(is_flood_path(cells, w, origin, path));
    assert(path.last() == origin);
}

/// Where the flood reaches `a` and `a` spreads to `b`, it reaches `b`.
pub proof fn lemma_flood_extend(cells: Seq<Cell>, w: int, origin: int, a: int, b: int)
    requires
        flooded(cells, w, origin, a),
        spreads(cells, w, a, b),
    ensures
        flooded(cells, w, origin, b),
{
    let p = choose|path: Seq<int>| #[trigger]
        is_flood_path(cells, w, origin, path) && path.last() == a;
    let q = p.push(b);
    assert forall|k: int| 0 <= k < q.len() - 1 implies spreads(
        cells,
        w,
        #[trigger] q[k],
        q[k + 1],
    ) by {
        if k < p.len() - 1 {
            assert(spreads(cells, w, p[k], p[k + 1]));
        }
    }
    assert(is_flood_path(cells, w, origin, q));
    assert(q.last() == b);
}

/// Whether the cells that `entries` touches are closed under spreading.
pub open spec fn closed_under_spread(
    cells: Seq<Cell>,
    w: int,
    entries: Seq<SingleCellDiff>,
) -> bool {
    forall|a: int, b: int|
        touches(entries, a) && #[trigger] spreads(cells, w, a, b) ==> touches(entries, b)
}

proof fn lemma_closed_holds_path(
    cells: Seq<Cell>,
    w: int,
    origin: int,
    entries: Seq<SingleCellDiff>,
    path: Seq<int>,
)
    requires
        touches(entries, origin),
        closed_under_spread(cells, w, entries),
        is_flood_path(cells, w, origin, path),
    ensures
        touches(entries, path.last()),
    decreases path.len(),
{
    if path.len() > 1 {
        let front = path.drop_last();
        assert(is_flood_path(cells, w, origin, front)) by {
            assert forall|k: int| 0 <= k < front.len() - 1 implies spreads(
                cells,
                w,
                #[trigger] front[k],
                front[k + 1],
            ) by {
                assert(spreads(cells, w, path[k], path[k + 1]));
            }
        }
        lemma_closed_holds_path(cells, w, origin, entries, front);
        let k = path.len() - 2;
        assert(spreads(cells, w, path[k], path[k + 1]));
        assert(front.last() == path[k]);
    }
}

/// A set of cells that holds the origin and is closed under spreading
/// holds every cell that the flood reaches.
pub proof fn lemma_closed_holds_flood(
    cells: Seq<Cell>,
    w: int,
    origin: int,
    entries: Seq<SingleCellDiff>,
    j: int,
)
    requires
        touches(entries, origin),
        closed_under_spread(cells, w, entries),
        flooded(cells, w, origin, j),
    ensures
        touches(entries, j),
{
    let p = choose|path: Seq<int>| #[trigger]
        is_flood_path(cells, w, origin, path) && path.last() == j;
    lemma_closed_holds_path(cells, w, origin, entries, p);
}

/// The index of a cursor on a grid `w` wide.
pub open spec fn cursor_index(c: Cursor, w: int) -> int {
    index_of(c.0 as int, c.1 as int, w)
}

/// Whether the worklist holds the cell with index `a`.
pub open spec fn waiting(stack: Seq<Cursor>, a: int, w: int) -> bool {
    exists|s: int| 0 <= s < stack.len() && cursor_index(#[trigger] stack[s], w) == a
}

/// Whether the cell with index `b` is among the first `t` of `nb`.
pub open spec fn seen(nb: Seq<Cursor>, t: int, b: int, w: int) -> bool {
    exists|s: int| 0 <= s < t && cursor_index(#[trigger] nb[s], w) == b
}

/// An entry that opens a hidden cell of the board: it lies on the board,
/// records the hidden cell as `before` and the same cell, shown, as `after`.
pub open spec fn opens(orig: Seq<Cell>, e: SingleCellDiff) -> bool {
    &&& e.index < orig.len()
    &&& orig[e.index as int].is_hidden()
    &&& e.before == orig[e.index as int]
    &&& e.after == orig[e.index as int].shown()
}

/// A cursor on the worklist: a cell of the grid that is already in the
/// diff and has no mine near it.
pub open spec fn on_hold(
    orig: Seq<Cell>,
    w: int,
    h: int,
    ret: Seq<SingleCellDiff>,
    c: Cursor,
) -> bool {
    &&& in_grid(c.0 as int, c.1 as int, w, h)
    &&& touches(ret, cursor_index(c, w))
    &&& orig[cursor_index(c, w)].content == CellContent::Empty(0)
}

/// What holds of a flood at every moment: the diff so far opens hidden
/// cells that the flood reaches, each once, the working copy of the board
/// shows exactly those, and the worklist holds only cells of the diff.
pub open spec fn flood_progress(
    orig: Seq<Cell>,
    w: int,
    h: int,
    origin: int,
    cells: Seq<Cell>,
    ret: Seq<SingleCellDiff>,
    stack: Seq<Cursor>,
) -> bool {
    &&& 0 < w
    &&& 0 < h
    &&& orig.len() == w * h
    &&& cells.len() == orig.len()
    &&& ret.len() > 0
    &&& ret[0].index == origin
    &&& distinct_indices(ret)
    &&& forall|k: int| 0 <= k < ret.len() ==> opens(orig, #[trigger] ret[k])
    &&& forall|j: int|
        0 <= j < cells.len() ==> #[trigger] cells[j] == (if touches(ret, j) {
            orig[j].shown()
        } else {
            orig[j]
        })
    &&& forall|j: int| #[trigger] touches(ret, j) ==> flooded(orig, w, origin, j)
    &&& forall|s: int| 0 <= s < stack.len() ==> on_hold(orig, w, h, ret, #[trigger] stack[s])
}

/// What is still owed: wherever a cell of the diff spreads to a cell that
/// is not in the diff, the first waits on the worklist, or it is the cell
/// `a0` under expansion and the second is not among its first `t` neighbours.
pub open spec fn flood_pending(
    orig: Seq<Cell>,
    w: int,
    ret: Seq<SingleCellDiff>,
    stack: Seq<Cursor>,
    a0: int,
    nb: Seq<Cursor>,
    t: int,
) -> bool {
    forall|a: int, b: int|
        touches(ret, a) && #[trigger] spreads(orig, w, a, b) ==> touches(ret, b) || waiting(
            stack,
            a,
            w,
        ) || (a == a0 && !seen(nb, t, b, w))
}

/// As `flood_pending`, between two expansions.
pub open spec fn flood_owed(
    orig: Seq<Cell>,
    w: int,
    ret: Seq<SingleCellDiff>,
    stack: Seq<Cursor>,
) -> bool {
    forall|a: int, b: int|
        touches(ret, a) && #[trigger] spreads(orig, w, a, b) ==> touches(ret, b) || waiting(
            stack,
            a,
            w,
        )
}

/// One more entry touches one more cell.
pub proof fn lemma_touches_push(entries: Seq<SingleCellDiff>, e: SingleCellDiff)
    ensures
        forall|j: int| #[trigger]
            touches(entries.push(e), j) <==> touches(entries, j) || j == e.index,
{
    let more = entries.push(e);
    assert forall|j: int| #[trigger] touches(more, j) <==> touches(entries, j) || j == e.index by {
        if touches(more, j) {
            let i = choose|i: int| 0 <= i < more.len() && (#[trigger] more[i]).index == j;
            if i < entries.len() {
                assert(entries[i].index == j);
            }
        }
        if touches(entries, j) {
            let i = choose|i: int| 0 <= i < entries.len() && (#[trigger] entries[i]).index == j;
            assert(more[i].index == j);
        }
        if j == e.index {
            assert(more[entries.len() as int].index == j);
        }
    }
}

/// One more cursor on the worklist.
pub proof fn lemma_waiting_push(stack: Seq<Cursor>, c: Cursor, w: int)
    ensures
        forall|a: int| #[trigger]
            waiting(stack.push(c), a, w) <==> waiting(stack, a, w) || a == cursor_index(c, w),
{
    let more = stack.push(c);
    assert forall|a: int| #[trigger]
        waiting(more, a, w) <==> waiting(stack, a, w) || a == cursor_index(c, w) by {
        if waiting(more, a, w) {
            let s = choose|s: int| 0 <= s < more.len() && cursor_index(#[trigger] more[s], w) == a;
            if s < stack.len() {
                assert(cursor_index(stack[s], w) == a);
            }
        }
        if waiting(stack, a, w) {
            let s = choose|s: int|
                0 <= s < stack.len() && cursor_index(#[trigger] stack[s], w) == a;
            assert(cursor_index(more[s], w) == a);
        }
        if a == cursor_index(c, w) {
            assert(cursor_index(more[stack.len() as int], w) == a);
        }
    }
}

/// The flood as it starts: the origin is in the diff and on the worklist.
pub proof fn lemma_flood_start(
    orig: Seq<Cell>,
    w: int,
    h: int,
    origin: int,
    c: Cursor,
    e: SingleCellDiff,
)
    requires
        0 < w,
        0 < h,
        orig.len() == w * h,
        0 <= origin < orig.len(),
        orig[origin].is_hidden(),
        orig[origin].content == CellContent::Empty(0),
        in_grid(c.0 as int, c.1 as int, w, h),
        cursor_index(c, w) == origin,
        e.index == origin,
        e.before == orig[origin],
        e.after == orig[origin].shown(),
    ensures
        flood_progress(orig, w, h, origin, orig.update(origin, e.after), seq![e], seq![c]),
        flood_owed(orig, w, seq![e], seq![c]),
{
    let ret = seq![e];
    let stack = seq![c];
    lemma_touches_push(Seq::empty(), e);
    assert(Seq::<SingleCellDiff>::empty().push(e) == ret);
    assert forall|j: int| #[trigger] touches(ret, j) <==> j == origin by {
        assert(!touches(Seq::<SingleCellDiff>::empty(), j));
    }
    lemma_flood_origin(orig, w, origin);
    assert(cursor_index(stack[0], w) == origin);
    assert(waiting(stack, origin, w));
    assert(ret[0] == e);
    assert(opens(orig, e));
}

/// Taking the last cursor off the worklist to expand it.
pub proof fn lemma_flood_pop(
    orig: Seq<Cell>,
    w: int,
    h: int,
    origin: int,
    cells: Seq<Cell>,
    ret: Seq<SingleCellDiff>,
    stack: Seq<Cursor>,
    nb: Seq<Cursor>,
)
    requires
        flood_progress(orig, w, h, origin, cells, ret, stack),
        flood_owed(orig, w, ret, stack),
        stack.len() > 0,
    ensures
        flood_progress(orig, w, h, origin, cells, ret, stack.drop_last()),
        flood_pending(orig, w, ret, stack.drop_last(), cursor_index(stack.last(), w), nb, 0),
{
    let rest = stack.drop_last();
    let a0 = cursor_index(stack.last(), w);
    assert forall|s: int| 0 <= s < rest.len()
        implies on_hold(orig, w, h, ret, #[trigger] rest[s]) by {
        assert(rest[s] == stack[s]);
    }
    assert forall|a: int, b: int| touches(ret, a) && #[trigger] spreads(orig, w, a, b)
        implies touches(
        ret,
        b,
    ) || waiting(rest, a, w) || (a == a0 && !seen(nb, 0, b, w)) by {
        if !touches(ret, b) {
            assert(waiting(stack, a, w));
            let s = choose|s: int|
                0 <= s < stack.len() && cursor_index(#[trigger] stack[s], w) == a;
            if s < rest.len() {
                assert(cursor_index(rest[s], w) == a);
            }
        }
    }
}

/// A neighbour that the working copy shows as opened needs nothing.
pub proof fn lemma_flood_skip(
    orig: Seq<Cell>,
    w: int,
    h: int,
    origin: int,
    cells: Seq<Cell>,
    ret: Seq<SingleCellDiff>,
    stack: Seq<Cursor>,
    a0: int,
    nb: Seq<Cursor>,
    t: int,
)
    requires
        flood_progress(orig, w, h, origin, cells, ret, stack),
        flood_pending(orig, w, ret, stack, a0, nb, t),
        0 <= t < nb.len(),
        in_grid(nb[t].0 as int, nb[t].1 as int, w, h),
        !cells[cursor_index(nb[t], w)].is_hidden(),
    ensures
        flood_pending(orig, w, ret, stack, a0, nb, t + 1),
{
    let i = cursor_index(nb[t], w);
    lemma_index_of(nb[t].0 as int, nb[t].1 as int, w, h);
    assert forall|a: int, b: int| touches(ret, a) && #[trigger] spreads(orig, w, a, b)
        implies touches(
        ret,
        b,
    ) || waiting(stack, a, w) || (a == a0 && !seen(nb, t + 1, b, w)) by {
        if !touches(ret, b) && !waiting(stack, a, w) {
            assert(a == a0 && !seen(nb, t, b, w));
            if seen(nb, t + 1, b, w) {
                let s = choose|s: int| 0 <= s < t + 1 && cursor_index(#[trigger] nb[s], w) == b;
                if s < t {
                    assert(seen(nb, t, b, w));
                } else {
                    assert(b == i);
                    assert(cells[i] == orig[i]);
                }
            }
        }
    }
}

/// A hidden neighbour of the cell under expansion enters the diff, and
/// the worklist too if it has no mine near it.
pub proof fn lemma_flood_record(
    orig: Seq<Cell>,
    w: int,
    h: int,
    origin: int,
    cells: Seq<Cell>,
    ret: Seq<SingleCellDiff>,
    stack: Seq<Cursor>,
    c: Cursor,
    nb: Seq<Cursor>,
    t: int,
    e: SingleCellDiff,
)
    requires
        flood_progress(orig, w, h, origin, cells, ret, stack),
        flood_pending(orig, w, ret, stack, cursor_index(c, w), nb, t),
        on_hold(orig, w, h, ret, c),
        w <= u16::MAX,
        h <= u16::MAX,
        nb == neighbors_spec(DIRS_8@, c, w as u16, h as u16),
        0 <= t < nb.len(),
        e.index == cursor_index(nb[t], w),
        0 <= e.index < cells.len(),
        cells[e.index as int].is_hidden(),
        e.before == cells[e.index as int],
        e.after == cells[e.index as int].shown(),
    ensures
        cells[e.index as int] == orig[e.index as int],
        flood_progress(
            orig,
            w,
            h,
            origin,
            cells.update(e.index as int, e.after),
            ret.push(e),
            if orig[e.index as int].content == CellContent::Empty(0) {
                stack.push(nb[t])
            } else {
                stack
            },
        ),
        flood_pending(
            orig,
            w,
            ret.push(e),
            if orig[e.index as int].content == CellContent::Empty(0) {
                stack.push(nb[t])
            } else {
                stack
            },
            cursor_index(c, w),
            nb,
            t + 1,
        ),
{
    let p = nb[t];
    let a0 = cursor_index(c, w);
    let i = e.index as int;
    lemma_neighbors_8(c, w as u16, h as u16);
    assert(nb.contains(p));
    lemma_index_of(p.0 as int, p.1 as int, w, h);
    lemma_index_of(c.0 as int, c.1 as int, w, h);
    let more = ret.push(e);
    let next = if orig[i].content == CellContent::Empty(0) {
        stack.push(p)
    } else {
        stack
    };
    let shown = cells.update(i, e.after);
    lemma_touches_push(ret, e);
    lemma_waiting_push(stack, p, w);
    assert(!touches(ret, i));
    assert(cells[i] == orig[i]);
    assert(spreads(orig, w, a0, i));
    lemma_flood_extend(orig, w, origin, a0, i);
    assert(distinct_indices(more)) by {
        assert forall|x: int, y: int| 0 <= x < y < more.len()
            implies (#[trigger] more[x]).index != (
        #[trigger] more[y]).index by {
            if y == ret.len() {
                assert(ret[x].index != i) by {
                    if ret[x].index == i {
                        assert(touches(ret, i));
                    }
                }
            } else {
                assert(ret[x].index != ret[y].index);
            }
        }
    }
    assert(opens(orig, e));
    assert forall|k: int| 0 <= k < more.len() implies opens(orig, #[trigger] more[k]) by {
        if k < ret.len() {
            assert(opens(orig, ret[k]));
        }
    }
    assert forall|s: int| 0 <= s < next.len()
        implies on_hold(orig, w, h, more, #[trigger] next[s]) by {
        if s < stack.len() {
            assert(on_hold(orig, w, h, ret, stack[s]));
        }
    }
    assert(more[0] == ret[0]);
    assert forall|j: int| #[trigger] touches(more, j) implies flooded(orig, w, origin, j) by {
        if j != i {
            assert(touches(ret, j));
        }
    }
    assert(flood_progress(orig, w, h, origin, shown, more, next));
    assert forall|a: int, b: int| touches(more, a) && #[trigger] spreads(orig, w, a, b)
        implies touches(
        more,
        b,
    ) || waiting(next, a, w) || (a == a0 && !seen(nb, t + 1, b, w)) by {
        if a == i && !touches(ret, a) {
            assert(waiting(next, a, w));
        } else if !touches(more, b) && !waiting(next, a, w) {
            assert(touches(ret, a));
            assert(a == a0 && !seen(nb, t, b, w));
            if seen(nb, t + 1, b, w) {
                let s = choose|s: int| 0 <= s < t + 1 && cursor_index(#[trigger] nb[s], w) == b;
                if s < t {
                    assert(seen(nb, t, b, w));
                }
            }
        }
    }
}

/// When all neighbours of the expanded cell were looked at, nothing is
/// owed for it any more.
pub proof fn lemma_flood_expanded(
    orig: Seq<Cell>,
    w: int,
    h: int,
    ret: Seq<SingleCellDiff>,
    stack: Seq<Cursor>,
    c: Cursor,
    nb: Seq<Cursor>,
)
    requires
        0 < w <= u16::MAX,
        0 < h <= u16::MAX,
        orig.len() == w * h,
        in_grid(c.0 as int, c.1 as int, w, h),
        nb == neighbors_spec(DIRS_8@, c, w as u16, h as u16),
        flood_pending(orig, w, ret, stack, cursor_index(c, w), nb, nb.len() as int),
    ensures
        flood_owed(orig, w, ret, stack),
{
    let a0 = cursor_index(c, w);
    lemma_neighbors_8(c, w as u16, h as u16);
    lemma_index_of(c.0 as int, c.1 as int, w, h);
    assert forall|a: int, b: int| touches(ret, a) && #[trigger] spreads(orig, w, a, b)
        implies touches(
        ret,
        b,
    ) || waiting(stack, a, w) by {
        if !touches(ret, b) && !waiting(stack, a, w) {
            assert(a == a0 && !seen(nb, nb.len() as int, b, w));
            lemma_cell_of_index(b, w, h);
            let p: Cursor = ((b % w) as u16, (b / w) as u16);
            assert(nb.contains(p));
            let s = choose|s: int| 0 <= s < nb.len() && nb[s] == p;
            assert(cursor_index(nb[s], w) == b);
            assert(seen(nb, nb.len() as int, b, w));
        }
    }
}

/// With an empty worklist the diff is the flood's, and the working copy
/// is the board with the diff applied.
pub proof fn lemma_flood_finish(
    orig: Seq<Cell>,
    w: int,
    h: int,
    origin: int,
    cells: Seq<Cell>,
    ret: Seq<SingleCellDiff>,
)
    requires
        flood_progress(orig, w, h, origin, cells, ret, Seq::empty()),
        flood_owed(orig, w, ret, Seq::empty()),
    ensures
        is_flood(orig, w, origin, ret),
        cells == cells_applied(orig, ret),
{
    assert(touches(ret, origin)) by {
        assert(ret[0].index == origin);
    }
    assert(closed_under_spread(orig, w, ret)) by {
        assert forall|a: int, b: int| touches(ret, a) && #[trigger] spreads(orig, w, a, b)
            implies touches(
            ret,
            b,
        ) by {
            assert(!waiting(Seq::<Cursor>::empty(), a, w));
        }
    }
    assert forall|j: int| 0 <= j < orig.len() implies (#[trigger] touches(ret, j) <==> flooded(
        orig,
        w,
        origin,
        j,
    )) by {
        if flooded(orig, w, origin, j) {
            lemma_closed_holds_flood(orig, w, origin, ret, j);
        }
    }
    assert(in_board(orig, ret)) by {
        assert forall|k: int| 0 <= k < ret.len() implies (#[trigger] ret[k]).index < orig.len() by {
            assert(opens(orig, ret[k]));
        }
    }
    lemma_cells_applied_len(orig, ret);
    assert(cells =~= cells_applied(orig, ret)) by {
        assert forall|j: int| 0 <= j < cells.len()
            implies cells[j] == cells_applied(orig, ret)[j] by {
            if touches(ret, j) {
                let k = choose|k: int| 0 <= k < ret.len() && (#[trigger] ret[k]).index == j;
                lemma_cells_applied_at(orig, ret, k);
                assert(opens(orig, ret[k]));
            } else {
                lemma_cells_applied_elsewhere(orig, ret, j);
            }
        }
    }
}

/// Entries for distinct cells of a board are at most as many as the board has cells.
pub proof fn lemma_distinct_len(entries: Seq<SingleCellDiff>, n: int)
    requires
        distinct_indices(entries),
        0 <= n,
        forall|k: int| 0 <= k < entries.len() ==> (#[trigger] entries[k]).index < n,
    ensures
        entries.len() <= n,
{
    let idx = Seq::new(entries.len(), |k: int| entries[k].index as int);
    assert(idx.no_duplicates()) by {
        assert forall|x: int, y: int| 0 <= x < idx.len() && 0 <= y < idx.len() && x != y
            implies idx[x]
            != idx[y] by {
            if x < y {
                assert(entries[x].index != entries[y].index);
            } else {
                assert(entries[y].index != entries[x].index);
            }
        }
    }
    idx.unique_seq_to_set();
    vstd::set_lib::lemma_int_range(0, n);
    assert(idx.to_set().subset_of(vstd::set_lib::set_int_range(0, n))) by {
        assert forall|v: int| idx.to_set().contains(v)
            implies vstd::set_lib::set_int_range(0, n).contains(
            v,
        ) by {
            let k = choose|k: int| 0 <= k < idx.len() && idx[k] == v;
            assert(entries[k].index < n);
        }
    }
    vstd::set_lib::lemma_len_subset(idx.to_set(), vstd::set_lib::set_int_range(0, n));
}

} // verus!
