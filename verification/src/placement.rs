//! Laying the mines after the first click.
use vstd::prelude::*;
use crate::args::{lemma_valid_size, MinesweeperArgs};
use crate::cell::Cell;
use crate::cell_content::CellContent;
use crate::flood::{cursor_index, seen};
use crate::random_fill::{fill_random, is_fill};
use crate::util::{
    adjacent, i_xy, in_grid, index_of, lemma_cell_of_index, lemma_index_injective,
    lemma_index_of, lemma_neighbors_8, lemma_neighbors_9, near, neighbors_spec, valid_neighbors,
    xy_i, Cursor, DIRS_8, DIRS_9,
};

verus! {

/// One if `(x, y)` is a cell of the grid with an index below `limit` that
/// the layout marks, else zero.
pub open spec fn laid_at(mines: Seq<bool>, x: int, y: int, w: int, h: int, limit: int) -> int {
    if in_grid(x, y, w, h) && index_of(x, y, w) < limit && mines[index_of(x, y, w)] {
        1
    } else {
        0
    }
}

/// The number of marked cells with an index below `limit` among the eight around `(x, y)`.
pub open spec fn laid_around(mines: Seq<bool>, x: int, y: int, w: int, h: int, limit: int) -> int {
    laid_at(mines, x + 1, y, w, h, limit) + laid_at(mines, x + 1, y + 1, w, h, limit) + laid_at(
        mines,
        x,
        y + 1,
        w,
        h,
        limit,
    ) + laid_at(mines, x - 1, y + 1, w, h, limit) + laid_at(mines, x - 1, y, w, h, limit)
        + laid_at(mines, x - 1, y - 1, w, h, limit) + laid_at(mines, x, y - 1, w, h, limit)
        + laid_at(mines, x + 1, y - 1, w, h, limit)
}

/// Where the mines of a board lie, cell by cell.
pub open spec fn layout_of(cells: Seq<Cell>) -> Seq<bool> {
    Seq::new(cells.len(), |i: int| cells[i].is_mine())
}

/// The number of mines among the eight cells around `(x, y)`.
pub open spec fn mines_around(cells: Seq<Cell>, x: int, y: int, w: int, h: int) -> int {
    laid_around(layout_of(cells), x, y, w, h, cells.len() as int)
}

/// Every cell without a mine holds the number of mines that touch it.
pub open spec fn numbered(cells: Seq<Cell>, w: int, h: int) -> bool {
    forall|i: int|
        0 <= i < cells.len() ==> ((#[trigger] cells[i]).content matches CellContent::Empty(n) ==> n
            == mines_around(cells, i % w, i / w, w, h))
}

/// The number of marked entries.
pub open spec fn count_true(marks: Seq<bool>) -> int
    decreases marks.len(),
{
    if marks.len() == 0 {
        0
    } else {
        count_true(marks.drop_last()) + if marks.last() {
            1int
        } else {
            0int
        }
    }
}

/// The number of mines on the board.
pub open spec fn mine_count(cells: Seq<Cell>) -> int {
    count_true(layout_of(cells))
}

/// Whether `after` is `before` with the mines of `mines` laid on it: each
/// marked cell holds a mine, every other cell the number of marked cells
/// around it, and every cell is seen as before.
pub open spec fn is_laid(
    before: Seq<Cell>,
    after: Seq<Cell>,
    mines: Seq<bool>,
    w: int,
    h: int,
) -> bool {
    &&& after.len() == before.len()
    &&& forall|j: int|
        0 <= j < after.len() ==> (#[trigger] after[j]).visibility == before[j].visibility
    &&& forall|j: int|
        0 <= j < after.len() ==> (#[trigger] after[j]).content == (if mines[j] {
            CellContent::Mine
        } else {
            CellContent::Empty(laid_around(mines, j % w, j / w, w, h, mines.len() as int) as u8)
        })
}

/// A count around a cell is between zero and eight.
pub proof fn lemma_laid_around_bounds(mines: Seq<bool>, x: int, y: int, w: int, h: int, limit: int)
    ensures
        0 <= laid_around(mines, x, y, w, h, limit) <= 8,
{
}

/// Raising the limit past cell `i` adds one to the count around `(x, y)`
/// exactly if `i` is marked and touches `(x, y)`.
pub proof fn lemma_laid_step(mines: Seq<bool>, x: int, y: int, w: int, h: int, i: int)
    requires
        0 <= i < w * h,
        0 < w,
        in_grid(x, y, w, h),
    ensures
        laid_around(mines, x, y, w, h, i + 1) == laid_around(mines, x, y, w, h, i) + (if mines[i]
            && adjacent(x, y, i % w, i / w) {
            1int
        } else {
            0int
        }),
{
    lemma_cell_of_index(i, w, h);
    lemma_laid_at_step(mines, x + 1, y, w, h, i);
    lemma_laid_at_step(mines, x + 1, y + 1, w, h, i);
    lemma_laid_at_step(mines, x, y + 1, w, h, i);
    lemma_laid_at_step(mines, x - 1, y + 1, w, h, i);
    lemma_laid_at_step(mines, x - 1, y, w, h, i);
    lemma_laid_at_step(mines, x - 1, y - 1, w, h, i);
    lemma_laid_at_step(mines, x, y - 1, w, h, i);
    lemma_laid_at_step(mines, x + 1, y - 1, w, h, i);
}

proof fn lemma_laid_at_step(mines: Seq<bool>, x: int, y: int, w: int, h: int, i: int)
    requires
        0 <= i < w * h,
        0 < w,
    ensures
        laid_at(mines, x, y, w, h, i + 1) == laid_at(mines, x, y, w, h, i) + (if mines[i] && x == i
            % w && y == i / w {
            1int
        } else {
            0int
        }),
{
    lemma_cell_of_index(i, w, h);
    if in_grid(x, y, w, h) {
        lemma_index_of(x, y, w, h);
    }
}

/// The board while mines are being laid. The marked cells below `i`
/// hold their mine, and so does cell `i` if it is `current`; every other
/// cell counts the marked cells below `i` around it, and one more if
/// `i` is `current` and the cell is among the first `t` of `nb`.
pub open spec fn laying(
    before: Seq<Cell>,
    now: Seq<Cell>,
    mines: Seq<bool>,
    w: int,
    h: int,
    i: int,
    nb: Seq<Cursor>,
    t: int,
    current: bool,
) -> bool {
    &&& now.len() == before.len()
    &&& forall|j: int| 0 <= j < now.len() ==> (#[trigger] now[j]).visibility == before[j].visibility
    &&& forall|j: int|
        0 <= j < now.len() ==> (#[trigger] now[j]).content == (if mines[j] && (j < i || (current
            && j == i)) {
            CellContent::Mine
        } else {
            CellContent::Empty(
                (laid_around(mines, j % w, j / w, w, h, i) + (if current && seen(nb, t, j, w) {
                    1int
                } else {
                    0int
                })) as u8,
            )
        })
}

/// Passing a cell: either it is not marked, or its mine is laid and its
/// neighbours were all counted up.
proof fn lemma_laying_next(
    before: Seq<Cell>,
    now: Seq<Cell>,
    mines: Seq<bool>,
    w: u16,
    h: u16,
    i: int,
    nb: Seq<Cursor>,
)
    requires
        now.len() == w * h,
        0 <= i < now.len(),
        mines[i] ==> nb == neighbors_spec(DIRS_8@, ((i % w as int) as u16, (i / w as int) as u16), w, h),
        laying(before, now, mines, w as int, h as int, i, nb, nb.len() as int, mines[i]),
    ensures
        laying(before, now, mines, w as int, h as int, i + 1, nb, 0, false),
{
    let wi = w as int;
    let hi = h as int;
    assert(wi > 0) by (nonlinear_arith)
        requires
            0 <= i < wi * hi,
            0 <= wi,
    ;
    lemma_cell_of_index(i, wi, hi);
    let c: Cursor = ((i % wi) as u16, (i / wi) as u16);
    assert forall|j: int| 0 <= j < now.len()
        implies (#[trigger] now[j]).content == (if mines[j] && j
        < i + 1 {
        CellContent::Mine
    } else {
        CellContent::Empty(laid_around(mines, j % wi, j / wi, wi, hi, i + 1) as u8)
    }) by {
        lemma_cell_of_index(j, wi, hi);
        lemma_laid_step(mines, j % wi, j / wi, wi, hi, i);
        if mines[i] {
            lemma_neighbors_8(c, w, h);
            let p: Cursor = ((j % wi) as u16, (j / wi) as u16);
            if seen(nb, nb.len() as int, j, wi) {
                let s = choose|s: int| 0 <= s < nb.len() && cursor_index(#[trigger] nb[s], wi) == j;
                assert(nb.contains(nb[s]));
                lemma_index_of(nb[s].0 as int, nb[s].1 as int, wi, hi);
            }
            if adjacent(j % wi, j / wi, i % wi, i / wi) {
                assert(nb.contains(p));
                let s = choose|s: int| 0 <= s < nb.len() && nb[s] == p;
                assert(cursor_index(nb[s], wi) == j);
            }
        }
    }
}

/// Counting up one neighbour of the mine that is being laid.
proof fn lemma_laying_count(
    before: Seq<Cell>,
    now: Seq<Cell>,
    mines: Seq<bool>,
    w: u16,
    h: u16,
    i: int,
    nb: Seq<Cursor>,
    t: int,
)
    requires
        now.len() == w * h,
        0 <= i < now.len(),
        mines[i],
        nb == neighbors_spec(DIRS_8@, ((i % w as int) as u16, (i / w as int) as u16), w, h),
        0 <= t < nb.len(),
        laying(before, now, mines, w as int, h as int, i, nb, t, true),
    ensures
        in_grid(nb[t].0 as int, nb[t].1 as int, w as int, h as int),
        0 <= cursor_index(nb[t], w as int) < now.len(),
        ({
            let j = cursor_index(nb[t], w as int);
            match now[j].content {
                CellContent::Mine => laying(before, now, mines, w as int, h as int, i, nb, t + 1, true),
                CellContent::Empty(n) => n < 8 && laying(
                    before,
                    now.update(
                        j,
                        Cell { visibility: now[j].visibility, content: CellContent::Empty((n + 1) as u8) },
                    ),
                    mines,
                    w as int,
                    h as int,
                    i,
                    nb,
                    t + 1,
                    true,
                ),
            }
        }),
{
    let wi = w as int;
    let hi = h as int;
    assert(wi > 0) by (nonlinear_arith)
        requires
            0 <= i < wi * hi,
            0 <= wi,
    ;
    lemma_cell_of_index(i, wi, hi);
    let c: Cursor = ((i % wi) as u16, (i / wi) as u16);
    lemma_neighbors_8(c, w, h);
    let p = nb[t];
    assert(nb.contains(p));
    lemma_index_of(p.0 as int, p.1 as int, wi, hi);
    let j0 = cursor_index(p, wi);
    assert(!seen(nb, t, j0, wi)) by {
        if seen(nb, t, j0, wi) {
            let s = choose|s: int| 0 <= s < t && cursor_index(#[trigger] nb[s], wi) == j0;
            assert(nb.contains(nb[s]));
            lemma_index_injective(nb[s].0 as int, nb[s].1 as int, p.0 as int, p.1 as int, wi);
            assert(nb[s] == nb[t]);
        }
    }
    assert(seen(nb, t + 1, j0, wi)) by {
        assert(cursor_index(nb[t], wi) == j0);
    }
    assert forall|j: int| j != j0 implies seen(nb, t + 1, j, wi) == seen(nb, t, j, wi) by {
        if seen(nb, t + 1, j, wi) {
            let s = choose|s: int| 0 <= s < t + 1 && cursor_index(#[trigger] nb[s], wi) == j;
            assert(s < t);
        }
        if seen(nb, t, j, wi) {
            let s = choose|s: int| 0 <= s < t && cursor_index(#[trigger] nb[s], wi) == j;
            assert(s < t + 1);
        }
    }
    lemma_laid_step(mines, j0 % wi, j0 / wi, wi, hi, i);
    lemma_laid_around_bounds(mines, j0 % wi, j0 / wi, wi, hi, i + 1);
    lemma_laid_around_bounds(mines, j0 % wi, j0 / wi, wi, hi, i);
    match now[j0].content {
        CellContent::Mine => {
            assert forall|j: int| 0 <= j < now.len()
                implies (#[trigger] now[j]).content == (if mines[j]
                && (j < i || j == i) {
                CellContent::Mine
            } else {
                CellContent::Empty(
                    (laid_around(mines, j % wi, j / wi, wi, hi, i) + (if seen(nb, t + 1, j, wi) {
                        1int
                    } else {
                        0int
                    })) as u8,
                )
            }) by {}
        },
        CellContent::Empty(n) => {
            let next = now.update(
                j0,
                Cell { visibility: now[j0].visibility, content: CellContent::Empty((n + 1) as u8) },
            );
            assert(n == laid_around(mines, j0 % wi, j0 / wi, wi, hi, i));
            assert forall|j: int| 0 <= j < next.len()
                implies (#[trigger] next[j]).content == (if mines[j]
                && (j < i || j == i) {
                CellContent::Mine
            } else {
                CellContent::Empty(
                    (laid_around(mines, j % wi, j / wi, wi, hi, i) + (if seen(nb, t + 1, j, wi) {
                        1int
                    } else {
                        0int
                    })) as u8,
                )
            }) by {
                if j != j0 {
                    assert(next[j] == now[j]);
                }
            }
            assert forall|j: int| 0 <= j < next.len() implies (#[trigger] next[j]).visibility
                == before[j].visibility by {
                if j != j0 {
                    assert(next[j] == now[j]);
                }
            }
        },
    }
}

/// Lays the mines that `mines` marks on a board that holds none: each
/// marked cell gets its mine, and each cell around it that holds no mine
/// counts one more.
pub fn place_mines(cells: &mut Vec<Cell>, mines: &Vec<bool>, w: u16, h: u16)
    requires
        old(cells).len() == w * h,
        mines.len() == old(cells).len(),
        forall|j: int|
            0 <= j < old(cells).len() ==> (#[trigger] old(cells)[j]).content
                == CellContent::Empty(0),
    ensures
        is_laid(old(cells)@, final(cells)@, mines@, w as int, h as int),
{
    let ghost before = cells@;
    let ghost wi = w as int;
    let ghost hi = h as int;
    let n = cells.len();
    let mut i: usize = 0;
    proof {
        assert forall|j: int| 0 <= j < cells.len() implies (#[trigger] cells@[j]).content
            == CellContent::Empty(laid_around(mines@, j % wi, j / wi, wi, hi, 0) as u8) by {}
    }
    while i < n
        invariant
            i <= n,
            n == cells.len(),
            n == w * h,
            mines.len() == n,
            wi == w,
            hi == h,
            laying(before, cells@, mines@, wi, hi, i as int, Seq::empty(), 0, false),
        decreases n - i,
    {
        if mines[i] {
            let mut mine = cells[i];
            mine.content = CellContent::Mine;
            cells[i] = mine;
            let mine_cursor = i_xy(i, w, h).unwrap();
            let nb = valid_neighbors(&DIRS_8, mine_cursor, w, h);
            let mut t: usize = 0;
            proof {
                assert forall|x: int| !seen(nb@, 0, x, wi) by {}
            }
            while t < nb.len()
                invariant
                    t <= nb.len(),
                    i < n,
                    n == cells.len(),
                    n == w * h,
                    mines.len() == n,
                    mines@[i as int],
                    wi == w,
                    hi == h,
                    mine_cursor == ((i as int % wi) as u16, (i as int / wi) as u16),
                    nb@ == neighbors_spec(DIRS_8@, mine_cursor, w, h),
                    laying(before, cells@, mines@, wi, hi, i as int, nb@, t as int, true),
                decreases nb.len() - t,
            {
                proof {
                    lemma_laying_count(before, cells@, mines@, w, h, i as int, nb@, t as int);
                }
                let neigh_idx = xy_i(nb[t], w, h).unwrap();
                let mut neigh = cells[neigh_idx];
                match neigh.content {
                    CellContent::Empty(k) => {
                        neigh.content = CellContent::Empty(k + 1);
                        cells[neigh_idx] = neigh;
                    },
                    CellContent::Mine => {},
                }
                t += 1;
            }
            proof {
                lemma_laying_next(before, cells@, mines@, w, h, i as int, nb@);
            }
        } else {
            proof {
                lemma_laying_next(before, cells@, mines@, w, h, i as int, Seq::empty());
            }
        }
        i += 1;
    }
}

/// A layout that marks exactly the members of a finite set has as many
/// marks as the set has members.
pub proof fn lemma_count_true(marks: Seq<bool>, picked: Set<usize>)
    requires
        picked.finite(),
        marks.len() <= usize::MAX,
        forall|i: usize| picked.contains(i) ==> i < marks.len(),
        forall|i: usize| i < marks.len() ==> #[trigger] marks[i as int] == picked.contains(i),
    ensures
        count_true(marks) == picked.len(),
    decreases marks.len(),
{
    if marks.len() == 0 {
        assert(picked =~= Set::empty());
    } else {
        let last = (marks.len() - 1) as usize;
        let front = marks.drop_last();
        let rest = picked.remove(last);
        assert forall|i: usize| i < front.len() implies #[trigger] front[i as int] == rest.contains(
            i,
        ) by {
            assert(marks[i as int] == picked.contains(i));
        }
        lemma_count_true(front, rest);
        assert(marks[last as int] == picked.contains(last));
    }
}

/// Whether `after` is `before` made ready for play from a first click at
/// `cursor`: every cell is seen as before, the board holds exactly the
/// mines that the arguments ask for, none of them on the clicked cell or
/// around it, and every cell without a mine holds the number of mines
/// that touch it.
pub open spec fn is_initialized(
    before: Seq<Cell>,
    after: Seq<Cell>,
    cursor: Cursor,
    args: MinesweeperArgs,
) -> bool {
    &&& after.len() == before.len()
    &&& forall|j: int|
        0 <= j < after.len() ==> (#[trigger] after[j]).visibility == before[j].visibility
    &&& mine_count(after) == args.mines
    &&& numbered(after, args.width as int, args.height as int)
    &&& safe_around(after, cursor, args.width as int, args.height as int)
}

/// No mine lies on the cell at `cursor` or on a cell that touches it.
pub open spec fn safe_around(cells: Seq<Cell>, cursor: Cursor, w: int, h: int) -> bool {
    forall|x: int, y: int|
        in_grid(x, y, w, h) && near(cursor.0 as int, cursor.1 as int, x, y) ==> !cells[#[trigger] index_of(
            x,
            y,
            w,
        )].is_mine()
}

/// Makes a fresh board ready for play after the first click: scatters the
/// mines at random, away from the clicked cell and the cells around it,
/// and numbers the cells that touch a mine.
pub fn initialize(cells: &mut Vec<Cell>, cursor: Cursor, args: MinesweeperArgs)
    requires
        args.valid(),
        old(cells).len() == args.size(),
        forall|j: int|
            0 <= j < old(cells).len() ==> (#[trigger] old(cells)[j]).content
                == CellContent::Empty(0),
    ensures
        is_initialized(old(cells)@, final(cells)@, cursor, args),
{
    let ghost before = cells@;
    let m = args.mines;
    let w = args.width;
    let h = args.height;
    let ghost wi = w as int;
    let ghost hi = h as int;
    proof {
        lemma_valid_size(args);
        lemma_neighbors_9(cursor, w, h);
    }
    let neighbors = valid_neighbors(&DIRS_9, cursor, w, h);
    let mut whitelist: Vec<usize> = Vec::new();
    let mut k: usize = 0;
    while k < neighbors.len()
        invariant
            k <= neighbors.len(),
            wi == w,
            hi == h,
            neighbors@ == neighbors_spec(DIRS_9@, cursor, w, h),
            whitelist.len() == k,
            forall|s: int| 0 <= s < k ==> #[trigger] whitelist[s] == cursor_index(neighbors[s], wi),
            forall|s: int| 0 <= s < k ==> #[trigger] whitelist[s] < wi * hi,
        decreases neighbors.len() - k,
    {
        proof {
            lemma_neighbors_9(cursor, w, h);
            assert(neighbors@.contains(neighbors[k as int]));
            lemma_index_of(neighbors[k as int].0 as int, neighbors[k as int].1 as int, wi, hi);
        }
        whitelist.push(xy_i(neighbors[k], w, h).unwrap());
        k += 1;
    }
    let ghost wl = whitelist@;
    proof {
        wl.lemma_cardinality_of_set();
    }
    let mines = fill_random(whitelist, w as usize * h as usize, m as usize, false, true);
    place_mines(cells, &mines, w, h);
    proof {
        let size = (wi * hi) as usize;
        let fills = m as usize;
        let safe = wl.to_set();
        let picked = choose|picked: Set<usize>| #[trigger]
            is_fill(mines@, picked, safe, size, fills, false, true);
        let after = cells@;
        assert(layout_of(after) =~= mines@);
        lemma_count_true(mines@, picked);
        assert forall|x: int, y: int|
            in_grid(x, y, wi, hi) && near(cursor.0 as int, cursor.1 as int, x, y) implies !after[#[trigger] index_of(
            x,
            y,
            wi,
        )].is_mine() by {
            let p: Cursor = (x as u16, y as u16);
            lemma_index_of(x, y, wi, hi);
            assert(neighbors@.contains(p));
            let s = choose|s: int| 0 <= s < neighbors.len() && neighbors[s] == p;
            assert(wl[s] == index_of(x, y, wi));
            assert(wl.to_set().contains(index_of(x, y, wi) as usize));
            assert(!picked.contains(index_of(x, y, wi) as usize));
            assert(mines@[index_of(x, y, wi) as usize as int] == false);
        }
        assert forall|i: int| 0 <= i < after.len()
            implies ((#[trigger] after[i]).content matches CellContent::Empty(
            n,
        ) ==> n == mines_around(after, i % wi, i / wi, wi, hi)) by {
            lemma_laid_around_bounds(mines@, i % wi, i / wi, wi, hi, mines@.len() as int);
        }
    }
}

} // verus!
