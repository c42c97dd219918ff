//! The geometry of the grid: cursors, indices and neighbours.
use vstd::prelude::*;
use vstd::arithmetic::div_mod::{lemma_fundamental_div_mod_converse, lemma_fundamental_div_mod};
use vstd::arithmetic::mul::{lemma_mul_inequality, lemma_mul_is_commutative};

verus! {

/// A grid coordinate `(x, y)`.
pub type Cursor = (u16, u16);

/// The eight directions around a cell.
pub const DIRS_8: [(i8, i8); 8] = [
    (1, 0),
    (1, 1),
    (0, 1),
    (-1, 1),
    (-1, 0),
    (-1, -1),
    (0, -1),
    (1, -1),
];

/// The cell itself and the eight directions around it.
pub const DIRS_9: [(i8, i8); 9] = [
    (0, 0),
    (1, 0),
    (1, 1),
    (0, 1),
    (-1, 1),
    (-1, 0),
    (-1, -1),
    (0, -1),
    (1, -1),
];

/// The direction of a one-step change.
#[derive(Copy, Clone, Debug, PartialEq, Eq, Structural)]
pub enum Sign {
    Negative,
    Positive,
}

impl Sign {
    /// `-1` or `1`.
    pub open spec fn value_spec(self) -> int {
        match self {
            Sign::Negative => -1,
            Sign::Positive => 1,
        }
    }

    pub fn value(self) -> (r: i32)
        ensures
            r == self.value_spec(),
    {
        match self {
            Sign::Negative => -1,
            Sign::Positive => 1,
        }
    }
}

/// Whether `(x, y)` lies on a grid of `w` columns and `h` rows.
pub open spec fn in_grid(x: int, y: int, w: int, h: int) -> bool {
    0 <= x < w && 0 <= y < h
}

/// The row-major index of `(x, y)` on a grid of `w` columns.
pub open spec fn index_of(x: int, y: int, w: int) -> int {
    y * w + x
}

/// On a grid, the index of a cell is below the number of cells, and it
/// gives back the cell's column and row.
pub proof fn lemma_index_of(x: int, y: int, w: int, h: int)
    requires
        in_grid(x, y, w, h),
    ensures
        0 <= index_of(x, y, w) < w * h,
        index_of(x, y, w) % w == x,
        index_of(x, y, w) / w == y,
{
    assert(y * w <= (h - 1) * w) by {
        lemma_mul_inequality(y, h - 1, w);
    }
    assert((h - 1) * w == h * w - w) by (nonlinear_arith);
    assert(h * w == w * h) by (nonlinear_arith);
    assert(0 <= y * w) by (nonlinear_arith)
        requires
            0 <= y,
            0 < w,
    ;
    lemma_mul_is_commutative(y, w);
    lemma_fundamental_div_mod_converse(index_of(x, y, w), w, y, x);
}

/// Every index below the number of cells is the index of one cell of the grid.
pub proof fn lemma_cell_of_index(i: int, w: int, h: int)
    requires
        0 <= i < w * h,
        0 < w,
    ensures
        in_grid(i % w, i / w, w, h),
        index_of(i % w, i / w, w) == i,
{
    lemma_fundamental_div_mod(i, w);
    lemma_mul_is_commutative(i / w, w);
    assert(0 <= i % w < w);
    assert(0 <= i / w) by (nonlinear_arith)
        requires
            0 <= i,
            0 < w,
    ;
    assert(i / w < h) by (nonlinear_arith)
        requires
            i == w * (i / w) + i % w,
            0 <= i % w,
            i < w * h,
            0 < w,
    ;
}

/// Two cells of a grid with the same index are the same cell.
pub proof fn lemma_index_injective(x1: int, y1: int, x2: int, y2: int, w: int)
    requires
        0 <= x1 < w,
        0 <= x2 < w,
        index_of(x1, y1, w) == index_of(x2, y2, w),
    ensures
        x1 == x2,
        y1 == y2,
{
    assert(y1 == y2) by (nonlinear_arith)
        requires
            0 <= x1 < w,
            0 <= x2 < w,
            y1 * w + x1 == y2 * w + x2,
    ;
}

/// What `xy_i` returns.
pub open spec fn xy_i_spec(c: Cursor, w: u16, h: u16) -> Option<usize> {
    if in_grid(c.0 as int, c.1 as int, w as int, h as int) {
        Some(index_of(c.0 as int, c.1 as int, w as int) as usize)
    } else {
        None
    }
}

/// The row-major index of a cursor, if the cursor lies on the grid.
pub fn xy_i(c: Cursor, w: u16, h: u16) -> (r: Option<usize>)
    ensures
        r == xy_i_spec(c, w, h),
        r matches Some(i) ==> i == index_of(c.0 as int, c.1 as int, w as int) && i < w * h,
{
    let (x, y) = c;
    if w <= x || h <= y {
        None
    } else {
        proof {
            lemma_index_of(x as int, y as int, w as int, h as int);
            assert(w * h <= 0xffff * 0xffff) by (nonlinear_arith)
                requires
                    0 <= w <= 0xffff,
                    0 <= h <= 0xffff,
            ;
            assert(0 <= y * w) by (nonlinear_arith)
                requires
                    0 <= y,
                    0 <= w,
            ;
        }
        Some(y as usize * w as usize + x as usize)
    }
}

/// What `i_xy` returns.
pub open spec fn i_xy_spec(index: usize, w: u16, h: u16) -> Option<Cursor> {
    if index < w * h {
        Some(((index as int % w as int) as u16, (index as int / w as int) as u16))
    } else {
        None
    }
}

/// The cursor of a row-major index, if the index is below the number of cells.
pub fn i_xy(index: usize, w: u16, h: u16) -> (r: Option<Cursor>)
    ensures
        r == i_xy_spec(index, w, h),
        r matches Some(c) ==> xy_i_spec(c, w, h) == Some(index),
{
    let ws = w as usize;
    let hs = h as usize;
    proof {
        assert(0 <= w * h <= 0xffff * 0xffff) by (nonlinear_arith)
            requires
                0 <= w <= 0xffff,
                0 <= h <= 0xffff,
        ;
    }
    if index >= ws * hs {
        None
    } else {
        proof {
            assert(w > 0) by (nonlinear_arith)
                requires
                    index < w * h,
                    0 <= w,
                    0 <= index,
            ;
            lemma_cell_of_index(index as int, w as int, h as int);
        }
        Some(((index % ws) as u16, (index / ws) as u16))
    }
}

/// The cell one step from `c` in direction `d`, as unbounded coordinates.
pub open spec fn step(c: Cursor, d: (i8, i8)) -> (int, int) {
    (c.0 + d.0, c.1 + d.1)
}

/// Whether the step from `c` in direction `d` stays on the grid.
pub open spec fn step_in_grid(c: Cursor, d: (i8, i8), w: u16, h: u16) -> bool {
    in_grid(c.0 + d.0, c.1 + d.1, w as int, h as int)
}

/// The cells reached from `c` by the directions `dirs`, in the order of
/// `dirs`, without those that fall off the grid.
pub open spec fn neighbors_spec(dirs: Seq<(i8, i8)>, c: Cursor, w: u16, h: u16) -> Seq<Cursor>
    decreases dirs.len(),
{
    if dirs.len() == 0 {
        Seq::empty()
    } else {
        let rest = neighbors_spec(dirs.drop_last(), c, w, h);
        let d = dirs.last();
        if step_in_grid(c, d, w, h) {
            rest.push(((c.0 + d.0) as u16, (c.1 + d.1) as u16))
        } else {
            rest
        }
    }
}

/// The neighbours of a cursor that lie on the grid: for each direction in
/// turn the cell one step away, unless that step leaves the grid. The
/// cursor itself need not lie on the grid.
pub fn valid_neighbors(dirs: &[(i8, i8)], c: Cursor, w: u16, h: u16) -> (r: Vec<Cursor>)
    ensures
        r@ == neighbors_spec(dirs@, c, w, h),
{
    let mut out: Vec<Cursor> = Vec::new();
    let mut k: usize = 0;
    while k < dirs.len()
        invariant
            k <= dirs.len(),
            out@ == neighbors_spec(dirs@.subrange(0, k as int), c, w, h),
        decreases dirs.len() - k,
    {
        let (dx, dy) = dirs[k];
        let nx: i32 = c.0 as i32 + dx as i32;
        let ny: i32 = c.1 as i32 + dy as i32;
        proof {
            assert(dirs@.subrange(0, k + 1).drop_last() == dirs@.subrange(0, k as int));
        }
        if 0 <= nx && nx < w as i32 && 0 <= ny && ny < h as i32 {
            out.push((nx as u16, ny as u16));
        }
        k += 1;
    }
    proof {
        assert(dirs@.subrange(0, k as int) == dirs@);
    }
    out
}

/// Whether two cells touch: they differ, by at most one column and one row.
pub open spec fn adjacent(ax: int, ay: int, bx: int, by: int) -> bool {
    &&& (ax, ay) != (bx, by)
    &&& -1 <= ax - bx <= 1
    &&& -1 <= ay - by <= 1
}

/// Whether `p` is `c` or touches it.
pub open spec fn near(ax: int, ay: int, bx: int, by: int) -> bool {
    &&& -1 <= ax - bx <= 1
    &&& -1 <= ay - by <= 1
}

/// The eight directions give each cell of the grid that touches `c`
/// exactly once, and nothing else.
pub proof fn lemma_neighbors_8(c: Cursor, w: u16, h: u16)
    ensures
        neighbors_spec(DIRS_8@, c, w, h).no_duplicates(),
        neighbors_spec(DIRS_8@, c, w, h).len() <= 8,
        forall|p: Cursor| #[trigger]
            neighbors_spec(DIRS_8@, c, w, h).contains(p) <==> in_grid(
                p.0 as int,
                p.1 as int,
                w as int,
                h as int,
            ) && adjacent(c.0 as int, c.1 as int, p.0 as int, p.1 as int),
{
    let d = DIRS_8@;
    let d7 = d.drop_last();
    let d6 = d7.drop_last();
    let d5 = d6.drop_last();
    let d4 = d5.drop_last();
    let d3 = d4.drop_last();
    let d2 = d3.drop_last();
    let d1 = d2.drop_last();
    let d0 = d1.drop_last();
    let n0 = neighbors_spec(d0, c, w, h);
    let n1 = neighbors_spec(d1, c, w, h);
    let n2 = neighbors_spec(d2, c, w, h);
    let n3 = neighbors_spec(d3, c, w, h);
    let n4 = neighbors_spec(d4, c, w, h);
    let n5 = neighbors_spec(d5, c, w, h);
    let n6 = neighbors_spec(d6, c, w, h);
    let n7 = neighbors_spec(d7, c, w, h);
    let n8 = neighbors_spec(d, c, w, h);
    assert(d.len() == 8);
    assert(d[0] == (1i8, 0i8) && d[1] == (1i8, 1i8) && d[2] == (0i8, 1i8) && d[3] == (-1i8, 1i8));
    assert(d[4] == (-1i8, 0i8) && d[5] == (-1i8, -1i8) && d[6] == (0i8, -1i8) && d[7] == (1i8, -1i8));
    assert(n0.len() == 0);
    assert(d1.last() == d[0] && d2.last() == d[1] && d3.last() == d[2] && d4.last() == d[3]);
    assert(d5.last() == d[4] && d6.last() == d[5] && d7.last() == d[6] && d.last() == d[7]);
    reveal_with_fuel(neighbors_spec, 2);
    lemma_pushed(n0, n1, c, d[0], w, h);
    lemma_pushed(n1, n2, c, d[1], w, h);
    lemma_pushed(n2, n3, c, d[2], w, h);
    lemma_pushed(n3, n4, c, d[3], w, h);
    lemma_pushed(n4, n5, c, d[4], w, h);
    lemma_pushed(n5, n6, c, d[5], w, h);
    lemma_pushed(n6, n7, c, d[6], w, h);
    lemma_pushed(n7, n8, c, d[7], w, h);
    assert forall|p: Cursor| #[trigger]
        n8.contains(p) <==> in_grid(p.0 as int, p.1 as int, w as int, h as int) && adjacent(
            c.0 as int,
            c.1 as int,
            p.0 as int,
            p.1 as int,
        ) by {
        assert(!n0.contains(p));
    }
}

/// Whether `p` is the cell one step from `c` in direction `d`, on the grid.
pub open spec fn is_step(c: Cursor, d: (i8, i8), p: Cursor, w: u16, h: u16) -> bool {
    step_in_grid(c, d, w, h) && p.0 == c.0 + d.0 && p.1 == c.1 + d.1
}

proof fn lemma_pushed(a: Seq<Cursor>, b: Seq<Cursor>, c: Cursor, d: (i8, i8), w: u16, h: u16)
    requires
        b == (if step_in_grid(c, d, w, h) {
            a.push(((c.0 + d.0) as u16, (c.1 + d.1) as u16))
        } else {
            a
        }),
    ensures
        forall|p: Cursor| #[trigger] b.contains(p) <==> a.contains(p) || is_step(c, d, p, w, h),
        b.len() <= a.len() + 1,
        a.no_duplicates() && (forall|p: Cursor| is_step(c, d, p, w, h) ==> !a.contains(p))
            ==> b.no_duplicates(),
{
    if step_in_grid(c, d, w, h) {
        let q: Cursor = ((c.0 + d.0) as u16, (c.1 + d.1) as u16);
        assert(b[a.len() as int] == q);
        assert forall|p: Cursor| #[trigger] b.contains(p) <==> a.contains(p) || is_step(
            c,
            d,
            p,
            w,
            h,
        ) by {
            if a.contains(p) {
                let k = choose|k: int| 0 <= k < a.len() && a[k] == p;
                assert(b[k] == p);
            }
            if is_step(c, d, p, w, h) {
                assert(p == q);
            }
        }
        if a.no_duplicates() && (forall|p: Cursor| is_step(c, d, p, w, h) ==> !a.contains(p)) {
            assert(is_step(c, d, q, w, h));
            assert(!a.contains(q));
        }
    }
}

/// The nine directions give each cell of the grid that is `c` or touches
/// it exactly once, and nothing else.
pub proof fn lemma_neighbors_9(c: Cursor, w: u16, h: u16)
    ensures
        neighbors_spec(DIRS_9@, c, w, h).no_duplicates(),
        neighbors_spec(DIRS_9@, c, w, h).len() <= 9,
        forall|p: Cursor| #[trigger]
            neighbors_spec(DIRS_9@, c, w, h).contains(p) <==> in_grid(
                p.0 as int,
                p.1 as int,
                w as int,
                h as int,
            ) && near(c.0 as int, c.1 as int, p.0 as int, p.1 as int),
{
    let d = DIRS_9@;
    let d8 = d.drop_last();
    let d7 = d8.drop_last();
    let d6 = d7.drop_last();
    let d5 = d6.drop_last();
    let d4 = d5.drop_last();
    let d3 = d4.drop_last();
    let d2 = d3.drop_last();
    let d1 = d2.drop_last();
    let d0 = d1.drop_last();
    let n0 = neighbors_spec(d0, c, w, h);
    let n1 = neighbors_spec(d1, c, w, h);
    let n2 = neighbors_spec(d2, c, w, h);
    let n3 = neighbors_spec(d3, c, w, h);
    let n4 = neighbors_spec(d4, c, w, h);
    let n5 = neighbors_spec(d5, c, w, h);
    let n6 = neighbors_spec(d6, c, w, h);
    let n7 = neighbors_spec(d7, c, w, h);
    let n8 = neighbors_spec(d8, c, w, h);
    let n9 = neighbors_spec(d, c, w, h);
    assert(d.len() == 9);
    assert(d[0] == (0i8, 0i8));
    assert(d[1] == (1i8, 0i8) && d[2] == (1i8, 1i8) && d[3] == (0i8, 1i8) && d[4] == (-1i8, 1i8));
    assert(d[5] == (-1i8, 0i8) && d[6] == (-1i8, -1i8) && d[7] == (0i8, -1i8) && d[8] == (1i8, -1i8));
    assert(n0.len() == 0);
    assert(d1.last() == d[0] && d2.last() == d[1] && d3.last() == d[2] && d4.last() == d[3]);
    assert(d5.last() == d[4] && d6.last() == d[5] && d7.last() == d[6] && d8.last() == d[7]);
    assert(d.last() == d[8]);
    reveal_with_fuel(neighbors_spec, 2);
    lemma_pushed(n0, n1, c, d[0], w, h);
    lemma_pushed(n1, n2, c, d[1], w, h);
    lemma_pushed(n2, n3, c, d[2], w, h);
    lemma_pushed(n3, n4, c, d[3], w, h);
    lemma_pushed(n4, n5, c, d[4], w, h);
    lemma_pushed(n5, n6, c, d[5], w, h);
    lemma_pushed(n6, n7, c, d[6], w, h);
    lemma_pushed(n7, n8, c, d[7], w, h);
    lemma_pushed(n8, n9, c, d[8], w, h);
    assert forall|p: Cursor| #[trigger]
        n9.contains(p) <==> in_grid(p.0 as int, p.1 as int, w as int, h as int) && near(
            c.0 as int,
            c.1 as int,
            p.0 as int,
            p.1 as int,
        ) by {
        assert(!n0.contains(p));
    }
}

} // verus!
