//! Counting cells with a given property over rectangles of the grid.
//!
//! The grid is modelled as a `Seq<Seq<Cell>>`, indexed first by column
//! (`x`), then by row (`y`).  `count_in_rect` counts the cells of the
//! rectangle `[x0, x1) x [y0, y1)` satisfying a `CellPred`; the lemmas
//! here relate such counts under single-cell updates, bound them by the
//! rectangle's area, and allow the counting arguments the field's
//! invariants and the win-condition law rest on.

use vstd::prelude::*;

use crate::cell::Cell;
use crate::cell::CellPred;

verus! {

/// The grid has `w` columns of `h` cells each.
pub open spec fn grid_shape(g: Seq<Seq<Cell>>, w: int, h: int) -> bool {
    &&& g.len() == w
    &&& forall|i: int| 0 <= i < w ==> (#[trigger] g[i]).len() == h
}

/// Number of cells `col[y]` with `y0 <= y < y1` satisfying `p`.
pub open spec fn count_in_col(col: Seq<Cell>, y0: int, y1: int, p: CellPred) -> int
    decreases y1 - y0,
{
    if y1 <= y0 {
        0
    } else {
        count_in_col(col, y0, y1 - 1, p) + p.ind(col[y1 - 1])
    }
}

/// Number of cells `g[x][y]` with `x0 <= x < x1`, `y0 <= y < y1`
/// satisfying `p`.
pub open spec fn count_in_rect(g: Seq<Seq<Cell>>, x0: int, x1: int, y0: int, y1: int, p: CellPred) -> int
    decreases x1 - x0,
{
    if x1 <= x0 {
        0
    } else {
        count_in_rect(g, x0, x1 - 1, y0, y1, p) + count_in_col(g[x1 - 1], y0, y1, p)
    }
}

/// A count over a column range lies between 0 and the range's length.
pub proof fn lemma_count_col_bounds(col: Seq<Cell>, y0: int, y1: int, p: CellPred)
    requires
        y0 <= y1,
    ensures
        0 <= count_in_col(col, y0, y1, p) <= y1 - y0,
    decreases y1 - y0,
{
    if y0 < y1 {
        lemma_count_col_bounds(col, y0, y1 - 1, p);
    }
}

/// A count over a rectangle lies between 0 and the rectangle's area.
pub proof fn lemma_count_rect_bounds(g: Seq<Seq<Cell>>, x0: int, x1: int, y0: int, y1: int, p: CellPred)
    requires
        x0 <= x1,
        y0 <= y1,
    ensures
        0 <= count_in_rect(g, x0, x1, y0, y1, p) <= (x1 - x0) * (y1 - y0),
    decreases x1 - x0,
{
    if x0 < x1 {
        lemma_count_rect_bounds(g, x0, x1 - 1, y0, y1, p);
        lemma_count_col_bounds(g[x1 - 1], y0, y1, p);
        assert((x1 - x0) * (y1 - y0) == (x1 - 1 - x0) * (y1 - y0) + (y1 - y0)) by (nonlinear_arith);
    }
}

/// Updating `col[j]` changes a column count by the difference of the
/// indicators of the new and old cell, when `j` lies in the range.
pub proof fn lemma_count_col_update(col: Seq<Cell>, j: int, c: Cell, y0: int, y1: int, p: CellPred)
    requires
        0 <= j < col.len(),
        0 <= y0,
        y1 <= col.len(),
    ensures
        count_in_col(col.update(j, c), y0, y1, p) == count_in_col(col, y0, y1, p) + if y0 <= j
            < y1 {
            p.ind(c) - p.ind(col[j])
        } else {
            0
        },
    decreases y1 - y0,
{
    if y0 < y1 {
        lemma_count_col_update(col, j, c, y0, y1 - 1, p);
    }
}

/// Updating the single cell `g[a][b]` changes a rectangle count by the
/// difference of the indicators, when `(a, b)` lies in the rectangle.
pub proof fn lemma_count_rect_update(
    g: Seq<Seq<Cell>>,
    w: int,
    h: int,
    a: int,
    b: int,
    c: Cell,
    x0: int,
    x1: int,
    y0: int,
    y1: int,
    p: CellPred,
)
    requires
        grid_shape(g, w, h),
        0 <= a < w,
        0 <= b < h,
        0 <= x0,
        x1 <= w,
        0 <= y0,
        y1 <= h,
    ensures
        count_in_rect(g.update(a, g[a].update(b, c)), x0, x1, y0, y1, p) == count_in_rect(
            g,
            x0,
            x1,
            y0,
            y1,
            p,
        ) + if x0 <= a < x1 && y0 <= b < y1 {
            p.ind(c) - p.ind(g[a][b])
        } else {
            0
        },
    decreases x1 - x0,
{
    let g2 = g.update(a, g[a].update(b, c));
    if x0 < x1 {
        lemma_count_rect_update(g, w, h, a, b, c, x0, x1 - 1, y0, y1, p);
        if a == x1 - 1 {
            lemma_count_col_update(g[a], b, c, y0, y1, p);
        } else {
            assert(g2[x1 - 1] == g[x1 - 1]);
        }
    }
}

/// A cell of the rectangle that satisfies `p` makes the count at least 1.
pub proof fn lemma_count_col_present(col: Seq<Cell>, b: int, y0: int, y1: int, p: CellPred)
    requires
        y0 <= b < y1,
        p.holds(col[b]),
    ensures
        count_in_col(col, y0, y1, p) >= 1,
    decreases y1 - y0,
{
    lemma_count_col_bounds(col, y0, b, p);
    if b < y1 - 1 {
        lemma_count_col_present(col, b, y0, y1 - 1, p);
    }
}

/// A cell of the rectangle that satisfies `p` makes the count at least 1.
pub proof fn lemma_count_rect_present(
    g: Seq<Seq<Cell>>,
    a: int,
    b: int,
    x0: int,
    x1: int,
    y0: int,
    y1: int,
    p: CellPred,
)
    requires
        x0 <= a < x1,
        y0 <= b < y1,
        p.holds(g[a][b]),
    ensures
        count_in_rect(g, x0, x1, y0, y1, p) >= 1,
    decreases x1 - x0,
{
    if a == x1 - 1 {
        lemma_count_rect_nonneg(g, x0, x1 - 1, y0, y1, p);
        lemma_count_col_present(g[a], b, y0, y1, p);
    } else {
        lemma_count_rect_present(g, a, b, x0, x1 - 1, y0, y1, p);
        lemma_count_col_bounds(g[x1 - 1], y0, y1, p);
    }
}

/// A count over a rectangle is never negative, with no shape hypothesis.
pub proof fn lemma_count_rect_nonneg(g: Seq<Seq<Cell>>, x0: int, x1: int, y0: int, y1: int, p: CellPred)
    ensures
        count_in_rect(g, x0, x1, y0, y1, p) >= 0,
    decreases x1 - x0,
{
    if x0 < x1 {
        lemma_count_rect_nonneg(g, x0, x1 - 1, y0, y1, p);
        if y0 <= y1 {
            lemma_count_col_bounds(g[x1 - 1], y0, y1, p);
        }
    }
}

/// A cell of the rectangle that fails `p` keeps the count below the area.
pub proof fn lemma_count_col_missing(col: Seq<Cell>, b: int, y0: int, y1: int, p: CellPred)
    requires
        y0 <= b < y1,
        !p.holds(col[b]),
    ensures
        count_in_col(col, y0, y1, p) <= y1 - y0 - 1,
    decreases y1 - y0,
{
    if b == y1 - 1 {
        lemma_count_col_bounds(col, y0, y1 - 1, p);
    } else {
        lemma_count_col_missing(col, b, y0, y1 - 1, p);
    }
}

/// A cell of the rectangle that fails `p` keeps the count below the area.
pub proof fn lemma_count_rect_missing(
    g: Seq<Seq<Cell>>,
    a: int,
    b: int,
    x0: int,
    x1: int,
    y0: int,
    y1: int,
    p: CellPred,
)
    requires
        x0 <= a < x1,
        y0 <= b < y1,
        !p.holds(g[a][b]),
    ensures
        count_in_rect(g, x0, x1, y0, y1, p) <= (x1 - x0) * (y1 - y0) - 1,
    decreases x1 - x0,
{
    if a == x1 - 1 {
        lemma_count_rect_bounds(g, x0, x1 - 1, y0, y1, p);
        lemma_count_col_missing(g[a], b, y0, y1, p);
        assert((x1 - x0) * (y1 - y0) == (x1 - 1 - x0) * (y1 - y0) + (y1 - y0)) by (nonlinear_arith);
    } else {
        lemma_count_rect_missing(g, a, b, x0, x1 - 1, y0, y1, p);
        lemma_count_col_bounds(g[x1 - 1], y0, y1, p);
        assert((x1 - x0) * (y1 - y0) == (x1 - 1 - x0) * (y1 - y0) + (y1 - y0)) by (nonlinear_arith);
    }
}

/// A rectangle none of whose cells satisfies `p` counts to zero.
pub proof fn lemma_count_col_zero(col: Seq<Cell>, y0: int, y1: int, p: CellPred)
    requires
        forall|y: int| y0 <= y < y1 ==> !p.holds(#[trigger] col[y]),
    ensures
        count_in_col(col, y0, y1, p) == 0,
    decreases y1 - y0,
{
    if y0 < y1 {
        lemma_count_col_zero(col, y0, y1 - 1, p);
    }
}

/// A rectangle none of whose cells satisfies `p` counts to zero.
pub proof fn lemma_count_rect_zero(g: Seq<Seq<Cell>>, x0: int, x1: int, y0: int, y1: int, p: CellPred)
    requires
        forall|x: int, y: int| x0 <= x < x1 && y0 <= y < y1 ==> !p.holds(#[trigger] g[x][y]),
    ensures
        count_in_rect(g, x0, x1, y0, y1, p) == 0,
    decreases x1 - x0,
{
    if x0 < x1 {
        lemma_count_rect_zero(g, x0, x1 - 1, y0, y1, p);
        lemma_count_col_zero(g[x1 - 1], y0, y1, p);
    }
}

/// Counts of two properties, one of which everywhere implies the other,
/// are ordered.
pub proof fn lemma_count_col_subset(col: Seq<Cell>, y0: int, y1: int, p: CellPred, q: CellPred)
    requires
        forall|y: int| y0 <= y < y1 ==> p.holds(#[trigger] col[y]) ==> q.holds(col[y]),
    ensures
        count_in_col(col, y0, y1, p) <= count_in_col(col, y0, y1, q),
    decreases y1 - y0,
{
    if y0 < y1 {
        lemma_count_col_subset(col, y0, y1 - 1, p, q);
    }
}

/// Counts of two properties, one of which everywhere implies the other,
/// are ordered.
pub proof fn lemma_count_rect_subset(
    g: Seq<Seq<Cell>>,
    x0: int,
    x1: int,
    y0: int,
    y1: int,
    p: CellPred,
    q: CellPred,
)
    requires
        forall|x: int, y: int|
            x0 <= x < x1 && y0 <= y < y1 ==> p.holds(#[trigger] g[x][y]) ==> q.holds(g[x][y]),
    ensures
        count_in_rect(g, x0, x1, y0, y1, p) <= count_in_rect(g, x0, x1, y0, y1, q),
    decreases x1 - x0,
{
    if x0 < x1 {
        lemma_count_rect_subset(g, x0, x1 - 1, y0, y1, p, q);
        lemma_count_col_subset(g[x1 - 1], y0, y1, p, q);
    }
}

/// If `p` everywhere implies `q` and the two counts agree, the properties
/// agree on every cell of the rectangle.
pub proof fn lemma_count_col_subset_eq(col: Seq<Cell>, y0: int, y1: int, p: CellPred, q: CellPred)
    requires
        forall|y: int| y0 <= y < y1 ==> p.holds(#[trigger] col[y]) ==> q.holds(col[y]),
        count_in_col(col, y0, y1, p) == count_in_col(col, y0, y1, q),
    ensures
        forall|y: int| y0 <= y < y1 ==> q.holds(#[trigger] col[y]) ==> p.holds(col[y]),
    decreases y1 - y0,
{
    if y0 < y1 {
        lemma_count_col_subset(col, y0, y1 - 1, p, q);
        lemma_count_col_subset_eq(col, y0, y1 - 1, p, q);
    }
}

/// If `p` everywhere implies `q` and the two counts agree, the properties
/// agree on every cell of the rectangle.
pub proof fn lemma_count_rect_subset_eq(
    g: Seq<Seq<Cell>>,
    x0: int,
    x1: int,
    y0: int,
    y1: int,
    p: CellPred,
    q: CellPred,
)
    requires
        forall|x: int, y: int|
            x0 <= x < x1 && y0 <= y < y1 ==> p.holds(#[trigger] g[x][y]) ==> q.holds(g[x][y]),
        count_in_rect(g, x0, x1, y0, y1, p) == count_in_rect(g, x0, x1, y0, y1, q),
    ensures
        forall|x: int, y: int|
            x0 <= x < x1 && y0 <= y < y1 ==> q.holds(#[trigger] g[x][y]) ==> p.holds(g[x][y]),
    decreases x1 - x0,
{
    if x0 < x1 {
        lemma_count_rect_subset(g, x0, x1 - 1, y0, y1, p, q);
        lemma_count_col_subset(g[x1 - 1], y0, y1, p, q);
        lemma_count_rect_subset_eq(g, x0, x1 - 1, y0, y1, p, q);
        lemma_count_col_subset_eq(g[x1 - 1], y0, y1, p, q);
    }
}

/// Mines and non-mines together fill a column range.
pub proof fn lemma_count_col_mine_pair(col: Seq<Cell>, y0: int, y1: int)
    requires
        y0 <= y1,
    ensures
        count_in_col(col, y0, y1, CellPred::Mine) + count_in_col(col, y0, y1, CellPred::NotMine)
            == y1 - y0,
    decreases y1 - y0,
{
    if y0 < y1 {
        lemma_count_col_mine_pair(col, y0, y1 - 1);
    }
}

/// Mines and non-mines together fill a rectangle.
pub proof fn lemma_count_rect_mine_pair(g: Seq<Seq<Cell>>, x0: int, x1: int, y0: int, y1: int)
    requires
        x0 <= x1,
        y0 <= y1,
    ensures
        count_in_rect(g, x0, x1, y0, y1, CellPred::Mine) + count_in_rect(
            g,
            x0,
            x1,
            y0,
            y1,
            CellPred::NotMine,
        ) == (x1 - x0) * (y1 - y0),
    decreases x1 - x0,
{
    if x0 < x1 {
        lemma_count_rect_mine_pair(g, x0, x1 - 1, y0, y1);
        lemma_count_col_mine_pair(g[x1 - 1], y0, y1);
        assert(count_in_rect(g, x0, x1, y0, y1, CellPred::Mine) == count_in_rect(
            g,
            x0,
            x1 - 1,
            y0,
            y1,
            CellPred::Mine,
        ) + count_in_col(g[x1 - 1], y0, y1, CellPred::Mine));
        assert(count_in_rect(g, x0, x1, y0, y1, CellPred::NotMine) == count_in_rect(
            g,
            x0,
            x1 - 1,
            y0,
            y1,
            CellPred::NotMine,
        ) + count_in_col(g[x1 - 1], y0, y1, CellPred::NotMine));
        assert((x1 - x0) * (y1 - y0) == (x1 - 1 - x0) * (y1 - y0) + (y1 - y0)) by (nonlinear_arith);
    } else {
        assert(x0 == x1);
        assert(count_in_rect(g, x0, x1, y0, y1, CellPred::Mine) == 0);
        assert(count_in_rect(g, x0, x1, y0, y1, CellPred::NotMine) == 0);
        assert((x1 - x0) * (y1 - y0) == 0) by (nonlinear_arith)
            requires
                x1 == x0,
        ;
    }
}

} // verus!
