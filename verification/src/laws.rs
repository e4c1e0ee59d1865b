//! The laws of the engine: properties that hold of every well-formed
//! field, proved once and for all from the operations' contracts and
//! the field invariant.

use vstd::prelude::*;

use crate::cell::Cell;
use crate::cell::CellPred;
use crate::counting::count_in_rect;
use crate::counting::lemma_count_rect_bounds;
use crate::counting::lemma_count_rect_mine_pair;
use crate::counting::lemma_count_rect_subset;
use crate::counting::lemma_count_rect_subset_eq;
use crate::field::adjacent;
use crate::field::flag_count_toggle;
use crate::field::flag_toggle;
use crate::field::mines_near;
use crate::field::neighbors_opened;
use crate::field::opens_from;
use crate::field::Field;
pub use crate::field::lemma_flood_fill_avoids_mines;
pub use crate::field::lemma_zero_neighbor_no_mine;

verus! {

/// The open and flag counters never exceed the number of cells: for
/// every well-formed field, `0 <= opened <= width * height` and
/// `0 <= flags <= width * height`.
pub proof fn lemma_counters_bounded(f: Field)
    requires
        f.wf(),
    ensures
        0 <= f.opened as int <= f.w() * f.h(),
        0 <= f.flags as int <= f.w() * f.h(),
{
    lemma_count_rect_bounds(f.grid(), 0, f.w(), 0, f.h(), CellPred::Open);
    lemma_count_rect_bounds(f.grid(), 0, f.w(), 0, f.h(), CellPred::Flagged);
    lemma_count_rect_bounds(f.grid(), 0, f.w(), 0, f.h(), CellPred::FlaggedOrOpen);
}

/// Once mines have been generated, every cell's stored adjacency count
/// equals the exact number of mines in its clamped 3x3 neighbourhood
/// (the cell itself included, as the engine always counted).
pub proof fn lemma_adjacency_exact(f: Field, x: int, y: int)
    requires
        f.wf(),
        f.generated,
        0 <= x < f.w(),
        0 <= y < f.h(),
    ensures
        f.at(x, y).bombs == mines_near(f.grid(), f.w(), f.h(), x, y),
{
    assert(f.grid()[x][y] == f.at(x, y));
}

/// Toggling the flag of the same cell twice returns the grid and the
/// flag counter to exactly where they were; in particular a flag set
/// and cleared on a closed cell leaves the cell unflagged.
pub proof fn lemma_flag_roundtrip(g: Seq<Seq<Cell>>, flags: int, x: int, y: int)
    requires
        0 <= x < g.len(),
        0 <= y < g[x].len(),
    ensures
        flag_toggle(flag_toggle(g, x, y), x, y) == g,
        flag_count_toggle(flag_toggle(g, x, y), flag_count_toggle(g, flags, x, y), x, y) == flags,
{
    if g[x][y].opened {
    } else {
        let c1 = Cell { flag: !g[x][y].flag, ..g[x][y] };
        let g1 = g.update(x, g[x].update(y, c1));
        assert(g1[x][y] == c1);
        let c2 = Cell { flag: !g1[x][y].flag, ..g1[x][y] };
        let g2 = g1.update(x, g1[x].update(y, c2));
        assert(c2 == g[x][y]);
        assert forall|a: int| 0 <= a < g.len() implies g2[a] =~= g[a] by {
            if a == x {
                assert forall|b: int| 0 <= b < g[x].len() implies g2[a][b] == g[a][b] by {}
            }
        }
        assert(g2 =~~= g);
    }
}

/// One step of the flood: from the reached zero-count cell `(a, b)` —
/// the root, or a cell that was closed and unflagged — to its closed,
/// unflagged neighbour `(i, j)`.
pub open spec fn flood_step(o: Field, x: int, y: int, a: int, b: int, i: int, j: int) -> bool {
    &&& 0 <= a < o.w()
    &&& 0 <= b < o.h()
    &&& 0 <= i < o.w()
    &&& 0 <= j < o.h()
    &&& adjacent(a, b, i, j)
    &&& o.at(a, b).bombs == 0
    &&& ((a == x && b == y) || (!o.at(a, b).opened && !o.at(a, b).flag))
    &&& !o.at(i, j).opened
    &&& !o.at(i, j).flag
}

/// A flood path: it starts at the root `(x, y)` and each later cell is
/// one `flood_step` beyond the one before it.  The cells such paths can
/// reach — the 8-connected region of closed unflagged zero-count cells
/// around the root, with its closed unflagged fringe — are exactly the
/// cells the flood opens.
pub open spec fn is_flood_path(o: Field, x: int, y: int, p: Seq<(int, int)>) -> bool {
    &&& p.len() >= 1
    &&& p[0] == (x, y)
    &&& forall|k: int|
        0 < k < p.len() ==> flood_step(
            o,
            x,
            y,
            p[k - 1].0,
            p[k - 1].1,
            (#[trigger] p[k]).0,
            p[k].1,
        )
}

/// A reveal of a closed zero-count cell opens its whole flood region:
/// every cell on every flood path is open afterwards.  Together with
/// the boundedness half of `opens_from` — a newly opened cell was
/// unflagged and neighbours an open zero-count cell — this pins the
/// reveal's effect to the connected empty region and its fringe.  The
/// two quantified hypotheses are clauses of `open`'s contract.
#[verifier::rlimit(100)]
pub proof fn lemma_flood_region_opened(
    o: Field,
    s: Field,
    x: int,
    y: int,
    p: Seq<(int, int)>,
    k: int,
)
    requires
        o.wf(),
        o.generated,
        0 <= x < o.w(),
        0 <= y < o.h(),
        !o.at(x, y).opened,
        o.at(x, y).bombs == 0,
        opens_from(o, s, x, y),
        s.at(x, y).opened,
        forall|a: int, b: int|
            0 <= a < o.w() && 0 <= b < o.h() && (#[trigger] s.at(a, b)).opened && !o.at(
                a,
                b,
            ).opened && s.at(a, b).bombs == 0 ==> neighbors_opened(o, s, a, b),
        is_flood_path(o, x, y, p),
        0 <= k < p.len(),
    ensures
        s.at(p[k].0, p[k].1).opened,
    decreases k,
{
    if k == 0 {
        assert(p[0] == (x, y));
    } else {
        lemma_flood_region_opened(o, s, x, y, p, k - 1);
        let prev = p[k - 1];
        let tip = p[k];
        assert(flood_step(o, x, y, prev.0, prev.1, tip.0, tip.1));
        assert(s.at(prev.0, prev.1).opened);
        assert(s.at(prev.0, prev.1).bombs == o.at(prev.0, prev.1).bombs);
        assert(neighbors_opened(o, s, prev.0, prev.1));
        assert(s.at(tip.0, tip.1).opened);
    }
}

/// The win condition is exact.  In a well-formed generated field whose
/// full mine target was placed and in which no mine has been opened,
/// `opened == width * height - mine_count` holds exactly when every
/// non-mine cell is open.
pub proof fn lemma_win_condition(f: Field)
    requires
        f.wf(),
        f.generated,
        f.placed == f.bombs,
        forall|i: int, j: int|
            0 <= i < f.w() && 0 <= j < f.h() ==> ((#[trigger] f.at(i, j)).opened ==> !f.at(
                i,
                j,
            ).bomb),
    ensures
        (f.opened as int == f.w() * f.h() - f.bombs as int) <==> (forall|i: int, j: int|
            0 <= i < f.w() && 0 <= j < f.h() ==> (!(#[trigger] f.at(i, j)).bomb ==> f.at(
                i,
                j,
            ).opened)),
{
    let g = f.grid();
    let w = f.w();
    let h = f.h();
    lemma_count_rect_mine_pair(g, 0, w, 0, h);
    assert(count_in_rect(g, 0, w, 0, h, CellPred::NotMine) == w * h - f.bombs as int);
    assert forall|i: int, j: int|
        0 <= i < w && 0 <= j < h && CellPred::Open.holds(#[trigger] g[i][j])
        implies CellPred::NotMine.holds(g[i][j]) by {
        assert(f.at(i, j) == g[i][j]);
    }
    if f.opened as int == w * h - f.bombs as int {
        lemma_count_rect_subset_eq(g, 0, w, 0, h, CellPred::Open, CellPred::NotMine);
        assert forall|i: int, j: int|
            0 <= i < w && 0 <= j < h && !(#[trigger] f.at(i, j)).bomb implies f.at(
            i,
            j,
        ).opened by {
            assert(f.at(i, j) == g[i][j]);
        }
    }
    if forall|i: int, j: int|
        0 <= i < w && 0 <= j < h ==> (!(#[trigger] f.at(i, j)).bomb ==> f.at(i, j).opened) {
        assert forall|i: int, j: int|
            0 <= i < w && 0 <= j < h && CellPred::NotMine.holds(#[trigger] g[i][j])
            implies CellPred::Open.holds(g[i][j]) by {
            assert(f.at(i, j) == g[i][j]);
        }
        lemma_count_rect_subset(g, 0, w, 0, h, CellPred::Open, CellPred::NotMine);
        lemma_count_rect_subset(g, 0, w, 0, h, CellPred::NotMine, CellPred::Open);
        assert(f.opened as int == w * h - f.bombs as int);
    }
}

} // verus!
