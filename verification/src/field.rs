//! The Field: the grid data model and every game-state mutation.
//!
//! Cells are stored in one flat vector in column-major order; the
//! specification view `grid()` presents them as a `Seq<Seq<Cell>>`
//! indexed by `(x, y)`.  Mines are not placed at construction: the first
//! `open` seeds random placement, excluding every cell that shares the
//! seed's row or column (the engine's historical exclusion rule, kept
//! deliberately).

use vstd::prelude::*;

use rand::Rng;

use crate::cell::Cell;
use crate::cell::CellPred;
use crate::counting::count_in_col;
use crate::counting::count_in_rect;
use crate::counting::lemma_count_col_bounds;
use crate::counting::grid_shape;
use crate::counting::lemma_count_rect_missing;
use crate::counting::lemma_count_rect_present;
use crate::counting::lemma_count_rect_update;
use crate::counting::lemma_count_rect_zero;
use crate::counting::lemma_count_rect_bounds;

verus! {

/// A rejected construction: non-positive dimensions, a negative mine
/// target, a target that does not leave a free cell, or a grid whose
/// cell count does not fit the counters.
#[derive(Clone, Copy, PartialEq, Eq, Structural, Debug)]
pub enum FieldError {
    InvalidConfiguration,
}

/// The Minesweeper playing field.
///
/// The fields are public so that the specifications below can speak of
/// them; all mutation goes through the methods.
pub struct Field {
    /// Cells in column-major order: `(x, y)` lives at `x * height + y`.
    pub cells: Vec<Cell>,
    pub width: i32,
    pub height: i32,
    /// Target number of mines, fixed at construction.
    pub bombs: i32,
    /// Number of mines actually placed so far.
    pub placed: i32,
    /// Running flag count (see `flag` for its historical bookkeeping).
    pub flags: i32,
    /// Number of currently open cells.
    pub opened: i32,
    /// Whether deferred mine generation has run.
    pub generated: bool,
}

/// `max(v - 1, 0)`: the lower edge of a clamped 3x3 neighbourhood.
pub open spec fn lo(v: int) -> int {
    if v - 1 >= 0 {
        v - 1
    } else {
        0
    }
}

/// `min(v + 2, bound)`: the upper edge of a clamped 3x3 neighbourhood.
pub open spec fn hi(v: int, bound: int) -> int {
    if v + 2 <= bound {
        v + 2
    } else {
        bound
    }
}

/// Number of mines in the clamped 3x3 neighbourhood of `(x, y)`.
pub open spec fn mines_near(g: Seq<Seq<Cell>>, w: int, h: int, x: int, y: int) -> int {
    count_in_rect(g, lo(x), hi(x, w), lo(y), hi(y, h), CellPred::Mine)
}

/// Number of flagged cells in the clamped 3x3 neighbourhood of `(x, y)`.
pub open spec fn flags_near(g: Seq<Seq<Cell>>, w: int, h: int, x: int, y: int) -> int {
    count_in_rect(g, lo(x), hi(x, w), lo(y), hi(y, h), CellPred::Flagged)
}

/// Every cell's stored adjacency count is the exact number of mines in
/// its clamped 3x3 neighbourhood.
pub open spec fn counts_correct(g: Seq<Seq<Cell>>, w: int, h: int) -> bool {
    forall|x: int, y: int|
        0 <= x < w && 0 <= y < h ==> (#[trigger] g[x][y]).bombs == mines_near(g, w, h, x, y)
}

/// `(x2, y2)` lies in the (unclamped) 3x3 neighbourhood of `(x1, y1)`.
pub open spec fn adjacent(x1: int, y1: int, x2: int, y2: int) -> bool {
    -1 <= x1 - x2 <= 1 && -1 <= y1 - y2 <= 1
}

/// The two fields have the same dimensions and mine target.
pub open spec fn same_config(a: Field, b: Field) -> bool {
    &&& b.width == a.width
    &&& b.height == a.height
    &&& b.bombs == a.bombs
}

/// The two fields have the same mine layout and adjacency counts.
pub open spec fn same_mines(a: Field, b: Field) -> bool {
    forall|x: int, y: int|
        #![trigger a.at(x, y)]
        #![trigger b.at(x, y)]
        0 <= x < a.w() && 0 <= y < a.h() ==> b.at(x, y).bomb == a.at(x, y).bomb && b.at(
            x,
            y,
        ).bombs == a.at(x, y).bombs
}

/// `(i, j)` has, in `s`, an open neighbour (itself allowed) whose
/// adjacency count is zero: the mark of a cell swept up by the
/// flood-opening of an empty region.
pub open spec fn has_zero_neighbor(s: Field, i: int, j: int) -> bool {
    exists|a: int, b: int|
        0 <= a < s.w() && 0 <= b < s.h() && adjacent(a, b, i, j) && (#[trigger] s.at(a, b)).opened
            && s.at(a, b).bombs == 0
}

/// Every in-grid neighbour of `(i, j)` that was unflagged in `o` is open
/// in `s`: the flood-fill finished its work around `(i, j)`.
pub open spec fn neighbors_opened(o: Field, s: Field, i: int, j: int) -> bool {
    forall|a: int, b: int|
        0 <= a < o.w() && 0 <= b < o.h() && adjacent(i, j, a, b) && !o.at(a, b).flag ==> (
        #[trigger] s.at(a, b)).opened
}

/// How a reveal rooted at `(x, y)` may change the field: `s` extends `o`
/// only by opening cells.  The configuration, the flag counter, the mine
/// layout (once generated) and every cell's flag but the root's are kept;
/// open cells only grow; and every newly opened cell other than the root
/// was unflagged and lies next to an open zero-count cell — the
/// flood-fill opens nothing else.
pub open spec fn opens_from(o: Field, s: Field, x: int, y: int) -> bool {
    &&& s.wf()
    &&& s.generated
    &&& same_config(o, s)
    &&& s.flags == o.flags
    &&& s.opened >= o.opened
    &&& (o.generated ==> same_mines(o, s) && s.placed == o.placed)
    &&& (forall|i: int, j: int|
        #![trigger s.at(i, j)]
        #![trigger o.at(i, j)]
        0 <= i < o.w() && 0 <= j < o.h() ==> {
            &&& (o.at(i, j).bomb ==> s.at(i, j).bomb)
            &&& (o.at(i, j).opened ==> s.at(i, j).opened)
            &&& ((i != x || j != y) ==> s.at(i, j).flag == o.at(i, j).flag)
            &&& ((i != x || j != y) && s.at(i, j).opened && !o.at(i, j).opened ==> !o.at(
                i,
                j,
            ).flag && has_zero_neighbor(s, i, j))
        })
}

/// How the placement phase of generation may change the field: mines are
/// only added, never on the forbidden seed's row or column, and nothing
/// else moves.
pub open spec fn placing_rel(o: Field, s: Field, xn: int, yn: int) -> bool {
    &&& s.wf()
    &&& !s.generated
    &&& same_config(o, s)
    &&& s.flags == o.flags
    &&& s.opened == o.opened
    &&& (forall|i: int, j: int|
        #![trigger s.at(i, j)]
        #![trigger o.at(i, j)]
        0 <= i < o.w() && 0 <= j < o.h() ==> {
            &&& s.at(i, j).opened == o.at(i, j).opened
            &&& s.at(i, j).flag == o.at(i, j).flag
            &&& (o.at(i, j).bomb ==> s.at(i, j).bomb)
            &&& (s.at(i, j).bomb ==> o.at(i, j).bomb || (i != xn && j != yn))
        })
}

/// How the chorded auto-open may change the field: cells are only
/// opened, and every flag, every counter but `opened`, and the mine
/// layout stay as they were.
pub open spec fn opens_keeping_flags(o: Field, s: Field) -> bool {
    &&& s.wf()
    &&& s.generated == o.generated
    &&& same_config(o, s)
    &&& s.flags == o.flags
    &&& s.placed == o.placed
    &&& s.opened >= o.opened
    &&& same_mines(o, s)
    &&& (forall|i: int, j: int|
        #![trigger s.at(i, j)]
        #![trigger o.at(i, j)]
        0 <= i < o.w() && 0 <= j < o.h() ==> s.at(i, j).flag == o.at(i, j).flag && (o.at(
            i,
            j,
        ).opened ==> s.at(i, j).opened))
}

/// What one flag toggle does to the grid: nothing on an open cell,
/// otherwise the cell's flag is flipped.
pub open spec fn flag_toggle(g: Seq<Seq<Cell>>, x: int, y: int) -> Seq<Seq<Cell>> {
    if g[x][y].opened {
        g
    } else {
        g.update(x, g[x].update(y, Cell { flag: !g[x][y].flag, ..g[x][y] }))
    }
}

/// What one flag toggle does to the flag counter: nothing on an open
/// cell, otherwise up on setting and down on clearing.
pub open spec fn flag_count_toggle(g: Seq<Seq<Cell>>, flags: int, x: int, y: int) -> int {
    if g[x][y].opened {
        flags
    } else if g[x][y].flag {
        flags - 1
    } else {
        flags + 1
    }
}

/// The two fields are equal in every observable part.
pub open spec fn same_state(a: Field, b: Field) -> bool {
    &&& same_config(a, b)
    &&& b.flags == a.flags
    &&& b.opened == a.opened
    &&& b.placed == a.placed
    &&& b.generated == a.generated
    &&& b.grid() == a.grid()
}

impl Field {
    /// The grid width as a mathematical integer.
    pub open spec fn w(self) -> int {
        self.width as int
    }

    /// The grid height as a mathematical integer.
    pub open spec fn h(self) -> int {
        self.height as int
    }

    /// The cells as a sequence of columns.
    pub open spec fn grid(self) -> Seq<Seq<Cell>> {
        Seq::new(
            self.width as nat,
            |x: int| Seq::new(self.height as nat, |y: int| self.cells@[x * (self.height as int) + y]),
        )
    }

    /// The cell at `(x, y)`.
    pub open spec fn at(self, x: int, y: int) -> Cell {
        self.grid()[x][y]
    }

    /// Well-formedness: the invariant every operation preserves.
    ///
    /// `opened` is exactly the number of open cells; `flags` is at least
    /// the number of flagged cells and at most the number of cells that
    /// are flagged or open (opening a flagged cell clears the flag
    /// without decrementing the counter, so `flags` may overcount);
    /// `placed` is exactly the number of mines, and once generation has
    /// run every adjacency count is exact.
    pub open spec fn wf(self) -> bool {
        let g = self.grid();
        &&& 1 <= self.w()
        &&& 1 <= self.h()
        &&& self.w() * self.h() <= i32::MAX as int
        &&& self.cells@.len() == self.w() * self.h()
        &&& 0 <= self.bombs
        &&& (self.bombs as int) < self.w() * self.h()
        &&& self.opened as int == count_in_rect(g, 0, self.w(), 0, self.h(), CellPred::Open)
        &&& count_in_rect(g, 0, self.w(), 0, self.h(), CellPred::Flagged) <= self.flags as int
        &&& self.flags as int <= count_in_rect(g, 0, self.w(), 0, self.h(), CellPred::FlaggedOrOpen)
        &&& self.placed as int == count_in_rect(g, 0, self.w(), 0, self.h(), CellPred::Mine)
        &&& self.placed <= self.bombs
        &&& self.generated ==> counts_correct(g, self.w(), self.h())
        &&& !self.generated ==> self.opened == 0
    }
}

/// A flat index stays within the cell vector.
pub proof fn lemma_idx_bound(x: int, y: int, w: int, h: int)
    requires
        0 <= x < w,
        0 <= y < h,
    ensures
        0 <= x * h + y < w * h,
    decreases w,
{
    assert(0 <= x * h + y < w * h) by (nonlinear_arith)
        requires
            0 <= x < w,
            0 <= y < h,
    ;
}

/// Distinct coordinates have distinct flat indices.
pub proof fn lemma_idx_inj(x1: int, y1: int, x2: int, y2: int, h: int)
    requires
        0 <= y1 < h,
        0 <= y2 < h,
        x1 * h + y1 == x2 * h + y2,
    ensures
        x1 == x2,
        y1 == y2,
{
    assert(x1 == x2 && y1 == y2) by (nonlinear_arith)
        requires
            0 <= y1 < h,
            0 <= y2 < h,
            x1 * h + y1 == x2 * h + y2,
    ;
}

impl Field {
    /// Construct a field of closed, unflagged, mine-free cells.  Mines
    /// are placed later, on the first reveal.  Degenerate configurations
    /// (non-positive dimensions, a negative mine target, a target that
    /// fills or overfills the grid, or a grid with more cells than the
    /// counters can hold) are rejected.
    pub fn new(width: i32, height: i32, bombs: i32) -> (r: Result<Field, FieldError>)
        ensures
            r is Ok <==> {
                &&& 1 <= width
                &&& 1 <= height
                &&& 0 <= bombs
                &&& (bombs as int) < (width as int) * (height as int)
                &&& (width as int) * (height as int) <= i32::MAX as int
            },
            r is Err ==> r->Err_0 == FieldError::InvalidConfiguration,
            r is Ok ==> {
                let f = r->Ok_0;
                &&& f.wf()
                &&& f.width == width
                &&& f.height == height
                &&& f.bombs == bombs
                &&& f.flags == 0
                &&& f.opened == 0
                &&& f.placed == 0
                &&& !f.generated
                &&& forall|x: int, y: int|
                    0 <= x < width && 0 <= y < height ==> #[trigger] f.at(x, y) == (Cell {
                        bomb: false,
                        bombs: 0,
                        opened: false,
                        flag: false,
                    })
            },
    {
        if width < 1 || height < 1 || bombs < 0 {
            return Err(FieldError::InvalidConfiguration);
        }
        proof {
            assert((width as int) * (height as int) <= 0x7fffffff * 0x7fffffff)
                by (nonlinear_arith)
                requires
                    1 <= width <= 0x7fffffff,
                    1 <= height <= 0x7fffffff,
            ;
        }
        let total_wide: i64 = (width as i64) * (height as i64);
        if total_wide > (i32::MAX as i64) || (bombs as i64) >= total_wide {
            return Err(FieldError::InvalidConfiguration);
        }
        let total: i32 = width * height;
        let mut cells: Vec<Cell> = Vec::new();
        let mut k: i32 = 0;
        while k < total
            invariant
                0 <= k <= total,
                total == width * height,
                cells@.len() == k as int,
                forall|m: int|
                    0 <= m < k ==> #[trigger] cells@[m] == (Cell {
                        bomb: false,
                        bombs: 0,
                        opened: false,
                        flag: false,
                    }),
            decreases total - k,
        {
            cells.push(Cell::new());
            k = k + 1;
        }
        let f = Field {
            cells,
            width,
            height,
            bombs,
            placed: 0,
            flags: 0,
            opened: 0,
            generated: false,
        };
        proof {
            let g = f.grid();
            let w = f.w();
            let h = f.h();
            assert forall|x: int, y: int| 0 <= x < w && 0 <= y < h implies #[trigger] g[x][y]
                == (Cell { bomb: false, bombs: 0, opened: false, flag: false }) by {
                lemma_idx_bound(x, y, w, h);
            }
            lemma_count_rect_zero(g, 0, w, 0, h, CellPred::Open);
            lemma_count_rect_zero(g, 0, w, 0, h, CellPred::Flagged);
            lemma_count_rect_zero(g, 0, w, 0, h, CellPred::FlaggedOrOpen);
            lemma_count_rect_zero(g, 0, w, 0, h, CellPred::Mine);
        }
        Ok(f)
    }

    /// Read-only access to one cell.
    pub fn cell(&self, x: i32, y: i32) -> (c: &Cell)
        requires
            self.wf(),
            0 <= x < self.width,
            0 <= y < self.height,
        ensures
            *c == self.at(x as int, y as int),
    {
        proof {
            lemma_idx_bound(x as int, y as int, self.w(), self.h());
        }
        let idx: usize = (x as usize) * (self.height as usize) + (y as usize);
        &self.cells[idx]
    }

    /// Replace one cell, leaving every counter and every other cell as
    /// it was.
    fn set_cell(&mut self, x: i32, y: i32, c: Cell)
        requires
            1 <= old(self).width,
            1 <= old(self).height,
            old(self).w() * old(self).h() <= i32::MAX as int,
            old(self).cells@.len() == old(self).w() * old(self).h(),
            0 <= x < old(self).width,
            0 <= y < old(self).height,
        ensures
            final(self).cells@.len() == old(self).cells@.len(),
            final(self).width == old(self).width,
            final(self).height == old(self).height,
            final(self).bombs == old(self).bombs,
            final(self).placed == old(self).placed,
            final(self).flags == old(self).flags,
            final(self).opened == old(self).opened,
            final(self).generated == old(self).generated,
            final(self).grid() == old(self).grid().update(
                x as int,
                old(self).grid()[x as int].update(y as int, c),
            ),
    {
        proof {
            lemma_idx_bound(x as int, y as int, self.w(), self.h());
        }
        let idx: usize = (x as usize) * (self.height as usize) + (y as usize);
        self.cells.set(idx, c);
        proof {
            let w = self.w();
            let h = self.h();
            let xi = x as int;
            let yi = y as int;
            let target = old(self).grid().update(xi, old(self).grid()[xi].update(yi, c));
            assert forall|i: int| 0 <= i < w implies self.grid()[i] =~= target[i] by {
                assert forall|j: int| 0 <= j < h implies self.grid()[i][j] == target[i][j] by {
                    lemma_idx_bound(i, j, w, h);
                    if i * h + j == xi * h + yi {
                        lemma_idx_inj(i, j, xi, yi, h);
                    }
                }
            }
            assert(self.grid() =~~= target);
        }
    }

    /// The grid width.
    pub fn width(&self) -> (r: i32)
        ensures
            r == self.width,
    {
        self.width
    }

    /// The grid height.
    pub fn height(&self) -> (r: i32)
        ensures
            r == self.height,
    {
        self.height
    }

    /// The number of currently open cells.
    pub fn opened(&self) -> (r: i32)
        ensures
            r == self.opened,
    {
        self.opened
    }

    /// The mine target this field was constructed with.
    pub fn bombs(&self) -> (r: i32)
        ensures
            r == self.bombs,
    {
        self.bombs
    }

    /// The running flag count.
    pub fn flags(&self) -> (r: i32)
        ensures
            r == self.flags,
    {
        self.flags
    }

    /// Recompute and store the adjacency count of one cell: the number
    /// of mines in its clamped 3x3 neighbourhood (the cell itself
    /// included).  Reused by generation for every cell.
    #[verifier::loop_isolation(false)]
    #[verifier::rlimit(50)]
    pub fn check_bombs(&mut self, x: i32, y: i32)
        requires
            old(self).wf(),
            0 <= x < old(self).width,
            0 <= y < old(self).height,
        ensures
            final(self).wf(),
            same_config(*old(self), *final(self)),
            final(self).flags == old(self).flags,
            final(self).opened == old(self).opened,
            final(self).placed == old(self).placed,
            final(self).generated == old(self).generated,
            forall|i: int, j: int|
                0 <= i < old(self).w() && 0 <= j < old(self).h() && (i != x as int || j != y as int)
                    ==> #[trigger] final(self).at(i, j) == old(self).at(i, j),
            final(self).at(x as int, y as int) == (Cell {
                bombs: mines_near(
                    old(self).grid(),
                    old(self).w(),
                    old(self).h(),
                    x as int,
                    y as int,
                ) as i32,
                ..old(self).at(x as int, y as int)
            }),
            forall|i: int, j: int|
                0 <= i < old(self).w() && 0 <= j < old(self).h() ==> #[trigger] mines_near(
                    final(self).grid(),
                    old(self).w(),
                    old(self).h(),
                    i,
                    j,
                ) == mines_near(old(self).grid(), old(self).w(), old(self).h(), i, j),
    {
        let ghost g0 = self.grid();
        let ghost wi = self.w();
        let ghost hi_ = self.h();
        let xs: i32 = if x >= 1 {
            x - 1
        } else {
            0
        };
        let xe: i32 = if x <= self.width - 2 {
            x + 2
        } else {
            self.width
        };
        let ys: i32 = if y >= 1 {
            y - 1
        } else {
            0
        };
        let ye: i32 = if y <= self.height - 2 {
            y + 2
        } else {
            self.height
        };
        let mut acc: i32 = 0;
        let mut i: i32 = xs;
        while i < xe
            invariant
                xs <= i <= xe,
                acc == count_in_rect(g0, xs as int, i as int, ys as int, ye as int, CellPred::Mine),
                0 <= acc <= 9,
            decreases xe - i,
        {
            let mut j: i32 = ys;
            while j < ye
                invariant
                    xs <= i < xe,
                    ys <= j <= ye,
                    acc == count_in_rect(g0, xs as int, i as int, ys as int, ye as int, CellPred::Mine)
                        + count_in_col(g0[i as int], ys as int, j as int, CellPred::Mine),
                    0 <= acc <= 9,
                decreases ye - j,
            {
                let c = *self.cell(i, j);
                if c.bomb {
                    proof {
                        lemma_count_rect_bounds(
                            g0,
                            xs as int,
                            i as int,
                            ys as int,
                            ye as int,
                            CellPred::Mine,
                        );
                        lemma_count_col_bounds(g0[i as int], ys as int, j as int, CellPred::Mine);
                        assert((i - xs) * (ye - ys) <= 6) by (nonlinear_arith)
                            requires
                                0 <= i - xs <= 2,
                                0 <= ye - ys <= 3,
                        ;
                    }
                    acc = acc + 1;
                }
                j = j + 1;
            }
            i = i + 1;
        }
        assert(acc == mines_near(g0, wi, hi_, x as int, y as int));
        let mut c2 = *self.cell(x, y);
        c2.bombs = acc;
        self.set_cell(x, y, c2);
        proof {
            let xi = x as int;
            let yi = y as int;
            lemma_count_rect_update(g0, wi, hi_, xi, yi, c2, 0, wi, 0, hi_, CellPred::Open);
            lemma_count_rect_update(g0, wi, hi_, xi, yi, c2, 0, wi, 0, hi_, CellPred::Flagged);
            lemma_count_rect_update(g0, wi, hi_, xi, yi, c2, 0, wi, 0, hi_, CellPred::FlaggedOrOpen);
            lemma_count_rect_update(g0, wi, hi_, xi, yi, c2, 0, wi, 0, hi_, CellPred::Mine);
            assert forall|a: int, b: int| 0 <= a < wi && 0 <= b < hi_ implies #[trigger] mines_near(
                self.grid(),
                wi,
                hi_,
                a,
                b,
            ) == mines_near(g0, wi, hi_, a, b) by {
                lemma_count_rect_update(
                    g0,
                    wi,
                    hi_,
                    xi,
                    yi,
                    c2,
                    lo(a),
                    hi(a, wi),
                    lo(b),
                    hi(b, hi_),
                    CellPred::Mine,
                );
            }
            assert forall|a: int, b: int|
                0 <= a < wi && 0 <= b < hi_ && (a != xi || b != yi) implies #[trigger] self.at(a, b)
                == old(self).at(a, b) by {
                assert(self.grid()[a] == if a == xi {
                    g0[xi].update(yi, c2)
                } else {
                    g0[a]
                });
            }
            if self.generated {
                assert(counts_correct(self.grid(), wi, hi_)) by {
                    assert forall|a: int, b: int| 0 <= a < wi && 0 <= b < hi_ implies (
                    #[trigger] self.grid()[a][b]).bombs == mines_near(self.grid(), wi, hi_, a, b) by {
                        assert(self.at(a, b) == if a == xi && b == yi {
                            c2
                        } else {
                            old(self).at(a, b)
                        });
                    }
                }
            }
        }
    }

    /// Compute every cell's adjacency count and mark generation
    /// complete.  Together with `place_mine` this is the deterministic
    /// tail of mine generation; exposing it lets a caller build a field
    /// with a known mine layout.
    #[verifier::loop_isolation(false)]
    pub fn finish_generation(&mut self)
        requires
            old(self).wf(),
            !old(self).generated,
        ensures
            final(self).wf(),
            same_config(*old(self), *final(self)),
            final(self).flags == old(self).flags,
            final(self).opened == old(self).opened,
            final(self).placed == old(self).placed,
            final(self).generated,
            forall|i: int, j: int|
                0 <= i < old(self).w() && 0 <= j < old(self).h() ==> {
                    let c0 = old(self).at(i, j);
                    let c1 = #[trigger] final(self).at(i, j);
                    c1.bomb == c0.bomb && c1.opened == c0.opened && c1.flag == c0.flag
                },
    {
        let ghost wi = self.w();
        let ghost hi_ = self.h();
        let mut i: i32 = 0;
        while i < self.width
            invariant
                0 <= i <= self.width,
                self.wf(),
                !self.generated,
                same_config(*old(self), *self),
                self.flags == old(self).flags,
                self.opened == old(self).opened,
                self.placed == old(self).placed,
                forall|a: int, b: int|
                    0 <= a < wi && 0 <= b < hi_ ==> {
                        let c0 = old(self).at(a, b);
                        let c1 = #[trigger] self.at(a, b);
                        c1.bomb == c0.bomb && c1.opened == c0.opened && c1.flag == c0.flag
                    },
                forall|a: int, b: int|
                    0 <= a < i && 0 <= b < hi_ ==> (#[trigger] self.at(a, b)).bombs == mines_near(
                        self.grid(),
                        wi,
                        hi_,
                        a,
                        b,
                    ),
            decreases self.width - i,
        {
            let mut j: i32 = 0;
            while j < self.height
                invariant
                    0 <= i < self.width,
                    0 <= j <= self.height,
                    self.wf(),
                    !self.generated,
                    same_config(*old(self), *self),
                    self.flags == old(self).flags,
                    self.opened == old(self).opened,
                    self.placed == old(self).placed,
                    forall|a: int, b: int|
                        0 <= a < wi && 0 <= b < hi_ ==> {
                            let c0 = old(self).at(a, b);
                            let c1 = #[trigger] self.at(a, b);
                            c1.bomb == c0.bomb && c1.opened == c0.opened && c1.flag == c0.flag
                        },
                    forall|a: int, b: int|
                        0 <= a < wi && 0 <= b < hi_ && (a < i || (a == i && b < j)) ==> (
                        #[trigger] self.at(a, b)).bombs == mines_near(self.grid(), wi, hi_, a, b),
                decreases self.height - j,
            {
                let ghost pre = *self;
                self.check_bombs(i, j);
                proof {
                    assert forall|a: int, b: int|
                        0 <= a < wi && 0 <= b < hi_ implies {
                        let c0 = old(self).at(a, b);
                        let c1 = #[trigger] self.at(a, b);
                        c1.bomb == c0.bomb && c1.opened == c0.opened && c1.flag == c0.flag
                    } by {
                        if a == i as int && b == j as int {
                            assert(self.at(a, b).bomb == pre.at(a, b).bomb);
                        } else {
                            assert(self.at(a, b) == pre.at(a, b));
                        }
                        assert(pre.at(a, b).bomb == old(self).at(a, b).bomb);
                    }
                    assert forall|a: int, b: int|
                        0 <= a < wi && 0 <= b < hi_ && (a < i as int || (a == i as int && b < j as int
                            + 1)) implies (#[trigger] self.at(a, b)).bombs == mines_near(
                        self.grid(),
                        wi,
                        hi_,
                        a,
                        b,
                    ) by {
                        assert(mines_near(self.grid(), wi, hi_, a, b) == mines_near(
                            pre.grid(),
                            wi,
                            hi_,
                            a,
                            b,
                        ));
                        if a == i as int && b == j as int {
                            lemma_count_rect_bounds(
                                pre.grid(),
                                lo(a),
                                hi(a, wi),
                                lo(b),
                                hi(b, hi_),
                                CellPred::Mine,
                            );
                            assert((hi(a, wi) - lo(a)) * (hi(b, hi_) - lo(b)) <= 9)
                                by (nonlinear_arith)
                                requires
                                    0 <= hi(a, wi) - lo(a) <= 3,
                                    0 <= hi(b, hi_) - lo(b) <= 3,
                            ;
                            assert(self.at(a, b).bombs == mines_near(pre.grid(), wi, hi_, a, b));
                        } else {
                            assert(self.at(a, b) == pre.at(a, b));
                            assert(pre.at(a, b).bombs == mines_near(pre.grid(), wi, hi_, a, b));
                        }
                    }
                }
                j = j + 1;
            }
            i = i + 1;
        }
        let ghost snap = *self;
        self.generated = true;
        proof {
            assert forall|a: int| 0 <= a < wi implies self.grid()[a] =~= snap.grid()[a] by {
                assert forall|b: int| 0 <= b < hi_ implies self.grid()[a][b] == snap.grid()[a][b] by {
                }
            }
            assert(self.grid() =~~= snap.grid());
            assert forall|a: int, b: int| 0 <= a < wi && 0 <= b < hi_ implies (
            #[trigger] self.grid()[a][b]).bombs == mines_near(self.grid(), wi, hi_, a, b) by {
                assert(snap.at(a, b) == snap.grid()[a][b]);
            }
            assert forall|a: int, b: int|
                0 <= a < wi && 0 <= b < hi_ implies {
                let c0 = old(self).at(a, b);
                let c1 = #[trigger] self.at(a, b);
                c1.bomb == c0.bomb && c1.opened == c0.opened && c1.flag == c0.flag
            } by {
                assert(self.at(a, b) == snap.at(a, b));
            }
        }
    }

    /// Place a mine on a closed-to-mines cell while generation is still
    /// pending, if the mine target has not been reached.  Returns whether
    /// a mine was placed.  This is the single placement step of mine
    /// generation; exposing it lets a caller (or a test) force a known
    /// layout before `finish_generation`.
    pub fn place_mine(&mut self, x: i32, y: i32) -> (did: bool)
        requires
            old(self).wf(),
            !old(self).generated,
            0 <= x < old(self).width,
            0 <= y < old(self).height,
        ensures
            final(self).wf(),
            !final(self).generated,
            same_config(*old(self), *final(self)),
            final(self).flags == old(self).flags,
            final(self).opened == old(self).opened,
            did == (!old(self).at(x as int, y as int).bomb && old(self).placed < old(self).bombs),
            did ==> final(self).grid() == old(self).grid().update(
                x as int,
                old(self).grid()[x as int].update(
                    y as int,
                    Cell { bomb: true, ..old(self).at(x as int, y as int) },
                ),
            ) && final(self).placed == old(self).placed + 1,
            !did ==> same_state(*old(self), *final(self)),
    {
        if self.placed >= self.bombs {
            return false;
        }
        let c = *self.cell(x, y);
        if c.bomb {
            return false;
        }
        let mut c2 = c;
        c2.bomb = true;
        self.set_cell(x, y, c2);
        self.placed = self.placed + 1;
        proof {
            let g0 = old(self).grid();
            let wi = old(self).w();
            let hi_ = old(self).h();
            let xi = x as int;
            let yi = y as int;
            lemma_count_rect_update(g0, wi, hi_, xi, yi, c2, 0, wi, 0, hi_, CellPred::Open);
            lemma_count_rect_update(g0, wi, hi_, xi, yi, c2, 0, wi, 0, hi_, CellPred::Flagged);
            lemma_count_rect_update(g0, wi, hi_, xi, yi, c2, 0, wi, 0, hi_, CellPred::FlaggedOrOpen);
            lemma_count_rect_update(g0, wi, hi_, xi, yi, c2, 0, wi, 0, hi_, CellPred::Mine);
        }
        true
    }

    /// Deferred mine placement, run once, on the first reveal.
    ///
    /// Repeatedly picks a uniformly random coordinate and places a mine
    /// there when the cell is mine-free and shares neither the row nor
    /// the column of the forbidden seed (the engine's historical
    /// exclusion rule, kept deliberately: it spares the whole row and
    /// column, not only the seed cell).  The random phase is bounded; a
    /// deterministic sweep over the grid then places any remainder, so
    /// either the mine target is met or every cell outside the seed's
    /// row and column holds a mine.  Finally every adjacency count is
    /// computed and generation is marked complete.
    #[verifier::loop_isolation(false)]
    fn generate(&mut self, x_noplace: i32, y_noplace: i32)
        requires
            old(self).wf(),
            !old(self).generated,
            0 <= x_noplace < old(self).width,
            0 <= y_noplace < old(self).height,
        ensures
            final(self).wf(),
            final(self).generated,
            same_config(*old(self), *final(self)),
            final(self).flags == old(self).flags,
            final(self).opened == old(self).opened,
            forall|i: int, j: int|
                #![trigger final(self).at(i, j)]
                #![trigger old(self).at(i, j)]
                0 <= i < old(self).w() && 0 <= j < old(self).h() ==> {
                    &&& final(self).at(i, j).opened == old(self).at(i, j).opened
                    &&& final(self).at(i, j).flag == old(self).at(i, j).flag
                    &&& (old(self).at(i, j).bomb ==> final(self).at(i, j).bomb)
                    &&& (final(self).at(i, j).bomb ==> old(self).at(i, j).bomb || (i
                        != x_noplace as int && j != y_noplace as int))
                },
            final(self).placed == final(self).bombs || (forall|i: int, j: int|
                0 <= i < old(self).w() && 0 <= j < old(self).h() && i != x_noplace as int && j
                    != y_noplace as int ==> (#[trigger] final(self).at(i, j)).bomb),
    {
        let ghost xn = x_noplace as int;
        let ghost yn = y_noplace as int;
        let mut tries: u32 = 0;
        while self.placed < self.bombs && tries < 65536
            invariant
                tries <= 65536,
                placing_rel(*old(self), *self, xn, yn),
            decreases 65536 - tries,
        {
            let rx = random_below(self.width);
            let ry = random_below(self.height);
            if rx != x_noplace && ry != y_noplace {
                let ghost pre = *self;
                let did = self.place_mine(rx, ry);
                proof {
                    self.lemma_placing_step(*old(self), pre, xn, yn, rx as int, ry as int, did);
                }
            }
            tries = tries + 1;
        }
        let mut i: i32 = 0;
        while i < self.width
            invariant
                0 <= i <= self.width,
                placing_rel(*old(self), *self, xn, yn),
                self.placed == self.bombs || (forall|a: int, b: int|
                    0 <= a < self.w() && 0 <= b < self.h() && a < i as int && a != xn && b != yn
                        ==> (#[trigger] self.at(a, b)).bomb),
            decreases self.width - i,
        {
            let mut j: i32 = 0;
            while j < self.height
                invariant
                    0 <= i < self.width,
                    0 <= j <= self.height,
                    placing_rel(*old(self), *self, xn, yn),
                    self.placed == self.bombs || (forall|a: int, b: int|
                        0 <= a < self.w() && 0 <= b < self.h() && (a < i as int || (a == i as int
                            && b < j as int)) && a != xn && b != yn ==> (#[trigger] self.at(
                            a,
                            b,
                        )).bomb),
                decreases self.height - j,
            {
                if i != x_noplace && j != y_noplace {
                    if self.placed < self.bombs {
                        let ghost pre = *self;
                        let did = self.place_mine(i, j);
                        proof {
                            self.lemma_placing_step(*old(self), pre, xn, yn, i as int, j as int, did);
                            assert(self.at(i as int, j as int).bomb);
                        }
                    }
                }
                j = j + 1;
            }
            i = i + 1;
        }
        let ghost mid = *self;
        self.finish_generation();
        proof {
            assert forall|a: int, b: int|
                #![trigger self.at(a, b)]
                #![trigger old(self).at(a, b)]
                0 <= a < old(self).w() && 0 <= b < old(self).h() implies {
                &&& self.at(a, b).opened == old(self).at(a, b).opened
                &&& self.at(a, b).flag == old(self).at(a, b).flag
                &&& (old(self).at(a, b).bomb ==> self.at(a, b).bomb)
                &&& (self.at(a, b).bomb ==> old(self).at(a, b).bomb || (a != xn && b != yn))
            } by {
                assert(self.at(a, b).bomb == mid.at(a, b).bomb);
                assert(mid.at(a, b).flag == old(self).at(a, b).flag);
            }
            if self.placed != self.bombs {
                assert forall|a: int, b: int|
                    0 <= a < old(self).w() && 0 <= b < old(self).h() && a != xn && b != yn implies (
                #[trigger] self.at(a, b)).bomb by {
                    assert(mid.at(a, b).bomb);
                }
            }
        }
    }

    /// Re-establish the placement-phase relation after one placement
    /// attempt at `(px, py)` moved `pre` to `self`.
    proof fn lemma_placing_step(self, o: Field, pre: Field, xn: int, yn: int, px: int, py: int, did: bool)
        requires
            placing_rel(o, pre, xn, yn),
            0 <= px < o.w(),
            0 <= py < o.h(),
            px != xn,
            py != yn,
            self.wf(),
            !self.generated,
            same_config(pre, self),
            self.flags == pre.flags,
            self.opened == pre.opened,
            did ==> self.grid() == pre.grid().update(
                px,
                pre.grid()[px].update(py, Cell { bomb: true, ..pre.at(px, py) }),
            ),
            !did ==> same_state(pre, self),
        ensures
            placing_rel(o, self, xn, yn),
            did ==> self.at(px, py).bomb,
    {
        if did {
            lemma_pointwise_update(pre, self, px, py, Cell { bomb: true, ..pre.at(px, py) });
        }
        assert forall|i: int, j: int|
            #![trigger self.at(i, j)]
            #![trigger o.at(i, j)]
            0 <= i < o.w() && 0 <= j < o.h() implies {
            &&& self.at(i, j).opened == o.at(i, j).opened
            &&& self.at(i, j).flag == o.at(i, j).flag
            &&& (o.at(i, j).bomb ==> self.at(i, j).bomb)
            &&& (self.at(i, j).bomb ==> o.at(i, j).bomb || (i != xn && j != yn))
        } by {
            if did {
                assert(self.at(i, j) == if i == px && j == py {
                    Cell { bomb: true, ..pre.at(px, py) }
                } else {
                    pre.at(i, j)
                });
            } else {
                assert(self.at(i, j) == pre.at(i, j));
            }
            assert(pre.at(i, j).opened == o.at(i, j).opened);
        }
    }

    /// Reveal the cell at `(x, y)`.
    ///
    /// If mines have not been generated yet, they are generated first
    /// with `(x, y)` as the forbidden seed.  Revealing an already open
    /// cell changes nothing and reports no mine.  Otherwise the cell is
    /// opened and its flag cleared (without flag-count bookkeeping, as
    /// the engine always did); a mine ends the reveal at once, and a
    /// zero-count cell flood-opens its unflagged closed neighbours
    /// recursively.  Returns whether the revealed cell held a mine.
    #[verifier::loop_isolation(false)]
    #[verifier::rlimit(100)]
    pub fn open(&mut self, x: i32, y: i32) -> (hit: bool)
        requires
            old(self).wf(),
            0 <= x < old(self).width,
            0 <= y < old(self).height,
        ensures
            opens_from(*old(self), *final(self), x as int, y as int),
            final(self).at(x as int, y as int).flag == (old(self).at(x as int, y as int).opened
                && old(self).at(x as int, y as int).flag),
            hit == (!old(self).at(x as int, y as int).opened && old(self).at(
                x as int,
                y as int,
            ).bomb),
            old(self).generated && old(self).at(x as int, y as int).opened ==> same_state(
                *old(self),
                *final(self),
            ),
            !old(self).at(x as int, y as int).opened ==> final(self).at(x as int, y as int).opened
                && final(self).opened > old(self).opened,
            hit ==> (forall|i: int, j: int|
                0 <= i < old(self).w() && 0 <= j < old(self).h() && (i != x as int || j != y as int)
                    ==> (#[trigger] final(self).at(i, j)).opened == old(self).at(i, j).opened)
                && final(self).opened == old(self).opened + 1,
            (old(self).generated && !old(self).at(x as int, y as int).opened && !old(self).at(
                x as int,
                y as int,
            ).bomb && old(self).at(x as int, y as int).bombs != 0) ==> (forall|i: int, j: int|
                0 <= i < old(self).w() && 0 <= j < old(self).h() && (i != x as int || j != y as int)
                    ==> (#[trigger] final(self).at(i, j)).opened == old(self).at(i, j).opened)
                && final(self).opened == old(self).opened + 1,
            !old(self).generated ==> (forall|i: int, j: int|
                0 <= i < old(self).w() && 0 <= j < old(self).h() ==> ((#[trigger] final(self).at(
                    i,
                    j,
                )).bomb ==> old(self).at(i, j).bomb || (i != x as int && j != y as int))),
            !old(self).generated ==> (final(self).placed == final(self).bombs || (forall|
                i: int,
                j: int,
            |
                0 <= i < old(self).w() && 0 <= j < old(self).h() && i != x as int && j != y as int
                    ==> (#[trigger] final(self).at(i, j)).bomb)),
            old(self).generated ==> final(self).placed == old(self).placed,
            forall|i: int, j: int|
                0 <= i < old(self).w() && 0 <= j < old(self).h() && (#[trigger] final(self).at(
                    i,
                    j,
                )).opened && !old(self).at(i, j).opened && final(self).at(i, j).bombs == 0
                    ==> neighbors_opened(*old(self), *final(self), i, j),
        decreases self.w() * self.h() - self.opened,
    {
        let ghost xi = x as int;
        let ghost yi = y as int;
        proof {
            if !old(self).generated && old(self).at(xi, yi).opened {
                lemma_count_rect_present(
                    old(self).grid(),
                    xi,
                    yi,
                    0,
                    old(self).w(),
                    0,
                    old(self).h(),
                    CellPred::Open,
                );
            }
        }
        if !self.generated {
            self.generate(x, y);
        }
        let ghost mid = *self;
        proof {
            assert forall|i: int, j: int|
                #![trigger mid.at(i, j)]
                #![trigger old(self).at(i, j)]
                0 <= i < old(self).w() && 0 <= j < old(self).h() implies {
                &&& mid.at(i, j).opened == old(self).at(i, j).opened
                &&& mid.at(i, j).flag == old(self).at(i, j).flag
                &&& (old(self).at(i, j).bomb ==> mid.at(i, j).bomb)
                &&& (mid.at(i, j).bomb ==> old(self).at(i, j).bomb || (i != xi && j != yi))
                &&& (old(self).generated ==> mid.at(i, j) == old(self).at(i, j))
            } by {
                if old(self).generated {
                    assert(mid == *old(self));
                }
            }
        }
        let c = *self.cell(x, y);
        if c.opened {
            return false;
        }
        let ghost pre = *self;
        proof {
            lemma_count_rect_missing(pre.grid(), xi, yi, 0, pre.w(), 0, pre.h(), CellPred::Open);
        }
        let mut c2 = c;
        c2.opened = true;
        c2.flag = false;
        self.set_cell(x, y, c2);
        self.opened = self.opened + 1;
        proof {
            lemma_open_cell_wf_restore(*self, pre, xi, yi, c2);
            lemma_pointwise_update(pre, *self, xi, yi, c2);
            assert forall|i: int, j: int|
                #![trigger self.at(i, j)]
                #![trigger old(self).at(i, j)]
                0 <= i < old(self).w() && 0 <= j < old(self).h() implies {
                &&& (old(self).at(i, j).bomb ==> self.at(i, j).bomb)
                &&& (old(self).at(i, j).opened ==> self.at(i, j).opened)
                &&& ((i != xi || j != yi) ==> self.at(i, j).flag == old(self).at(i, j).flag)
                &&& ((i != xi || j != yi) ==> self.at(i, j).opened == old(self).at(i, j).opened)
                &&& (self.at(i, j).bomb ==> old(self).at(i, j).bomb || (i != xi && j != yi))
                &&& (old(self).generated ==> self.at(i, j).bomb == old(self).at(i, j).bomb && self.at(
                    i,
                    j,
                ).bombs == old(self).at(i, j).bombs)
            } by {
                assert(self.at(i, j) == if i == xi && j == yi {
                    c2
                } else {
                    pre.at(i, j)
                });
                assert(mid.at(i, j).flag == old(self).at(i, j).flag);
            }
            assert(opens_from(*old(self), *self, xi, yi));
        }
        if c.bomb {
            proof {
                // a mine's own neighbourhood contains it, so its count is positive
                assert(pre.grid()[xi][yi] == pre.at(xi, yi));
                lemma_count_rect_present(
                    pre.grid(),
                    xi,
                    yi,
                    lo(xi),
                    hi(xi, pre.w()),
                    lo(yi),
                    hi(yi, pre.h()),
                    CellPred::Mine,
                );
            }
            return true;
        }
        if c.bombs == 0 {
            let xs: i32 = if x >= 1 {
                x - 1
            } else {
                0
            };
            let xe: i32 = if x <= self.width - 2 {
                x + 2
            } else {
                self.width
            };
            let ys: i32 = if y >= 1 {
                y - 1
            } else {
                0
            };
            let ye: i32 = if y <= self.height - 2 {
                y + 2
            } else {
                self.height
            };
            let mut i: i32 = xs;
            while i < xe
                invariant
                    xs <= i <= xe,
                    opens_from(*old(self), *self, xi, yi),
                    self.at(xi, yi).opened,
                    self.at(xi, yi).bombs == 0,
                    !self.at(xi, yi).flag,
                    self.opened > old(self).opened,
                    !old(self).generated ==> (forall|a: int, b: int|
                        0 <= a < old(self).w() && 0 <= b < old(self).h() ==> ((#[trigger] self.at(
                            a,
                            b,
                        )).bomb ==> old(self).at(a, b).bomb || (a != xi && b != yi))),
                    !old(self).generated ==> (self.placed == self.bombs || (forall|a: int, b: int|
                        0 <= a < old(self).w() && 0 <= b < old(self).h() && a != xi && b != yi ==> (
                        #[trigger] self.at(a, b)).bomb)),
                    old(self).generated ==> self.placed == old(self).placed,
                    forall|p: int, q: int|
                        0 <= p < old(self).w() && 0 <= q < old(self).h() && (p != xi || q != yi)
                            && (#[trigger] self.at(p, q)).opened && !old(self).at(p, q).opened
                            && self.at(p, q).bombs == 0 ==> neighbors_opened(*old(self), *self, p, q),
                    forall|a: int, b: int|
                        xs as int <= a < xe as int && ys as int <= b < ye as int && a < i as int
                            && !old(self).at(a, b).flag ==> (#[trigger] self.at(a, b)).opened,
                decreases xe - i,
            {
                let mut j: i32 = ys;
                while j < ye
                    invariant
                        xs <= i < xe,
                        ys <= j <= ye,
                        opens_from(*old(self), *self, xi, yi),
                        self.at(xi, yi).opened,
                        self.at(xi, yi).bombs == 0,
                        !self.at(xi, yi).flag,
                        self.opened > old(self).opened,
                        !old(self).generated ==> (forall|a: int, b: int|
                            0 <= a < old(self).w() && 0 <= b < old(self).h() ==> ((
                            #[trigger] self.at(a, b)).bomb ==> old(self).at(a, b).bomb || (a != xi
                                && b != yi))),
                        !old(self).generated ==> (self.placed == self.bombs || (forall|
                            a: int,
                            b: int,
                        |
                            0 <= a < old(self).w() && 0 <= b < old(self).h() && a != xi && b != yi
                                ==> (#[trigger] self.at(a, b)).bomb)),
                        old(self).generated ==> self.placed == old(self).placed,
                        forall|p: int, q: int|
                            0 <= p < old(self).w() && 0 <= q < old(self).h() && (p != xi || q != yi)
                                && (#[trigger] self.at(p, q)).opened && !old(self).at(p, q).opened
                                && self.at(p, q).bombs == 0 ==> neighbors_opened(
                                *old(self),
                                *self,
                                p,
                                q,
                            ),
                        forall|a: int, b: int|
                            xs as int <= a < xe as int && ys as int <= b < ye as int && (a
                                < i as int || (a == i as int && b < j as int)) && !old(self).at(
                                a,
                                b,
                            ).flag ==> (#[trigger] self.at(a, b)).opened,
                    decreases ye - j,
                {
                    let nc = *self.cell(i, j);
                    if !nc.opened && !nc.flag {
                        let ghost prec = *self;
                        proof {
                            lemma_count_rect_bounds(
                                self.grid(),
                                0,
                                self.w(),
                                0,
                                self.h(),
                                CellPred::Open,
                            );
                        }
                        let _ = self.open(i, j);
                        proof {
                            lemma_opens_from_trans(
                                *old(self),
                                prec,
                                *self,
                                xi,
                                yi,
                                i as int,
                                j as int,
                            );
                            assert forall|a: int, b: int|
                                0 <= a < old(self).w() && 0 <= b < old(self).h() implies (
                            #[trigger] self.at(a, b)).bomb == prec.at(a, b).bomb && self.at(
                                a,
                                b,
                            ).bombs == prec.at(a, b).bombs by {
                                assert(prec.at(a, b) == prec.at(a, b));
                            }
                            assert forall|p: int, q: int|
                                0 <= p < old(self).w() && 0 <= q < old(self).h() && (p != xi || q
                                    != yi) && (#[trigger] self.at(p, q)).opened && !old(self).at(
                                p,
                                q,
                            ).opened && self.at(p, q).bombs == 0 implies neighbors_opened(
                                *old(self),
                                *self,
                                p,
                                q,
                            ) by {
                                assert(prec.at(p, q) == prec.at(p, q));
                                if prec.at(p, q).opened {
                                    assert(neighbors_opened(*old(self), prec, p, q));
                                    assert forall|a: int, b: int|
                                        0 <= a < old(self).w() && 0 <= b < old(self).h()
                                            && adjacent(p, q, a, b) && !old(self).at(a, b).flag
                                            implies (#[trigger] self.at(a, b)).opened by {
                                        assert(prec.at(a, b).opened);
                                    }
                                } else {
                                    assert(neighbors_opened(prec, *self, p, q));
                                    assert forall|a: int, b: int|
                                        0 <= a < old(self).w() && 0 <= b < old(self).h()
                                            && adjacent(p, q, a, b) && !old(self).at(a, b).flag
                                            implies (#[trigger] self.at(a, b)).opened by {
                                        assert(!prec.at(a, b).flag);
                                    }
                                }
                            }
                            assert forall|a: int, b: int|
                                xs as int <= a < xe as int && ys as int <= b < ye as int && (a
                                    < i as int || (a == i as int && b < j as int + 1)) && !old(
                                self,
                            ).at(a, b).flag implies (#[trigger] self.at(a, b)).opened by {
                                if a == i as int && b == j as int {
                                } else {
                                    assert(prec.at(a, b).opened);
                                }
                            }
                        }
                    }
                    j = j + 1;
                }
                i = i + 1;
            }
            proof {
                assert forall|a: int, b: int|
                    0 <= a < old(self).w() && 0 <= b < old(self).h() && adjacent(xi, yi, a, b)
                        && !old(self).at(a, b).flag implies (#[trigger] self.at(a, b)).opened by {}
                assert(neighbors_opened(*old(self), *self, xi, yi));
            }
        }
        false
    }

    /// End-of-game sweep: opens every closed cell whose flag state
    /// disagrees with its mine state — an unflagged mine, or a flag on a
    /// non-mine.  Flags are left in place (a wrongly flagged cell ends
    /// up open and still flagged) and the flag counter is not adjusted.
    #[verifier::loop_isolation(false)]
    #[verifier::rlimit(50)]
    pub fn open_all(&mut self)
        requires
            old(self).wf(),
            old(self).generated,
        ensures
            final(self).wf(),
            final(self).generated,
            same_config(*old(self), *final(self)),
            final(self).flags == old(self).flags,
            final(self).placed == old(self).placed,
            same_mines(*old(self), *final(self)),
            forall|i: int, j: int|
                #![trigger final(self).at(i, j)]
                #![trigger old(self).at(i, j)]
                0 <= i < old(self).w() && 0 <= j < old(self).h() ==> {
                    &&& final(self).at(i, j).flag == old(self).at(i, j).flag
                    &&& final(self).at(i, j).opened == (old(self).at(i, j).opened || (old(self).at(
                        i,
                        j,
                    ).bomb != old(self).at(i, j).flag))
                },
            final(self).opened as int == old(self).opened as int + count_in_rect(
                old(self).grid(),
                0,
                old(self).w(),
                0,
                old(self).h(),
                CellPred::ClosedMismatch,
            ),
    {
        let ghost wi = self.w();
        let ghost hi_ = self.h();
        let ghost g0 = self.grid();
        let mut i: i32 = 0;
        while i < self.width
            invariant
                0 <= i <= self.width,
                self.wf(),
                self.generated,
                same_config(*old(self), *self),
                self.flags == old(self).flags,
                self.placed == old(self).placed,
                same_mines(*old(self), *self),
                forall|a: int, b: int|
                    #![trigger self.at(a, b)]
                    #![trigger old(self).at(a, b)]
                    0 <= a < wi && 0 <= b < hi_ ==> {
                        &&& self.at(a, b).flag == old(self).at(a, b).flag
                        &&& self.at(a, b).opened == (old(self).at(a, b).opened || (a < i as int
                            && old(self).at(a, b).bomb != old(self).at(a, b).flag))
                    },
                self.opened as int == old(self).opened as int + count_in_rect(
                    g0,
                    0,
                    i as int,
                    0,
                    hi_,
                    CellPred::ClosedMismatch,
                ),
            decreases self.width - i,
        {
            let mut j: i32 = 0;
            while j < self.height
                invariant
                    0 <= i < self.width,
                    0 <= j <= self.height,
                    self.wf(),
                    self.generated,
                    same_config(*old(self), *self),
                    self.flags == old(self).flags,
                    self.placed == old(self).placed,
                    same_mines(*old(self), *self),
                    forall|a: int, b: int|
                        #![trigger self.at(a, b)]
                        #![trigger old(self).at(a, b)]
                        0 <= a < wi && 0 <= b < hi_ ==> {
                            &&& self.at(a, b).flag == old(self).at(a, b).flag
                            &&& self.at(a, b).opened == (old(self).at(a, b).opened || ((a < i as int
                                || (a == i as int && b < j as int)) && old(self).at(a, b).bomb
                                != old(self).at(a, b).flag))
                        },
                    self.opened as int == old(self).opened as int + count_in_rect(
                        g0,
                        0,
                        i as int,
                        0,
                        hi_,
                        CellPred::ClosedMismatch,
                    ) + count_in_col(g0[i as int], 0, j as int, CellPred::ClosedMismatch),
                decreases self.height - j,
            {
                let c = *self.cell(i, j);
                proof {
                    assert(g0[i as int][j as int] == old(self).at(i as int, j as int));
                    assert(c.bomb == old(self).at(i as int, j as int).bomb);
                    assert(c.flag == old(self).at(i as int, j as int).flag);
                    assert(c.opened == old(self).at(i as int, j as int).opened);
                }
                if (c.bomb && !c.flag || c.flag && !c.bomb) && !c.opened {
                    let ghost pre = *self;
                    proof {
                        lemma_count_rect_missing(
                            pre.grid(),
                            i as int,
                            j as int,
                            0,
                            wi,
                            0,
                            hi_,
                            CellPred::Open,
                        );
                    }
                    let mut c2 = c;
                    c2.opened = true;
                    self.set_cell(i, j, c2);
                    self.opened = self.opened + 1;
                    proof {
                        lemma_open_cell_wf_restore(*self, pre, i as int, j as int, c2);
                        lemma_pointwise_update(pre, *self, i as int, j as int, c2);
                        assert forall|a: int, b: int|
                            #![trigger self.at(a, b)]
                            #![trigger old(self).at(a, b)]
                            0 <= a < wi && 0 <= b < hi_ implies {
                            &&& self.at(a, b).flag == old(self).at(a, b).flag
                            &&& self.at(a, b).bomb == old(self).at(a, b).bomb
                            &&& self.at(a, b).bombs == old(self).at(a, b).bombs
                            &&& self.at(a, b).opened == (old(self).at(a, b).opened || ((a
                                < i as int || (a == i as int && b < j as int + 1)) && old(self).at(
                                a,
                                b,
                            ).bomb != old(self).at(a, b).flag))
                        } by {
                            assert(self.at(a, b) == if a == i as int && b == j as int {
                                c2
                            } else {
                                pre.at(a, b)
                            });
                            assert(pre.at(a, b).flag == old(self).at(a, b).flag);
                        }
                    }
                }
                j = j + 1;
            }
            i = i + 1;
        }
    }

    /// Chain one reveal of the unflagged neighbour `(i, j)` onto an
    /// ongoing chord around an open target.
    proof fn lemma_chord_step(self, o: Field, m: Field, i: int, j: int)
        requires
            o.wf(),
            o.generated,
            opens_keeping_flags(o, m),
            0 <= i < o.w(),
            0 <= j < o.h(),
            !m.at(i, j).flag,
            opens_from(m, self, i, j),
            self.at(i, j).flag == (m.at(i, j).opened && m.at(i, j).flag),
        ensures
            opens_keeping_flags(o, self),
    {
        assert forall|a: int, b: int|
            #![trigger self.at(a, b)]
            #![trigger o.at(a, b)]
            0 <= a < o.w() && 0 <= b < o.h() implies self.at(a, b).flag == o.at(a, b).flag && (o.at(
            a,
            b,
        ).opened ==> self.at(a, b).opened) && self.at(a, b).bomb == o.at(a, b).bomb && self.at(
            a,
            b,
        ).bombs == o.at(a, b).bombs by {
            assert(m.at(a, b) == m.at(a, b));
        }
    }

    /// Carry the chord's boundedness forward over one reveal of the
    /// neighbour `(i, j)`: every cell open in `self` but not in `o`
    /// either lies in the chord's rectangle or neighbours an open
    /// zero-count cell.
    proof fn lemma_chord_bound_step(
        self,
        o: Field,
        m: Field,
        i: int,
        j: int,
        xs: int,
        xe: int,
        ys: int,
        ye: int,
    )
        requires
            o.wf(),
            o.generated,
            opens_keeping_flags(o, m),
            xs <= i < xe,
            ys <= j < ye,
            0 <= i < o.w(),
            0 <= j < o.h(),
            opens_from(m, self, i, j),
            forall|p: int, q: int|
                0 <= p < o.w() && 0 <= q < o.h() && (#[trigger] m.at(p, q)).opened && !o.at(
                    p,
                    q,
                ).opened ==> (xs <= p < xe && ys <= q < ye) || has_zero_neighbor(m, p, q),
        ensures
            forall|p: int, q: int|
                0 <= p < o.w() && 0 <= q < o.h() && (#[trigger] self.at(p, q)).opened && !o.at(
                    p,
                    q,
                ).opened ==> (xs <= p < xe && ys <= q < ye) || has_zero_neighbor(self, p, q),
    {
        assert forall|p: int, q: int|
            0 <= p < o.w() && 0 <= q < o.h() && (#[trigger] self.at(p, q)).opened && !o.at(
            p,
            q,
        ).opened implies (xs <= p < xe && ys <= q < ye) || has_zero_neighbor(self, p, q) by {
            assert(m.at(p, q) == m.at(p, q));
            if m.at(p, q).opened {
                if !(xs <= p < xe && ys <= q < ye) {
                    let (wa, wb) = choose|wa: int, wb: int|
                        0 <= wa < m.w() && 0 <= wb < m.h() && adjacent(wa, wb, p, q) && (
                        #[trigger] m.at(wa, wb)).opened && m.at(wa, wb).bombs == 0;
                    assert(self.at(wa, wb).opened && self.at(wa, wb).bombs == 0);
                }
            } else {
                if p != i || q != j {
                    assert(has_zero_neighbor(self, p, q));
                }
            }
        }
    }

    /// Carry the chord's bookkeeping over one reveal of the neighbour
    /// `(i, j)`: cells opened so far were unflagged beforehand, and any
    /// cell of the chord's rectangle not yet visited (at or past the
    /// current position in ascending `x`-then-`y` order) became open
    /// only through an earlier reveal's flood, next to an open
    /// zero-count cell.
    proof fn lemma_chord_visit_step(
        self,
        o: Field,
        m: Field,
        i: int,
        j: int,
        xs: int,
        xe: int,
        ys: int,
        ye: int,
    )
        requires
            o.wf(),
            o.generated,
            opens_keeping_flags(o, m),
            xs <= i < xe,
            ys <= j < ye,
            0 <= xs,
            xe <= o.w(),
            0 <= ys,
            ye <= o.h(),
            !m.at(i, j).flag,
            opens_from(m, self, i, j),
            forall|p: int, q: int|
                0 <= p < o.w() && 0 <= q < o.h() && (#[trigger] m.at(p, q)).opened && !o.at(
                    p,
                    q,
                ).opened ==> !o.at(p, q).flag,
            forall|p: int, q: int|
                xs <= p < xe && ys <= q < ye && (p > i || (p == i && q >= j)) && (#[trigger] m.at(
                    p,
                    q,
                )).opened && !o.at(p, q).opened ==> has_zero_neighbor(m, p, q),
        ensures
            forall|p: int, q: int|
                0 <= p < o.w() && 0 <= q < o.h() && (#[trigger] self.at(p, q)).opened && !o.at(
                    p,
                    q,
                ).opened ==> !o.at(p, q).flag,
            forall|p: int, q: int|
                xs <= p < xe && ys <= q < ye && (p > i || (p == i && q > j)) && (#[trigger] self.at(
                    p,
                    q,
                )).opened && !o.at(p, q).opened ==> has_zero_neighbor(self, p, q),
    {
        assert forall|p: int, q: int|
            0 <= p < o.w() && 0 <= q < o.h() && (#[trigger] self.at(p, q)).opened && !o.at(
            p,
            q,
        ).opened implies !o.at(p, q).flag by {
            assert(m.at(p, q) == m.at(p, q));
            if !m.at(p, q).opened && (p != i || q != j) {
                assert(!m.at(p, q).flag);
            }
        }
        assert forall|p: int, q: int|
            xs <= p < xe && ys <= q < ye && (p > i || (p == i && q > j)) && (#[trigger] self.at(
            p,
            q,
        )).opened && !o.at(p, q).opened implies has_zero_neighbor(self, p, q) by {
            assert(m.at(p, q) == m.at(p, q));
            if m.at(p, q).opened {
                let (wa, wb) = choose|wa: int, wb: int|
                    0 <= wa < m.w() && 0 <= wb < m.h() && adjacent(wa, wb, p, q) && (#[trigger] m.at(
                        wa,
                        wb,
                    )).opened && m.at(wa, wb).bombs == 0;
                assert(self.at(wa, wb).opened && self.at(wa, wb).bombs == 0);
            } else {
                assert(has_zero_neighbor(self, p, q));
            }
        }
    }

    /// The chorded auto-open.  Acts only on an open cell: when at least
    /// as many cells of its clamped 3x3 neighbourhood are flagged as its
    /// adjacency count, reveals every unflagged neighbour (each through
    /// `open`, cascading as usual), walking the neighbourhood in
    /// ascending `x`, then ascending `y`, and stopping right after the
    /// first reveal that uncovers a mine.  Returns whether a mine was
    /// revealed; only cells unflagged before the call are ever opened.
    #[verifier::loop_isolation(false)]
    #[verifier::rlimit(100)]
    pub fn auto_open(&mut self, x: i32, y: i32) -> (hit: bool)
        requires
            old(self).wf(),
            0 <= x < old(self).width,
            0 <= y < old(self).height,
        ensures
            opens_keeping_flags(*old(self), *final(self)),
            !old(self).at(x as int, y as int).opened ==> same_state(*old(self), *final(self))
                && !hit,
            (old(self).at(x as int, y as int).opened && flags_near(
                old(self).grid(),
                old(self).w(),
                old(self).h(),
                x as int,
                y as int,
            ) < old(self).at(x as int, y as int).bombs) ==> same_state(*old(self), *final(self))
                && !hit,
            hit ==> old(self).at(x as int, y as int).opened && flags_near(
                old(self).grid(),
                old(self).w(),
                old(self).h(),
                x as int,
                y as int,
            ) >= old(self).at(x as int, y as int).bombs,
            hit == (exists|i: int, j: int|
                0 <= i < old(self).w() && 0 <= j < old(self).h() && (#[trigger] final(self).at(
                    i,
                    j,
                )).opened && !old(self).at(i, j).opened && final(self).at(i, j).bomb),
            (old(self).at(x as int, y as int).opened && flags_near(
                old(self).grid(),
                old(self).w(),
                old(self).h(),
                x as int,
                y as int,
            ) >= old(self).at(x as int, y as int).bombs && !hit) ==> (forall|i: int, j: int|
                lo(x as int) <= i < hi(x as int, old(self).w()) && lo(y as int) <= j < hi(
                    y as int,
                    old(self).h(),
                ) && !old(self).at(i, j).flag ==> (#[trigger] final(self).at(i, j)).opened),
            forall|p: int, q: int|
                0 <= p < old(self).w() && 0 <= q < old(self).h() && (#[trigger] final(self).at(
                    p,
                    q,
                )).opened && !old(self).at(p, q).opened ==> (lo(x as int) <= p < hi(
                    x as int,
                    old(self).w(),
                ) && lo(y as int) <= q < hi(y as int, old(self).h())) || has_zero_neighbor(
                    *final(self),
                    p,
                    q,
                ),
            forall|p: int, q: int|
                0 <= p < old(self).w() && 0 <= q < old(self).h() && (#[trigger] final(self).at(
                    p,
                    q,
                )).opened && !old(self).at(p, q).opened ==> !old(self).at(p, q).flag,
            hit ==> (exists|mx: int, my: int|
                lo(x as int) <= mx < hi(x as int, old(self).w()) && lo(y as int) <= my < hi(
                    y as int,
                    old(self).h(),
                ) && !old(self).at(mx, my).flag && !old(self).at(mx, my).opened && (
                #[trigger] final(self).at(mx, my)).opened && final(self).at(mx, my).bomb && (forall|
                    a: int,
                    b: int,
                |
                    lo(x as int) <= a < hi(x as int, old(self).w()) && lo(y as int) <= b < hi(
                        y as int,
                        old(self).h(),
                    ) && (a < mx || (a == mx && b < my)) && !old(self).at(a, b).flag ==> (
                    #[trigger] final(self).at(a, b)).opened) && (forall|a: int, b: int|
                    lo(x as int) <= a < hi(x as int, old(self).w()) && lo(y as int) <= b < hi(
                        y as int,
                        old(self).h(),
                    ) && (a > mx || (a == mx && b > my)) && (#[trigger] final(self).at(
                        a,
                        b,
                    )).opened && !old(self).at(a, b).opened ==> has_zero_neighbor(
                        *final(self),
                        a,
                        b,
                    ))),
    {
        let ghost xi = x as int;
        let ghost yi = y as int;
        let ghost wi = self.w();
        let ghost hi_ = self.h();
        let c = *self.cell(x, y);
        if !c.opened {
            return false;
        }
        proof {
            if !self.generated {
                lemma_count_rect_present(self.grid(), xi, yi, 0, wi, 0, hi_, CellPred::Open);
            }
        }
        let ghost g0 = self.grid();
        let xs: i32 = if x >= 1 {
            x - 1
        } else {
            0
        };
        let xe: i32 = if x <= self.width - 2 {
            x + 2
        } else {
            self.width
        };
        let ys: i32 = if y >= 1 {
            y - 1
        } else {
            0
        };
        let ye: i32 = if y <= self.height - 2 {
            y + 2
        } else {
            self.height
        };
        let mut flagged: i32 = 0;
        let mut i: i32 = xs;
        while i < xe
            invariant
                xs <= i <= xe,
                flagged == count_in_rect(
                    g0,
                    xs as int,
                    i as int,
                    ys as int,
                    ye as int,
                    CellPred::Flagged,
                ),
                0 <= flagged <= 9,
            decreases xe - i,
        {
            let mut j: i32 = ys;
            while j < ye
                invariant
                    xs <= i < xe,
                    ys <= j <= ye,
                    flagged == count_in_rect(
                        g0,
                        xs as int,
                        i as int,
                        ys as int,
                        ye as int,
                        CellPred::Flagged,
                    ) + count_in_col(g0[i as int], ys as int, j as int, CellPred::Flagged),
                    0 <= flagged <= 9,
                decreases ye - j,
            {
                let fc = *self.cell(i, j);
                if fc.flag {
                    proof {
                        lemma_count_rect_bounds(
                            g0,
                            xs as int,
                            i as int,
                            ys as int,
                            ye as int,
                            CellPred::Flagged,
                        );
                        lemma_count_col_bounds(g0[i as int], ys as int, j as int, CellPred::Flagged);
                        assert((i - xs) * (ye - ys) <= 6) by (nonlinear_arith)
                            requires
                                0 <= i - xs <= 2,
                                0 <= ye - ys <= 3,
                        ;
                    }
                    flagged = flagged + 1;
                }
                j = j + 1;
            }
            i = i + 1;
        }
        assert(flagged == flags_near(g0, wi, hi_, xi, yi));
        if flagged >= c.bombs {
            let mut i: i32 = xs;
            while i < xe
                invariant
                    xs <= i <= xe,
                    opens_keeping_flags(*old(self), *self),
                    forall|a: int, b: int|
                        xs as int <= a < xe as int && ys as int <= b < ye as int && a < i as int
                            && !old(self).at(a, b).flag ==> (#[trigger] self.at(a, b)).opened,
                    forall|p: int, q: int|
                        0 <= p < old(self).w() && 0 <= q < old(self).h() && (#[trigger] self.at(
                            p,
                            q,
                        )).opened && !old(self).at(p, q).opened ==> (xs as int <= p < xe as int
                            && ys as int <= q < ye as int) || has_zero_neighbor(*self, p, q),
                    forall|p: int, q: int|
                        0 <= p < old(self).w() && 0 <= q < old(self).h() && (#[trigger] self.at(
                            p,
                            q,
                        )).opened && !old(self).at(p, q).opened ==> !self.at(p, q).bomb,
                    forall|p: int, q: int|
                        0 <= p < old(self).w() && 0 <= q < old(self).h() && (#[trigger] self.at(
                            p,
                            q,
                        )).opened && !old(self).at(p, q).opened ==> !old(self).at(p, q).flag,
                    forall|p: int, q: int|
                        xs as int <= p < xe as int && ys as int <= q < ye as int && p >= i as int
                            && (#[trigger] self.at(p, q)).opened && !old(self).at(p, q).opened
                            ==> has_zero_neighbor(*self, p, q),
                decreases xe - i,
            {
                let mut j: i32 = ys;
                while j < ye
                    invariant
                        xs <= i < xe,
                        ys <= j <= ye,
                        opens_keeping_flags(*old(self), *self),
                        forall|a: int, b: int|
                            xs as int <= a < xe as int && ys as int <= b < ye as int && (a
                                < i as int || (a == i as int && b < j as int)) && !old(self).at(
                                a,
                                b,
                            ).flag ==> (#[trigger] self.at(a, b)).opened,
                        forall|p: int, q: int|
                            0 <= p < old(self).w() && 0 <= q < old(self).h() && (#[trigger] self.at(
                                p,
                                q,
                            )).opened && !old(self).at(p, q).opened ==> (xs as int <= p < xe as int
                                && ys as int <= q < ye as int) || has_zero_neighbor(*self, p, q),
                        forall|p: int, q: int|
                            0 <= p < old(self).w() && 0 <= q < old(self).h() && (#[trigger] self.at(
                                p,
                                q,
                            )).opened && !old(self).at(p, q).opened ==> !self.at(p, q).bomb,
                        forall|p: int, q: int|
                            0 <= p < old(self).w() && 0 <= q < old(self).h() && (#[trigger] self.at(
                                p,
                                q,
                            )).opened && !old(self).at(p, q).opened ==> !old(self).at(p, q).flag,
                        forall|p: int, q: int|
                            xs as int <= p < xe as int && ys as int <= q < ye as int && (p
                                > i as int || (p == i as int && q >= j as int)) && (
                            #[trigger] self.at(p, q)).opened && !old(self).at(p, q).opened
                                ==> has_zero_neighbor(*self, p, q),
                    decreases ye - j,
                {
                    let nc = *self.cell(i, j);
                    if !nc.flag {
                        let ghost prec = *self;
                        if self.open(i, j) {
                            proof {
                                self.lemma_chord_step(*old(self), prec, i as int, j as int);
                                assert(self.at(i as int, j as int).opened && self.at(
                                    i as int,
                                    j as int,
                                ).bomb && !old(self).at(i as int, j as int).opened);
                                self.lemma_chord_bound_step(*old(self), prec, i as int, j as int, xs as int, xe as int, ys as int, ye as int);
                                self.lemma_chord_visit_step(*old(self), prec, i as int, j as int, xs as int, xe as int, ys as int, ye as int);
                                assert(xs as int == lo(xi) && xe as int == hi(xi, old(self).w()));
                                assert(ys as int == lo(yi) && ye as int == hi(yi, old(self).h()));
                                assert(prec.at(i as int, j as int) == prec.at(i as int, j as int));
                                assert(!old(self).at(i as int, j as int).flag);
                                assert forall|a: int, b: int|
                                    xs as int <= a < xe as int && ys as int <= b < ye as int && (a
                                        < i as int || (a == i as int && b < j as int)) && !old(
                                        self,
                                    ).at(a, b).flag implies (#[trigger] self.at(a, b)).opened by {
                                    assert(prec.at(a, b).opened);
                                }
                            }
                            return true;
                        }
                        proof {
                            self.lemma_chord_step(*old(self), prec, i as int, j as int);
                            assert forall|a: int, b: int|
                                xs as int <= a < xe as int && ys as int <= b < ye as int && (a
                                    < i as int || (a == i as int && b < j as int + 1)) && !old(
                                    self,
                                ).at(a, b).flag implies (#[trigger] self.at(a, b)).opened by {
                                assert(prec.at(a, b) == prec.at(a, b));
                                if a == i as int && b == j as int {
                                    assert(self.at(a, b).opened);
                                }
                            }
                            self.lemma_chord_bound_step(*old(self), prec, i as int, j as int, xs as int, xe as int, ys as int, ye as int);
                            assert forall|p: int, q: int|
                                0 <= p < old(self).w() && 0 <= q < old(self).h() && (
                                #[trigger] self.at(p, q)).opened && !old(self).at(p, q).opened
                                implies !self.at(p, q).bomb by {
                                assert(prec.at(p, q) == prec.at(p, q));
                                if !prec.at(p, q).opened {
                                    if p != i as int || q != j as int {
                                        lemma_flood_fill_avoids_mines(
                                            prec,
                                            *self,
                                            i as int,
                                            j as int,
                                            p,
                                            q,
                                        );
                                    }
                                }
                            }
                            self.lemma_chord_visit_step(*old(self), prec, i as int, j as int, xs as int, xe as int, ys as int, ye as int);
                        }
                    }
                    j = j + 1;
                }
                i = i + 1;
            }
            proof {
                assert forall|a: int, b: int|
                    0 <= a < old(self).w() && 0 <= b < old(self).h() && adjacent(xi, yi, a, b)
                        && !old(self).at(a, b).flag implies (#[trigger] self.at(a, b)).opened by {}
                assert(neighbors_opened(*old(self), *self, xi, yi));
            }
        }
        false
    }

    /// Toggle the flag on a closed cell; a no-op on an open cell.
    pub fn flag(&mut self, x: i32, y: i32)
        requires
            old(self).wf(),
            0 <= x < old(self).width,
            0 <= y < old(self).height,
        ensures
            final(self).wf(),
            same_config(*old(self), *final(self)),
            final(self).generated == old(self).generated,
            final(self).opened == old(self).opened,
            final(self).placed == old(self).placed,
            old(self).at(x as int, y as int).opened ==> same_state(*old(self), *final(self)),
            !old(self).at(x as int, y as int).opened ==> {
                &&& final(self).grid() == old(self).grid().update(
                    x as int,
                    old(self).grid()[x as int].update(
                        y as int,
                        Cell { flag: !old(self).at(x as int, y as int).flag, ..old(self).at(x as int, y as int) },
                    ),
                )
                &&& final(self).flags == old(self).flags + if old(self).at(x as int, y as int).flag {
                    -1
                } else {
                    1
                }
            },
            final(self).grid() == flag_toggle(old(self).grid(), x as int, y as int),
            final(self).flags as int == flag_count_toggle(
                old(self).grid(),
                old(self).flags as int,
                x as int,
                y as int,
            ),
    {
        let c = *self.cell(x, y);
        if !c.opened {
            let ghost g0 = self.grid();
            let mut c2 = c;
            c2.flag = !c.flag;
            if !c.flag {
                proof {
                    lemma_count_rect_missing(
                        g0,
                        x as int,
                        y as int,
                        0,
                        self.w(),
                        0,
                        self.h(),
                        CellPred::FlaggedOrOpen,
                    );
                }
                self.set_cell(x, y, c2);
                self.flags = self.flags + 1;
            } else {
                proof {
                    lemma_count_rect_present(
                        g0,
                        x as int,
                        y as int,
                        0,
                        self.w(),
                        0,
                        self.h(),
                        CellPred::Flagged,
                    );
                }
                self.set_cell(x, y, c2);
                self.flags = self.flags - 1;
            }
            proof {
                self.lemma_flag_wf_restore(*old(self), x as int, y as int, c2);
            }
        }
    }

    /// Restore the invariant after `flag` updated the cell at `(x, y)`.
    proof fn lemma_flag_wf_restore(self, pre: Field, x: int, y: int, c2: Cell)
        requires
            pre.wf(),
            0 <= x < pre.w(),
            0 <= y < pre.h(),
            !pre.at(x, y).opened,
            c2 == (Cell { flag: !pre.at(x, y).flag, ..pre.at(x, y) }),
            self.width == pre.width,
            self.height == pre.height,
            self.bombs == pre.bombs,
            self.placed == pre.placed,
            self.opened == pre.opened,
            self.generated == pre.generated,
            self.cells@.len() == pre.cells@.len(),
            self.flags as int == pre.flags as int + if pre.at(x, y).flag {
                -1int
            } else {
                1int
            },
            self.grid() == pre.grid().update(x, pre.grid()[x].update(y, c2)),
        ensures
            self.wf(),
    {
        let w = pre.w();
        let h = pre.h();
        let g0 = pre.grid();
        lemma_count_rect_update(g0, w, h, x, y, c2, 0, w, 0, h, CellPred::Open);
        lemma_count_rect_update(g0, w, h, x, y, c2, 0, w, 0, h, CellPred::Flagged);
        lemma_count_rect_update(g0, w, h, x, y, c2, 0, w, 0, h, CellPred::FlaggedOrOpen);
        lemma_count_rect_update(g0, w, h, x, y, c2, 0, w, 0, h, CellPred::Mine);
        if pre.at(x, y).flag {
            lemma_count_rect_present(g0, x, y, 0, w, 0, h, CellPred::Flagged);
        } else {
            lemma_count_rect_missing(g0, x, y, 0, w, 0, h, CellPred::FlaggedOrOpen);
        }
        if self.generated {
            lemma_counts_correct_preserved(g0, w, h, x, y, c2);
        }
    }
}

/// Relies on rand::thread_rng and rand::Rng::gen_range: returns a value
/// drawn uniformly from `[0, n)`.  The range is non-empty, so the call
/// cannot panic.
#[verifier::external_body]
fn random_below(n: i32) -> (r: i32)
    requires
        1 <= n,
    ensures
        0 <= r < n,
{
    rand::thread_rng().gen_range(0..n)
}

/// After replacing the single cell at `(x, y)` by `c`, every position
/// reads as before except `(x, y)`, which reads `c`.
pub proof fn lemma_pointwise_update(pre: Field, post: Field, x: int, y: int, c: Cell)
    requires
        0 <= x < pre.w(),
        0 <= y < pre.h(),
        post.width == pre.width,
        post.height == pre.height,
        post.grid() == pre.grid().update(x, pre.grid()[x].update(y, c)),
    ensures
        forall|a: int, b: int|
            #![trigger post.at(a, b)]
            0 <= a < pre.w() && 0 <= b < pre.h() ==> post.at(a, b) == if a == x && b == y {
                c
            } else {
                pre.at(a, b)
            },
{
    assert forall|a: int, b: int| 0 <= a < pre.w() && 0 <= b < pre.h() implies #[trigger] post.at(
        a,
        b,
    ) == if a == x && b == y {
        c
    } else {
        pre.at(a, b)
    } by {
        assert(post.grid()[a] == if a == x {
            pre.grid()[x].update(y, c)
        } else {
            pre.grid()[a]
        });
    }
}

/// Chains one recursive reveal onto an ongoing flood-fill: a reveal of
/// the unflagged neighbour `(i, j)` of the open zero-count root `(x, y)`
/// extends the same flood-fill.
pub proof fn lemma_opens_from_trans(o: Field, m: Field, s: Field, x: int, y: int, i: int, j: int)
    requires
        o.wf(),
        0 <= x < o.w(),
        0 <= y < o.h(),
        0 <= i < o.w(),
        0 <= j < o.h(),
        opens_from(o, m, x, y),
        m.at(x, y).opened,
        m.at(x, y).bombs == 0,
        adjacent(x, y, i, j),
        !m.at(i, j).flag,
        opens_from(m, s, i, j),
        !s.at(i, j).flag,
    ensures
        opens_from(o, s, x, y),
        s.at(x, y).opened,
        s.at(x, y).bombs == 0,
{
    assert forall|a: int, b: int|
        #![trigger s.at(a, b)]
        #![trigger o.at(a, b)]
        0 <= a < o.w() && 0 <= b < o.h() implies {
        &&& (o.at(a, b).bomb ==> s.at(a, b).bomb)
        &&& (o.at(a, b).opened ==> s.at(a, b).opened)
        &&& ((a != x || b != y) ==> s.at(a, b).flag == o.at(a, b).flag)
        &&& ((a != x || b != y) && s.at(a, b).opened && !o.at(a, b).opened ==> !o.at(a, b).flag
            && has_zero_neighbor(s, a, b))
    } by {
        assert(m.at(a, b) == m.at(a, b));
        if (a != x || b != y) && s.at(a, b).opened && !o.at(a, b).opened {
            if m.at(a, b).opened {
                // opened during the earlier part: move its witness forward
                let (wa, wb) = choose|wa: int, wb: int|
                    0 <= wa < m.w() && 0 <= wb < m.h() && adjacent(wa, wb, a, b) && (#[trigger] m.at(
                        wa,
                        wb,
                    )).opened && m.at(wa, wb).bombs == 0;
                assert(s.at(wa, wb).opened && s.at(wa, wb).bombs == 0);
            } else if a == i && b == j {
                // the neighbour itself: the root is its witness
                assert(s.at(x, y).opened && s.at(x, y).bombs == 0);
            } else {
                // opened by the recursive reveal, which supplies a witness
                assert(!m.at(a, b).flag && has_zero_neighbor(s, a, b));
            }
        }
    }
}

/// Restore the invariant after a reveal opened the closed cell `(x, y)`
/// (setting it open and unflagged) and incremented the open counter.
pub proof fn lemma_open_cell_wf_restore(post: Field, pre: Field, x: int, y: int, c2: Cell)
    requires
        pre.wf(),
        pre.generated,
        0 <= x < pre.w(),
        0 <= y < pre.h(),
        !pre.at(x, y).opened,
        c2.bomb == pre.at(x, y).bomb,
        c2.bombs == pre.at(x, y).bombs,
        c2.opened,
        c2.flag ==> pre.at(x, y).flag,
        post.width == pre.width,
        post.height == pre.height,
        post.bombs == pre.bombs,
        post.placed == pre.placed,
        post.flags == pre.flags,
        post.generated == pre.generated,
        post.cells@.len() == pre.cells@.len(),
        post.opened == pre.opened + 1,
        post.grid() == pre.grid().update(x, pre.grid()[x].update(y, c2)),
    ensures
        post.wf(),
        post.opened as int <= post.w() * post.h(),
{
    let w = pre.w();
    let h = pre.h();
    let g0 = pre.grid();
    lemma_count_rect_update(g0, w, h, x, y, c2, 0, w, 0, h, CellPred::Open);
    lemma_count_rect_update(g0, w, h, x, y, c2, 0, w, 0, h, CellPred::Flagged);
    lemma_count_rect_update(g0, w, h, x, y, c2, 0, w, 0, h, CellPred::FlaggedOrOpen);
    lemma_count_rect_update(g0, w, h, x, y, c2, 0, w, 0, h, CellPred::Mine);
    lemma_count_rect_missing(g0, x, y, 0, w, 0, h, CellPred::Open);
    lemma_counts_correct_preserved(g0, w, h, x, y, c2);
    lemma_count_rect_bounds(post.grid(), 0, w, 0, h, CellPred::Open);
}

/// A cell next to an open zero-count cell holds no mine: a zero count
/// is exact, so that whole neighbourhood — the cell itself included —
/// is mine-free.
pub proof fn lemma_zero_neighbor_no_mine(s: Field, i: int, j: int)
    requires
        s.wf(),
        s.generated,
        0 <= i < s.w(),
        0 <= j < s.h(),
        has_zero_neighbor(s, i, j),
    ensures
        !s.at(i, j).bomb,
{
    let (a, b) = choose|a: int, b: int|
        0 <= a < s.w() && 0 <= b < s.h() && adjacent(a, b, i, j) && (#[trigger] s.at(a, b)).opened
            && s.at(a, b).bombs == 0;
    assert(s.grid()[a][b] == s.at(a, b));
    assert(s.at(a, b).bombs == mines_near(s.grid(), s.w(), s.h(), a, b));
    if s.at(i, j).bomb {
        assert(s.grid()[i][j] == s.at(i, j));
        lemma_count_rect_present(
            s.grid(),
            i,
            j,
            lo(a),
            hi(a, s.w()),
            lo(b),
            hi(b, s.h()),
            CellPred::Mine,
        );
    }
}

/// The flood-fill never reveals a mine.  Any cell a reveal opened
/// beyond its root neighbours an open zero-count cell, so it is
/// mine-free.  A reveal therefore reports a mine only for the cell it
/// was aimed at.
pub proof fn lemma_flood_fill_avoids_mines(o: Field, s: Field, x: int, y: int, i: int, j: int)
    requires
        o.wf(),
        opens_from(o, s, x, y),
        0 <= i < o.w(),
        0 <= j < o.h(),
        i != x || j != y,
        s.at(i, j).opened,
        !o.at(i, j).opened,
    ensures
        !s.at(i, j).bomb,
{
    lemma_zero_neighbor_no_mine(s, i, j);
}

/// Updating a cell without changing its mine bit or its stored count
/// keeps every stored adjacency count exact.
pub proof fn lemma_counts_correct_preserved(g: Seq<Seq<Cell>>, w: int, h: int, a: int, b: int, c: Cell)
    requires
        grid_shape(g, w, h),
        counts_correct(g, w, h),
        0 <= a < w,
        0 <= b < h,
        c.bomb == g[a][b].bomb,
        c.bombs == g[a][b].bombs,
    ensures
        counts_correct(g.update(a, g[a].update(b, c)), w, h),
{
    let g2 = g.update(a, g[a].update(b, c));
    assert forall|x: int, y: int| 0 <= x < w && 0 <= y < h implies (#[trigger] g2[x][y]).bombs
        == mines_near(g2, w, h, x, y) by {
        lemma_count_rect_update(g, w, h, a, b, c, lo(x), hi(x, w), lo(y), hi(y, h), CellPred::Mine);
        if x == a && y == b {
        } else {
            assert(g2[x][y] == g[x][y]);
        }
    }
}

} // verus!
