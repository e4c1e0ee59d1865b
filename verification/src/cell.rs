use vstd::prelude::*;

verus! {

/// One grid position.  `bombs` is the number of mines in the clamped 3x3
/// neighbourhood around the cell (itself included); it is meaningful only
/// once mine generation has run.
#[derive(Clone, Copy, PartialEq, Eq, Structural, Debug)]
pub struct Cell {
    pub bomb: bool,
    pub bombs: i32,
    pub opened: bool,
    pub flag: bool,
}

impl Cell {
    /// A fresh cell: closed, unflagged, mine-free, zero adjacency count.
    pub fn new() -> (c: Cell)
        ensures
            c == (Cell { bomb: false, bombs: 0, opened: false, flag: false }),
    {
        Cell { bomb: false, bombs: 0, opened: false, flag: false }
    }
}

/// A property of a single cell.  The counting functions of `counting` are
/// parameterised by such a property, so that one set of lemmas covers all
/// the cell counts the field keeps (mines, open cells, flags).
pub enum CellPred {
    Mine,
    NotMine,
    Open,
    Flagged,
    FlaggedOrOpen,
    /// Closed, with the flag state disagreeing with the mine state: an
    /// unflagged mine or a flag on a non-mine — what the end-of-game
    /// sweep opens.
    ClosedMismatch,
}

impl CellPred {
    /// Whether the cell `c` has the property.
    pub open spec fn holds(self, c: Cell) -> bool {
        match self {
            CellPred::Mine => c.bomb,
            CellPred::NotMine => !c.bomb,
            CellPred::Open => c.opened,
            CellPred::Flagged => c.flag,
            CellPred::FlaggedOrOpen => c.flag || c.opened,
            CellPred::ClosedMismatch => !c.opened && c.bomb != c.flag,
        }
    }

    /// 1 if the cell has the property, else 0.
    pub open spec fn ind(self, c: Cell) -> int {
        if self.holds(c) {
            1
        } else {
            0
        }
    }
}

} // verus!
