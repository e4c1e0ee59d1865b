//! A Minesweeper engine: a grid of cells with deferred random mine
//! placement, adjacency counting, flood-opening of empty regions, flag
//! bookkeeping and the chorded auto-open move.  Every operation carries a
//! contract describing exactly how it changes the field.

pub mod cell;
pub mod counting;
pub mod field;
pub mod laws;

pub use cell::Cell;
pub use cell::CellPred;
pub use field::Field;
pub use field::FieldError;
