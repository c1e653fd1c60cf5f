//! A generalized square-grid constraint puzzle (variable-size sudoku).
//!
//! The crate models a square grid of symbols together with the three
//! constraint groups (row, column, sub-box) any cell belongs to. The
//! [`Sudoku`] trait is the capability contract every grid representation
//! satisfies: a handful of required primitives (indexed cell access and
//! row/column/box membership) from which the derived queries
//! (`possibilities`, `conflicts`, element lookups) are built once, as
//! verified default methods. [`Dynamic`] is a concrete representation
//! storing the whole grid as one flat vector, sized at construction from
//! its input, and answering the membership queries by index arithmetic.

pub mod position;
pub mod group;
pub mod sudoku_trait;
pub mod dynamic;

pub use position::Position;
pub use group::Group;
pub use group::GroupIter;
pub use sudoku_trait::Sudoku;
pub use sudoku_trait::SudokuError;
pub use dynamic::Dynamic;
