//! A coordinate identifying one cell of a grid.

use vstd::prelude::*;

verus! {

/// A position within a puzzle: row and column, both zero-based.
///
/// A plain value type: equal positions are interchangeable, and a
/// position is never mutated after creation.
#[derive(Debug, PartialEq, Eq, Clone, Copy, Structural)]
pub struct Position {
    pub row: usize,
    pub col: usize,
}

/// Whether `pos` addresses a cell of a square grid of side `n`.
pub open spec fn in_bounds(pos: Position, n: nat) -> bool {
    pos.row < n && pos.col < n
}

} // verus!
