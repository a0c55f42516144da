//! Zero-based terminal-cell coordinates shared by the views.

use vstd::prelude::*;

verus! {

/// A `(row, col)` pair in zero-based terminal cells.
#[derive(Debug, Clone, Copy, PartialEq, Eq, Structural)]
pub struct Position {
    pub row: usize,
    pub col: usize,
}

} // verus!
