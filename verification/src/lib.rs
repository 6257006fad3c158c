//! An in-memory index of named types, their declaration sites and their
//! cross-references, together with a cycle-safe depth-first cursor that
//! enumerates everything a type transitively depends on.

pub mod extract;
pub mod index;

use vstd::prelude::*;

verus! {

/// A zero-based row/column position inside a source file.
#[derive(Clone, Copy, Debug, PartialEq, Eq, Structural)]
pub struct Point {
    pub row: usize,
    pub column: usize,
}

impl Point {
    pub fn new(row: usize, column: usize) -> (p: Point)
        ensures
            p.row == row,
            p.column == column,
    {
        Point { row, column }
    }
}

} // verus!

