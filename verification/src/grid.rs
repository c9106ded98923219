//! Square tables held in `ndarray` arrays.
//!
//! Verus cannot look inside an `ndarray::Array2`, so each table is kept behind
//! a handle whose contents are named by a specification function. Every
//! function in this file that touches the array is trusted: its contract
//! restates what `ndarray` documents, and nothing checks it.

use crate::simulation::Cell;
use ndarray::Array2;
use vstd::prelude::*;

verus! {

/// A table of bytes, stored in an `ndarray::Array2<u8>`.
#[verifier::external_body]
#[derive(Debug)]
pub struct ByteGrid {
    cells: Array2<u8>,
}

/// The rows of a byte table, first row first, each row from its first column on.
pub uninterp spec fn byte_rows(grid: ByteGrid) -> Seq<Seq<u8>>;

impl ByteGrid {
    /// Calls `Array2::from_elem((side, side), value)`, which builds a table of
    /// `side` rows and `side` columns with `value` in every place. `ndarray`
    /// panics when the number of places exceeds `isize::MAX`; the precondition
    /// rules that out.
    #[verifier::external_body]
    pub(crate) fn filled(side: usize, value: u8) -> (grid: ByteGrid)
        requires
            side * side <= isize::MAX,
        ensures
            byte_rows(grid) == Seq::new(side as nat, |i: int| Seq::new(side as nat, |j: int| value)),
    {
        ByteGrid { cells: Array2::from_elem((side, side), value) }
    }

    /// Reads `self[[i, j]]` through `ndarray`'s `Index`: the entry in row `i`,
    /// column `j`. `ndarray` panics on an index outside the table; the
    /// precondition rules that out.
    #[verifier::external_body]
    pub(crate) fn get(&self, i: usize, j: usize) -> (value: u8)
        requires
            i < byte_rows(*self).len(),
            j < byte_rows(*self)[i as int].len(),
        ensures
            value == byte_rows(*self)[i as int][j as int],
    {
        self.cells[[i, j]]
    }

    /// Calls `Array2::clone`, which builds a second table with the same
    /// shape and the same entries.
    #[verifier::external_body]
    pub(crate) fn copy(&self) -> (copy: ByteGrid)
        ensures
            byte_rows(copy) == byte_rows(*self),
    {
        ByteGrid { cells: self.cells.clone() }
    }

    /// Writes `self[[i, j]] = value` through `ndarray`'s `IndexMut`: the entry
    /// in row `i`, column `j` becomes `value` and every other entry stays.
    /// `ndarray` panics on an index outside the table; the precondition rules
    /// that out.
    #[verifier::external_body]
    pub(crate) fn set(&mut self, i: usize, j: usize, value: u8)
        requires
            i < byte_rows(*old(self)).len(),
            j < byte_rows(*old(self))[i as int].len(),
        ensures
            byte_rows(*final(self)) == byte_rows(*old(self)).update(
                i as int,
                byte_rows(*old(self))[i as int].update(j as int, value),
            ),
    {
        self.cells[[i, j]] = value;
    }
}

/// A table of outer cells, stored in an `ndarray::Array2<Cell>`.
#[verifier::external_body]
#[derive(Debug)]
pub struct CellGrid {
    cells: Array2<Cell>,
}

/// The rows of a table of cells, first row first, each row from its first
/// column on.
pub uninterp spec fn cell_rows(grid: CellGrid) -> Seq<Seq<Cell>>;

/// Whether a world of `side` rows can be held in memory. Nothing kept per
/// outer cell takes more than 32 bytes, and no allocation may exceed
/// `isize::MAX` bytes.
pub open spec fn world_fits(side: usize) -> bool {
    side * side <= isize::MAX / 32
}

impl CellGrid {
    /// Calls `Array2::from_shape_fn((side, side), ..)` with a function that
    /// gives an empty cell for every index, which builds a table of `side`
    /// rows and `side` columns of empty cells. `ndarray` panics when the
    /// number of places exceeds `isize::MAX`, and the vector behind the table
    /// when its bytes do; the precondition rules both out.
    #[verifier::external_body]
    pub(crate) fn vacant(side: usize) -> (grid: CellGrid)
        requires
            world_fits(side),
        ensures
            cell_rows(grid) == Seq::new(
                side as nat,
                |i: int| Seq::new(side as nat, |j: int| Cell::Empty),
            ),
    {
        CellGrid { cells: Array2::from_shape_fn((side, side), |_| Cell::vacant()) }
    }

    /// Borrows `self[[i, j]]` through `ndarray`'s `Index`: the cell in row
    /// `i`, column `j`. `ndarray` panics on an index outside the table; the
    /// precondition rules that out.
    #[verifier::external_body]
    pub(crate) fn get(&self, i: usize, j: usize) -> (cell: &Cell)
        requires
            i < cell_rows(*self).len(),
            j < cell_rows(*self)[i as int].len(),
        ensures
            *cell == cell_rows(*self)[i as int][j as int],
    {
        &self.cells[[i, j]]
    }

    /// Calls `std::mem::replace` on `self[[i, j]]`, reached through
    /// `ndarray`'s `IndexMut`: the cell in row `i`, column `j` becomes `cell`,
    /// the one that was there is handed back, and every other cell stays.
    /// `ndarray` panics on an index outside the table; the precondition rules
    /// that out.
    #[verifier::external_body]
    pub(crate) fn replace(&mut self, i: usize, j: usize, cell: Cell) -> (previous: Cell)
        requires
            i < cell_rows(*old(self)).len(),
            j < cell_rows(*old(self))[i as int].len(),
        ensures
            previous == cell_rows(*old(self))[i as int][j as int],
            cell_rows(*final(self)) == cell_rows(*old(self)).update(
                i as int,
                cell_rows(*old(self))[i as int].update(j as int, cell),
            ),
    {
        std::mem::replace(&mut self.cells[[i, j]], cell)
    }
}

} // verus!
