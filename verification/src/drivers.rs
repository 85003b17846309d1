//! The two capabilities that a board provides.
//!
//! The engine knows nothing of pins. It asks a [`KeyColumns`] to activate and
//! deactivate one column line at a time, and a [`KeyRows`] to tell whether a
//! row line is asserted while a column is active. Both do plain hardware
//! I/O, so nothing is promised of what a request returns: each may succeed or
//! fail, and a row may read either way.
//!
//! What is fixed is what the engine may ask. An index out of range is a bug
//! of the caller, so every request requires its index to be in range, and
//! an implementation need not check it.

use vstd::prelude::*;

verus! {

/// The column lines of a matrix with `N` columns.
pub trait KeyColumns<const N: usize> {
    /// Returns the number of columns, `N`.
    fn size(&self) -> (n: usize)
        ensures
            n == N,
    ;

    /// Activates the line of column `col`, and no other line. Fails if the
    /// hardware does.
    fn enable_column(&mut self, col: usize) -> (r: Result<(), ()>)
        requires
            col < N,
    ;

    /// Deactivates the line of column `col`, and no other line. Fails if the
    /// hardware does.
    fn disable_column(&mut self, col: usize) -> (r: Result<(), ()>)
        requires
            col < N,
    ;
}

/// The row lines of a matrix with `N` rows.
pub trait KeyRows<const N: usize> {
    /// Returns the number of rows, `N`.
    fn size(&self) -> (n: usize)
        ensures
            n == N,
    ;

    /// Samples the line of row `row`, and no other line: `true` if the line
    /// is asserted at this moment, which it is where a pressed key connects
    /// it to the column that is active. Fails if the hardware does.
    fn read_row(&mut self, row: usize) -> (r: Result<bool, ()>)
        requires
            row < N,
    ;
}

} // verus!
