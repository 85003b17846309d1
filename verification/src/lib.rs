//! Scanning and debouncing of a keyboard wired as a column/row matrix.
//!
//! A [`KeyMatrix`] owns one driver for the column lines and one for the row
//! lines, together with one saturating counter per key. Each call of
//! [`KeyMatrix::poll`] scans the whole matrix once; [`KeyMatrix::current_state`]
//! reports a key as pressed once its counter has risen above the threshold.
//!
//! * [`debounce`] holds the arithmetic of a single counter.
//! * [`drivers`] holds the two capabilities a board has to provide.
//! * [`scan`] is the mathematical model of one scan.
//! * [`pairing`] proves that a scan activates one column at a time.
//! * [`matrix`] holds the engine itself.

pub mod debounce;
pub mod drivers;
pub mod matrix;
pub mod pairing;
pub mod scan;

pub use crate::drivers::KeyColumns;
pub use crate::drivers::KeyRows;
pub use crate::matrix::KeyMatrix;
