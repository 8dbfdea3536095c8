//! A backtracking solver for 9×9 Sudoku grids.
//!
//! The solver keeps, for every row, column and box, the set of digits that
//! may still be placed there, picks the open cell with the fewest remaining
//! candidates, and searches depth-first, either by recursion or with an
//! explicit stack of frames.
pub mod addr;
pub mod bitvec;
pub mod board;
pub mod bytepair;
pub mod domain;
pub mod enumerate;
pub mod iterative;
pub mod laws;
pub mod load;
pub mod mask16;
pub mod naive;
pub mod nineset;
pub mod render;
pub mod rules;
pub mod search;
pub mod select;
