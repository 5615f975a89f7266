//! A 9x9 Sudoku board: a grid of optional digit cells with single-cell
//! mutation, structural validity checking over rows, columns and 3x3 boxes,
//! and a backtracking solver that completes the grid or reports that no
//! completion exists.

pub mod board;
pub mod model;
