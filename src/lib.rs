//! A 9x9 Sudoku grid that tracks which digits each row, column and square
//! holds, and a backtracking solver over it.
pub mod bitmask;
pub mod grid;
pub mod solver;
pub mod text;
