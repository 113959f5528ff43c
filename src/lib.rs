//! A 9x9 Sudoku solver: a small set type over the digits 1..=9, a fixed 9x9
//! grid of optional cells, and a solver that combines constraint propagation
//! with backtracking search.
pub mod nine_by_nine;
pub mod nine_set;
pub mod puzzle;
