pub mod digits;
pub mod grid;
pub mod sudoku;
