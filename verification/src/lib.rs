pub mod sudoku;
pub mod utils;
pub mod sequential;
pub mod parallel;
pub mod concurrent;
