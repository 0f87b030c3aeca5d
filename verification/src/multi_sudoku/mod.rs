pub mod generator;
pub mod multi_board;
pub use crate::sudoku::{board, solver};
pub mod session;
pub mod look;
