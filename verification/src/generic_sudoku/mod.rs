pub mod config;
pub mod fingerprint;
pub mod generator;
pub mod generic_board;
pub mod storage;
pub use crate::sudoku::{board, solver};
pub mod session;
pub mod editor;
pub mod look;
