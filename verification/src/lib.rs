pub mod entropy;
pub mod generic_sudoku;
pub mod hex_puzzle;
pub mod keys;
pub mod merge_game;
pub mod multi_sudoku;
pub mod number_match;
pub mod records;
pub mod sudoku;
pub mod text;
pub mod water_sort;
pub mod xorshift;
