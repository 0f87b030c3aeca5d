use puzzle_games::sudoku::play::{empty_count, error_count};
use puzzle_games::sudoku::board::Board;
use puzzle_games::sudoku::generator::{difficulty_from_str, generate, Difficulty};
use puzzle_games::sudoku::solver::{count_solutions, solve, verify, verify_partial};

#[test]
fn test_solve_empty_board() {
    let mut board = Board::new();
    assert!(solve(&mut board));
    assert!(verify(&board));
}

#[test]
fn test_verify_invalid() {
    let mut board = Board::new();
    board.set(0, 0, 1);
    board.set(0, 1, 1);
    assert!(!verify_partial(&board));
}

#[test]
fn solved_board_is_consistent() {
    let mut board = Board::new();
    assert!(solve(&mut board));
    assert!(verify_partial(&board));
    assert!(board.is_complete());
}

#[test]
fn empty_board_has_many_solutions() {
    let mut board = Board::new();
    assert_eq!(count_solutions(&mut board, 2), 2);
    assert_eq!(board.to_flat_array(), vec![0u8; 81]);
}

#[test]
fn solving_keeps_given_cells() {
    let mut board = Board::new();
    board.set(4, 4, 7);
    board.set(0, 8, 3);
    assert!(solve(&mut board));
    assert_eq!(board.get(4, 4), 7);
    assert_eq!(board.get(0, 8), 3);
    assert!(verify(&board));
}

#[test]
fn contradictory_board_has_no_solution() {
    let mut board = Board::new();
    // Row 0 holds 1..=8 in columns 0..8, and column 8 holds a 9 lower down.
    for c in 0..8 {
        board.set(0, c, (c + 1) as u8);
    }
    board.set(5, 8, 9);
    let before = board.to_flat_array();
    assert_eq!(count_solutions(&mut board, 2), 0);
    assert!(!solve(&mut board));
    assert_eq!(board.to_flat_array(), before);
}

#[test]
fn candidates_and_placement() {
    let mut board = Board::new();
    board.set(0, 0, 5);
    assert!(!board.is_valid_placement(0, 8, 5));
    assert!(!board.is_valid_placement(8, 0, 5));
    assert!(!board.is_valid_placement(2, 2, 5));
    assert!(board.is_valid_placement(3, 3, 5));
    assert_eq!(board.candidates(0, 0), Vec::<u8>::new());
    assert_eq!(board.candidates(1, 1), vec![1, 2, 3, 4, 6, 7, 8, 9]);
}

#[test]
fn flat_array_round_trip() {
    let mut board = Board::new();
    board.set(3, 7, 6);
    let flat = board.to_flat_array();
    assert_eq!(flat[3 * 9 + 7], 6);
    let back = Board::from_flat_array(&flat).unwrap();
    assert_eq!(back.get(3, 7), 6);
    assert!(Board::from_flat_array(&flat[..80]).is_none());
}

#[test]
fn box_copy_and_index() {
    let mut src = Board::new();
    src.set(6, 6, 1);
    src.set(8, 8, 9);
    let mut dst = Board::new();
    src.copy_box_to(8, &mut dst, 0);
    assert_eq!(dst.get(0, 0), 1);
    assert_eq!(dst.get(2, 2), 9);
    assert_eq!(dst.get(3, 3), 0);
    assert_eq!(Board::box_index(4, 7), 5);
    assert_eq!(puzzle_games::sudoku::board::box_origin(7), (6, 3));
}

#[test]
fn difficulty_names_ignore_case() {
    assert!(matches!(difficulty_from_str("EASY"), Difficulty::Easy));
    assert!(matches!(difficulty_from_str("Hard"), Difficulty::Hard));
    assert!(matches!(difficulty_from_str("medium"), Difficulty::Medium));
    assert!(matches!(difficulty_from_str("whatever"), Difficulty::Medium));
}

#[test]
fn generated_puzzle_is_unique_and_matches_solution() {
    let (puzzle, solution) = generate(Difficulty::Easy);
    assert!(verify(&solution));
    let mut zeros = 0;
    for r in 0..9 {
        for c in 0..9 {
            let v = puzzle.get(r, c);
            if v == 0 {
                zeros += 1;
            } else {
                assert_eq!(v, solution.get(r, c));
            }
        }
    }
    assert!(zeros <= 36);
    let mut test = puzzle;
    assert_eq!(count_solutions(&mut test, 2), 1);
}

#[test]
fn counts_of_errors_and_blanks() {
    let mut solution = Board::new();
    assert!(solve(&mut solution));
    let mut current = Board::new();
    assert_eq!(empty_count(&current), 81);
    current.set(0, 0, solution.get(0, 0));
    current.set(0, 1, if solution.get(0, 1) == 9 { 1 } else { solution.get(0, 1) + 1 });
    assert_eq!(empty_count(&current), 79);
    assert_eq!(error_count(&current, &solution), 1);
}
