use puzzle_games::multi_sudoku::board::Board;
use puzzle_games::multi_sudoku::generator::{difficulty_from_str, generate, Difficulty};
use puzzle_games::multi_sudoku::multi_board::{board_offset, MultiBoard};
use puzzle_games::multi_sudoku::solver::{solve, verify};

#[test]
fn solver_test_solve_empty_board() {
    let mut board = Board::new();
    assert!(solve(&mut board));
    assert!(verify(&board));
}

#[test]
fn owners_and_coordinates() {
    assert_eq!(MultiBoard::owning_boards(7, 7), vec![0, 1]);
    assert_eq!(MultiBoard::owning_boards(13, 14), vec![1, 2]);
    assert_eq!(MultiBoard::owning_boards(0, 20), Vec::<usize>::new());
    assert!(MultiBoard::is_active(20, 20));
    assert!(!MultiBoard::is_active(0, 10));
    assert!(MultiBoard::is_overlap(12, 12));
    assert!(!MultiBoard::is_overlap(10, 10));
    assert_eq!(MultiBoard::grid_to_local(2, 15, 20), (3, 8));
    assert_eq!(MultiBoard::box_index_for_board(1, 14, 8), 6);
    assert_eq!(board_offset(2), (12, 12));
}

#[test]
fn set_writes_every_covering_board() {
    let mut m = MultiBoard::new();
    m.set(8, 6, 3);
    assert_eq!(m.boards[0].get(8, 6), 3);
    assert_eq!(m.boards[1].get(2, 0), 3);
    assert_eq!(m.get(8, 6), 3);
    assert!(!m.is_empty(8, 6));
    assert_eq!(m.get(0, 20), 0);
    assert_eq!(m.empty_count(), 3 * 81 - 2 * 9 - 1);
    let mut sol = MultiBoard::new();
    sol.set(8, 6, 4);
    assert_eq!(m.error_count(&sol), 1);
    assert!(!m.is_solved());
}

#[test]
fn sync_copies_shared_boxes_forward() {
    let mut m = MultiBoard::new();
    let mut b0 = Board::new();
    b0.set(6, 6, 9);
    m.boards[0] = b0;
    let mut b1 = Board::new();
    b1.set(8, 8, 4);
    m.boards[1] = b1;
    m.sync_overlaps();
    assert_eq!(m.boards[1].get(0, 0), 9);
    assert_eq!(m.boards[2].get(2, 2), 4);
}

#[test]
fn multi_difficulty_names() {
    assert!(matches!(difficulty_from_str("easy"), Difficulty::Easy));
    assert!(matches!(difficulty_from_str("hard"), Difficulty::Hard));
    assert!(matches!(difficulty_from_str("Hard"), Difficulty::Medium));
}

#[test]
fn generated_chain_is_solved_and_consistent() {
    let (puzzle, solution) = generate(Difficulty::Easy);
    assert!(solution.is_solved());
    for b in 0..2 {
        for r in 0..3 {
            for c in 0..3 {
                assert_eq!(solution.boards[b].get(6 + r, 6 + c), solution.boards[b + 1].get(r, c));
                assert_eq!(puzzle.boards[b].get(6 + r, 6 + c), puzzle.boards[b + 1].get(r, c));
            }
        }
    }
    for b in 0..3 {
        for r in 0..9 {
            for c in 0..9 {
                let v = puzzle.boards[b].get(r, c);
                assert!(v == 0 || v == solution.boards[b].get(r, c));
            }
        }
    }
}

#[test]
fn next_active_skips_inactive_cells() {
    assert_eq!(MultiBoard::next_active(0, 8, 0, 1), None);
    assert_eq!(MultiBoard::next_active(6, 8, 0, 1), Some((6, 9)));
    assert_eq!(MultiBoard::next_active(14, 20, -1, 0), Some((13, 20)));
    assert_eq!(MultiBoard::next_active(0, 0, -1, 0), None);
    assert_eq!(MultiBoard::next_active(8, 0, 1, 0), None);
}
