use puzzle_games::number_match::grid::digit_class;
use puzzle_games::number_match::grid::{Cell, Grid, Rng};
use puzzle_games::number_match::session::NumberMatchGame;
use puzzle_games::number_match::storage::{format_time, record_abandon, record_win, GameStats};

#[test]
fn test_same_row_match() {
    let mut cells = vec![Cell::Digit(1), Cell::Empty, Cell::Empty, Cell::Digit(1)];
    for _ in 4..9 {
        cells.push(Cell::Digit(5));
    }
    let grid = Grid { cells, rows: 1 };
    assert!(grid.is_valid_match(0, 3));
}

#[test]
fn test_same_row_blocked() {
    let mut cells = vec![Cell::Digit(1), Cell::Digit(2), Cell::Empty, Cell::Digit(1)];
    for _ in 4..9 {
        cells.push(Cell::Digit(5));
    }
    let grid = Grid { cells, rows: 1 };
    assert!(!grid.is_valid_match(0, 3));
}

#[test]
fn test_sum_to_10() {
    let mut cells = vec![Cell::Digit(3), Cell::Empty, Cell::Digit(7)];
    for _ in 3..9 {
        cells.push(Cell::Digit(5));
    }
    let grid = Grid { cells, rows: 1 };
    assert!(grid.is_valid_match(0, 2));
}

#[test]
fn test_same_column_match() {
    let mut cells = vec![Cell::Empty; 18];
    cells[0] = Cell::Digit(4);
    cells[9] = Cell::Digit(4);
    let grid = Grid { cells, rows: 2 };
    assert!(grid.is_valid_match(0, 9));
}

#[test]
fn test_linear_wrap_match() {
    let mut cells = vec![Cell::Empty; 18];
    cells[8] = Cell::Digit(3);
    cells[9] = Cell::Digit(7);
    let grid = Grid { cells, rows: 2 };
    assert!(grid.is_valid_match(8, 9));
}

#[test]
fn test_linear_wrap_with_empties() {
    let mut cells = vec![Cell::Empty; 18];
    cells[7] = Cell::Digit(3);
    cells[10] = Cell::Digit(7);
    let grid = Grid { cells, rows: 2 };
    assert!(grid.is_valid_match(7, 10));
}

#[test]
fn test_is_cleared() {
    let grid = Grid { cells: vec![Cell::Empty; 9], rows: 1 };
    assert!(grid.is_cleared());
}

#[test]
fn test_has_valid_match() {
    let mut cells = vec![Cell::Digit(5); 9];
    cells[1] = Cell::Empty;
    let grid = Grid { cells, rows: 1 };
    assert!(grid.has_valid_match());
}

#[test]
fn test_no_self_match() {
    let cells = vec![Cell::Digit(5); 9];
    let grid = Grid { cells, rows: 1 };
    assert!(!grid.is_valid_match(0, 0));
}

#[test]
fn test_diagonal_main_match() {
    let mut cells = vec![Cell::Empty; 27];
    cells[0] = Cell::Digit(3);
    cells[20] = Cell::Digit(3);
    let grid = Grid { cells, rows: 3 };
    assert!(grid.is_valid_match(0, 20));
}

#[test]
fn test_diagonal_anti_match() {
    let mut cells = vec![Cell::Empty; 27];
    cells[18] = Cell::Digit(4);
    cells[2] = Cell::Digit(6);
    let grid = Grid { cells, rows: 3 };
    assert!(grid.is_valid_match(2, 18));
}

#[test]
fn test_diagonal_blocked() {
    let mut cells = vec![Cell::Empty; 27];
    cells[0] = Cell::Digit(5);
    cells[10] = Cell::Digit(2);
    cells[20] = Cell::Digit(5);
    let grid = Grid { cells, rows: 3 };
    assert!(!grid.is_valid_match(0, 20));
}

#[test]
fn grid_from_digits_pads_last_row() {
    let grid = Grid::new(&[1, 2, 3, 4, 5, 6, 7, 8, 9, 1, 2]);
    assert_eq!(grid.rows, 2);
    assert_eq!(grid.total_cells(), 18);
    assert_eq!(grid.get(10), Cell::Digit(2));
    assert_eq!(grid.get(11), Cell::Empty);
    assert_eq!(grid.get(100), Cell::Empty);
    assert_eq!(grid.remaining_count(), 11);
    assert_eq!(grid.to_rc(10), (1, 1));
    assert_eq!(grid.to_idx(1, 1), 10);
}

#[test]
fn trailing_empty_rows_are_dropped_but_one_stays() {
    let mut grid = Grid { cells: vec![Cell::Empty; 27], rows: 3 };
    grid.set(4, Cell::Digit(3));
    grid.trim_trailing_empty_rows();
    assert_eq!(grid.rows, 1);
    assert_eq!(grid.cells.len(), 9);
    let mut empty = Grid { cells: vec![Cell::Empty; 18], rows: 2 };
    empty.trim_trailing_empty_rows();
    assert_eq!(empty.rows, 1);
}

#[test]
fn hint_is_the_first_match() {
    let mut cells = vec![Cell::Digit(1); 9];
    cells[0] = Cell::Digit(2);
    cells[1] = Cell::Digit(3);
    cells[4] = Cell::Digit(7);
    let grid = Grid { cells, rows: 1 };
    // (0,1): 2 and 3 no; (1,2): 3 and 1 no; (2,3): 1 and 1 yes.
    assert_eq!(grid.find_hint(), Some((2, 3)));
    let none = Grid { cells: vec![Cell::Digit(1), Cell::Digit(2), Cell::Digit(1), Cell::Digit(2), Cell::Digit(1), Cell::Digit(2), Cell::Digit(1), Cell::Digit(2), Cell::Digit(4)], rows: 1 };
    assert_eq!(none.find_hint(), None);
    assert!(!none.has_valid_match());
}

#[test]
fn generated_rows_hold_digits() {
    let mut rng = Rng::new(99);
    let grid = Grid::generate(4, &mut rng);
    assert_eq!(grid.rows, 4);
    assert_eq!(grid.cells.len(), 36);
    for v in grid.to_flat() {
        assert!((1..=9).contains(&v));
    }
    let mut rng2 = Rng::new(99);
    assert_eq!(Grid::generate(4, &mut rng2).to_flat(), grid.to_flat());
}

#[test]
fn session_match_and_undo() {
    let mut game = NumberMatchGame::with_rng(3, Rng::new(5));
    assert_eq!(game.rows(), 3);
    assert_eq!(game.cols(), 9);
    assert_eq!(game.remaining(), 27);
    let before = game.grid_values();
    let hint = game.hint();
    if let Some((a, b)) = hint {
        assert!(game.is_valid_match(a, b));
        assert!(game.make_match(a, b));
        assert_eq!(game.score(), 10);
        assert_eq!(game.matches_made(), 1);
        assert_eq!(game.cell_value(a), 0);
        assert_eq!(game.undo_count(), 1);
        assert!(game.undo());
        assert_eq!(game.grid_values(), before);
        assert_eq!(game.score(), 0);
        assert_eq!(game.matches_made(), 0);
    }
    assert!(!game.undo());
}

#[test]
fn session_add_row_and_limit() {
    let mut game = NumberMatchGame::with_rng(2, Rng::new(8));
    assert!(game.add_row());
    assert_eq!(game.rows(), 3);
    assert_eq!(game.score(), -20);
    assert_eq!(game.rows_added(), 1);
    assert!(game.undo());
    assert_eq!(game.rows(), 2);
    assert_eq!(game.score(), 0);
    while game.rows() < 50 {
        assert!(game.add_row());
    }
    assert!(!game.add_row());
    assert!(game.is_over());
    assert!(!game.is_won());
    assert!(!game.make_match(0, 1));
}

#[test]
fn session_small_rows_become_three() {
    let game = NumberMatchGame::with_rng(1, Rng::new(3));
    assert_eq!(game.rows(), 3);
}

#[test]
fn number_match_stats_are_recorded() {
    let mut stats = GameStats::default();
    let mut history = Vec::new();
    record_win(&mut stats, &mut history, 300, 12, 2, 80, "d1".to_string());
    record_win(&mut stats, &mut history, 250, 10, 1, 60, "d2".to_string());
    record_abandon(&mut stats, &mut history, 40, 2, 0, 30, "d3".to_string());
    assert_eq!(stats.played, 3);
    assert_eq!(stats.won, 2);
    assert_eq!(stats.best_score, Some(300));
    assert_eq!(stats.best_time, Some(60));
    assert_eq!(stats.total_time, 170);
    assert_eq!(history[0].result, "Won");
    assert_eq!(history[2].result, "Abandoned");
    assert_eq!(format_time(3599), "59:59");
}

#[test]
fn digit_classes() {
    assert_eq!(digit_class(7), "d7");
    assert_eq!(digit_class(0), "d0");
    assert_eq!(digit_class(12), "d0");
}
