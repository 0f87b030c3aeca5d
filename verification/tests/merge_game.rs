use puzzle_games::merge_game::board::Rng;
use puzzle_games::merge_game::play::{spawn_tile, tile_tier};
use puzzle_games::merge_game::board::{Board, Cell, Direction, TOTAL_CELLS};
use puzzle_games::merge_game::game::{Cell as MergeCell, GameState, Rng as MergeRng, TOTAL_CELLS as MERGE_CELLS};
use puzzle_games::merge_game::storage::{format_time, record_game, GameStats};

#[test]
fn test_slide_left_merge() {
    let mut board = Board::new();
    board.place(0, 2);
    board.place(1, 2);
    let changed = board.slide(Direction::Left);
    assert!(changed);
    assert_eq!(board.cells[0], Cell::Value(4));
    assert_eq!(board.cells[1], Cell::Empty);
    assert_eq!(board.score, 4);
}

#[test]
fn test_slide_right_merge() {
    let mut board = Board::new();
    board.place(0, 2);
    board.place(1, 2);
    let changed = board.slide(Direction::Right);
    assert!(changed);
    assert_eq!(board.cells[3], Cell::Value(4));
    assert_eq!(board.cells[0], Cell::Empty);
}

#[test]
fn test_slide_up_merge() {
    let mut board = Board::new();
    board.place(0, 2);
    board.place(4, 2);
    let changed = board.slide(Direction::Up);
    assert!(changed);
    assert_eq!(board.cells[0], Cell::Value(4));
    assert_eq!(board.cells[4], Cell::Empty);
}

#[test]
fn test_slide_down_merge() {
    let mut board = Board::new();
    board.place(0, 2);
    board.place(4, 2);
    let changed = board.slide(Direction::Down);
    assert!(changed);
    assert_eq!(board.cells[12], Cell::Value(4));
    assert_eq!(board.cells[0], Cell::Empty);
}

#[test]
fn test_no_change_no_move() {
    let mut board = Board::new();
    board.place(0, 2);
    let changed = board.slide(Direction::Left);
    assert!(!changed);
}

#[test]
fn test_game_over() {
    let mut board = Board::new();
    for i in 0..TOTAL_CELLS {
        board.place(i, (i as u32 + 1) * 2);
    }
    assert!(board.is_game_over());
}

#[test]
fn test_not_game_over_with_merge() {
    let mut board = Board::new();
    for i in 0..TOTAL_CELLS {
        board.place(i, (i as u32 + 1) * 2);
    }
    board.cells[0] = Cell::Value(2);
    board.cells[1] = Cell::Value(2);
    assert!(!board.is_game_over());
}

#[test]
fn test_double_merge_same_row() {
    let mut board = Board::new();
    board.place(0, 2);
    board.place(1, 2);
    board.place(2, 2);
    board.place(3, 2);
    board.slide(Direction::Left);
    assert_eq!(board.cells[0], Cell::Value(4));
    assert_eq!(board.cells[1], Cell::Value(4));
    assert_eq!(board.cells[2], Cell::Empty);
    assert_eq!(board.cells[3], Cell::Empty);
}

#[test]
fn test_slide_compresses() {
    let mut board = Board::new();
    board.place(1, 2);
    board.place(3, 4);
    let changed = board.slide(Direction::Left);
    assert!(changed);
    assert_eq!(board.cells[0], Cell::Value(2));
    assert_eq!(board.cells[1], Cell::Value(4));
    assert_eq!(board.cells[2], Cell::Empty);
    assert_eq!(board.cells[3], Cell::Empty);
}

#[test]
fn test_spawn_tile() {
    let mut state = GameState::new();
    let mut rng = MergeRng { state: 12345 };
    assert!(state.spawn_tile(&mut rng));
    assert_eq!(state.tile_count(), 1);
}

#[test]
fn test_merge_same_value() {
    let mut state = GameState::new();
    state.cells[0] = MergeCell::Value(2);
    state.cells[1] = MergeCell::Value(2);
    let result = state.merge(0, 1);
    assert_eq!(result, Some(4));
    assert_eq!(state.cells[0], MergeCell::Empty);
    assert_eq!(state.cells[1], MergeCell::Value(4));
    assert_eq!(state.score, 4);
    assert_eq!(state.merges, 1);
}

#[test]
fn test_merge_different_value() {
    let mut state = GameState::new();
    state.cells[0] = MergeCell::Value(2);
    state.cells[1] = MergeCell::Value(4);
    assert!(!state.can_merge(0, 1));
    assert_eq!(state.merge(0, 1), None);
}

#[test]
fn test_board_full() {
    let mut state = GameState::new();
    for i in 0..MERGE_CELLS {
        state.cells[i] = MergeCell::Value(1);
    }
    let mut rng = MergeRng { state: 12345 };
    assert!(!state.spawn_tile(&mut rng));
}

fn tile_sum(board: &Board) -> u64 {
    board.cells.iter().map(|c| match c {
        Cell::Value(v) => *v as u64,
        Cell::Empty => 0,
    }).sum()
}

#[test]
fn slides_keep_the_tile_sum() {
    let mut board = Board::new();
    let values = [2, 2, 4, 8, 0, 2, 2, 2, 16, 0, 16, 4, 4, 4, 4, 2];
    for (i, v) in values.iter().enumerate() {
        if *v > 0 {
            board.place(i, *v);
        }
    }
    let before = tile_sum(&board);
    for dir in [Direction::Left, Direction::Up, Direction::Right, Direction::Down] {
        board.slide(dir);
        assert_eq!(tile_sum(&board), before);
    }
}

#[test]
fn score_counts_merged_values() {
    let mut board = Board::new();
    board.place(0, 4);
    board.place(1, 4);
    board.place(2, 8);
    board.place(3, 8);
    assert!(board.slide(Direction::Left));
    assert_eq!(board.cells[0], Cell::Value(8));
    assert_eq!(board.cells[1], Cell::Value(16));
    assert_eq!(board.score, 24);
    assert_eq!(board.merges, 2);
    assert_eq!(board.highest, 16);
}

#[test]
fn stuck_board_does_not_move() {
    let mut board = Board::new();
    for i in 0..TOTAL_CELLS {
        board.place(i, (i as u32 + 1) * 2);
    }
    assert!(!board.can_move());
    for dir in [Direction::Left, Direction::Up, Direction::Right, Direction::Down] {
        assert!(!board.slide(dir));
    }
}

#[test]
fn index_conversions() {
    assert_eq!(Board::to_rc(6), (1, 2));
    assert_eq!(Board::to_idx(3, 1), 13);
    let mut board = Board::new();
    board.place(5, 2);
    assert_eq!(board.empty_count(), 15);
    assert!(!board.empty_indices().contains(&5));
    assert_eq!(Cell::Value(8).value(), Some(8));
    assert!(Cell::Empty.is_empty());
}

#[test]
fn merge_game_merges_conserve_value() {
    let mut state = GameState::new();
    state.cells[10] = MergeCell::Value(8);
    state.cells[20] = MergeCell::Value(8);
    assert!(state.can_merge(10, 20));
    assert!(!state.can_merge(10, 10));
    assert_eq!(state.merge(10, 20), Some(16));
    assert_eq!(state.tile_count(), 1);
    assert_eq!(state.cells[20], MergeCell::Value(16));
    assert_eq!(state.highest, 16);
}

#[test]
fn merge_stats_are_recorded() {
    let mut stats = GameStats::default();
    let mut history = Vec::new();
    record_game(&mut stats, &mut history, 1200, 128, 30, 95, "2024-01-02 03:04:05".to_string());
    record_game(&mut stats, &mut history, 800, 256, 10, 5, "2024-01-02 03:05:05".to_string());
    assert_eq!(stats.games_played, 2);
    assert_eq!(stats.best_score, 1200);
    assert_eq!(stats.highest_tile, 256);
    assert_eq!(stats.total_merges, 40);
    assert_eq!(stats.total_time, 100);
    assert_eq!(history.len(), 2);
    assert_eq!(history[1].score, 800);
    assert_eq!(format_time(95), "01:35");
}

#[test]
fn spawn_tile_fills_one_empty_cell() {
    let mut board = Board::new();
    let mut rng = Rng { state: 99 };
    spawn_tile(&mut board, &mut rng);
    assert_eq!(board.empty_count(), 15);
    let v = board.cells.iter().find_map(|c| c.value()).unwrap();
    assert!(v == 2 || v == 4);
    let mut full = Board::new();
    for i in 0..TOTAL_CELLS {
        full.place(i, 2);
    }
    let before = rng.state;
    spawn_tile(&mut full, &mut rng);
    assert_eq!(rng.state, before);
    assert_eq!(tile_tier(2), 1);
    assert_eq!(tile_tier(2048), 11);
    assert_eq!(tile_tier(4096), 12);
    assert_eq!(tile_tier(3), 12);
}

#[test]
fn movable_board_changes_under_some_slide() {
    let dirs = [Direction::Up, Direction::Down, Direction::Left, Direction::Right];
    let mut corner = Board::new();
    corner.place(0, 2);
    assert!(corner.can_move());
    assert!(dirs.iter().any(|&d| corner.clone().slide(d)));
    let mut full = Board::new();
    let vals = [2, 4, 2, 4, 4, 2, 4, 2, 2, 4, 2, 4, 4, 2, 8, 8];
    for (i, v) in vals.iter().enumerate() {
        full.place(i, *v);
    }
    assert!(full.can_move());
    assert!(!full.clone().slide(Direction::Up));
    assert!(full.clone().slide(Direction::Left));
}
