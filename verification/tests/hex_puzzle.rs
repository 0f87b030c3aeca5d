use puzzle_games::hex_puzzle::levels::Difficulty;
use puzzle_games::hex_puzzle::game::{Cell, Direction, GameState, Hex, Move, Rng};
use puzzle_games::hex_puzzle::storage::{format_time, record_game, GameStats};

#[test]
fn empty_board_radius_2_has_19_cells() {
    let s = GameState::empty(2);
    assert_eq!(s.cells.len(), 19);
}

#[test]
fn tile_with_clear_path_falls_off() {
    let mut s = GameState::empty(2);
    s.set(Hex::new(0, 0), Cell::Tile(Direction::E));
    assert_eq!(s.play(Hex::new(0, 0)), Move::Removed);
    assert!(matches!(s.get(Hex::new(0, 0)), Some(Cell::Empty)));
    assert_eq!(s.removed, 1);
}

#[test]
fn tile_blocked_by_other_tile_snaps_back() {
    let mut s = GameState::empty(2);
    s.set(Hex::new(0, 0), Cell::Tile(Direction::E));
    s.set(Hex::new(2, 0), Cell::Tile(Direction::W));
    let before = s.get(Hex::new(0, 0));
    assert_eq!(s.play(Hex::new(0, 0)), Move::Blocked);
    assert_eq!(s.get(Hex::new(0, 0)), before);
}

#[test]
fn generate_produces_solvable_puzzle() {
    let mut rng = Rng { state: 42 };
    let (mut s, order) = GameState::generate(3, 10, &mut rng);
    assert!(s.total >= 1);
    for hex in order.iter().rev() {
        assert_eq!(s.play(*hex), Move::Removed, "should remove tile at {:?}", hex);
    }
    assert_eq!(s.tile_count(), 0);
}

#[test]
fn board_positions_and_lookup() {
    let s = GameState::empty(1);
    assert_eq!(s.cells.len(), 7);
    assert!(s.on_board(Hex::new(1, -1)));
    assert!(!s.on_board(Hex::new(1, 1)));
    assert_eq!(s.get(Hex::new(5, 5)), None);
    assert_eq!(s.get(Hex::new(-1, 0)), Some(Cell::Empty));
    assert_eq!(s.cells[0].0, Hex::new(-1, 0));
    assert_eq!(s.cells[6].0, Hex::new(1, 0));
    let mut t = s.clone();
    t.set(Hex::new(4, 4), Cell::Tile(Direction::E));
    assert_eq!(t.tile_count(), 0);
    assert!(t.is_won());
    assert_eq!(GameState::empty(0).cells.len(), 1);
    assert_eq!(GameState::empty(3).cells.len(), 37);
}

#[test]
fn directions_and_steps() {
    assert_eq!(Direction::NE.delta(), (1, -1));
    assert_eq!(Direction::from_index(3), Some(Direction::W));
    assert_eq!(Direction::from_index(6), None);
    assert_eq!(Hex::new(0, 0).step(Direction::SW), Hex::new(-1, 1));
}

#[test]
fn empty_steps_count_to_the_first_tile() {
    let mut s = GameState::empty(3);
    assert_eq!(s.empty_steps(Hex::new(-3, 0), Direction::E), 6);
    s.set(Hex::new(1, 0), Cell::Tile(Direction::W));
    assert_eq!(s.empty_steps(Hex::new(-3, 0), Direction::E), 3);
    assert!(!s.path_clear(Hex::new(-3, 0), Direction::E));
    assert!(s.path_clear(Hex::new(-3, 0), Direction::W));
}

#[test]
fn empty_cell_play_changes_nothing() {
    let mut s = GameState::empty(2);
    assert_eq!(s.play(Hex::new(0, 0)), Move::Empty);
    assert_eq!(s.play(Hex::new(9, 9)), Move::Empty);
    assert_eq!(s.moves, 0);
}

#[test]
fn stuck_when_tiles_face_each_other() {
    let mut s = GameState::empty(1);
    s.set(Hex::new(-1, 0), Cell::Tile(Direction::E));
    s.set(Hex::new(1, 0), Cell::Tile(Direction::W));
    assert!(s.is_stuck());
    assert!(!s.is_won());
    assert_eq!(s.tile_count(), 2);
    let mut t = GameState::empty(1);
    t.set(Hex::new(1, 0), Cell::Tile(Direction::E));
    assert!(!t.is_stuck());
    assert!(!GameState::empty(1).is_stuck());
}

#[test]
fn rng_range_zero_does_not_step() {
    let mut rng = Rng { state: 7 };
    assert_eq!(rng.range(0), 0);
    assert_eq!(rng.state, 7);
    let v = rng.range(10);
    assert!(v < 10);
    assert_ne!(rng.state, 7);
}

#[test]
fn hex_stats_are_recorded() {
    let mut stats = GameStats::default();
    let mut history = Vec::new();
    record_game(&mut stats, &mut history, "easy", 12, 40, true, "2025-03-04 10:00:00".to_string());
    record_game(&mut stats, &mut history, "hard", 30, 20, true, "2025-03-04 11:00:00".to_string());
    record_game(&mut stats, &mut history, "hard", 5, 10, false, "2025-03-04 12:00:00".to_string());
    assert_eq!(stats.puzzles_attempted, 3);
    assert_eq!(stats.puzzles_solved, 2);
    assert_eq!(stats.total_moves, 47);
    assert_eq!(stats.total_time, 70);
    assert_eq!(stats.best_time, Some(20));
    assert_eq!(history[2].difficulty, "hard");
    assert!(!history[2].solved);
    assert_eq!(format_time(0), "00:00");
    assert_eq!(format_time(6000), "100:00");
}

#[test]
fn levels_name_size_and_tiles() {
    assert_eq!(Difficulty::Expert.label(), "Expert");
    assert_eq!(Difficulty::Hard.radius(), 3);
    assert_eq!(Difficulty::Master.tiles(), 50);
    assert_eq!(Difficulty::Easy.tiles(), 8);
}

#[test]
fn blocked_play_changes_nothing() {
    let mut s = GameState::empty(2);
    s.set(Hex::new(0, 0), Cell::Tile(Direction::E));
    s.set(Hex::new(2, 0), Cell::Tile(Direction::W));
    assert_eq!(s.play(Hex::new(0, 0)), Move::Blocked);
    assert_eq!(s.moves, 0);
    assert_eq!(s.removed, 0);
    assert_eq!(s.play(Hex::new(2, 0)), Move::Blocked);
    assert_eq!(s.moves, 0);
}
