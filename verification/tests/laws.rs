use puzzle_games::generic_sudoku::config::{BoardPlacement, PuzzleConfig};
use puzzle_games::hex_puzzle::game::{GameState as HexState, Move, Rng as HexRng};
use puzzle_games::records::keep_recent;
use puzzle_games::text::{format_clock, format_date_time};
use puzzle_games::water_sort::game::{Bottle, GameState};
use puzzle_games::water_sort::session::WaterSortGame;
use puzzle_games::number_match::grid::Rng as NumberRng;
use puzzle_games::number_match::session::NumberMatchGame;

#[test]
fn undo_after_pour_restores_the_session() {
    let bottles = vec![
        Bottle::from_units(vec![1, 2, 1]),
        Bottle::from_units(vec![2, 1, 2]),
        Bottle::new(),
    ];
    let mut game = WaterSortGame::from_state(GameState::new(bottles, 2));
    let before = game.bottles();
    assert_eq!(game.pour(0, 2), 1);
    assert_ne!(game.bottles(), before);
    assert!(game.undo());
    assert_eq!(game.bottles(), before);
    assert_eq!(game.move_count(), 0);
    assert_eq!(game.undo_count(), 0);
}

#[test]
fn undo_after_match_restores_the_game() {
    let mut game = NumberMatchGame::with_rng(4, NumberRng::new(1234));
    if let Some((a, b)) = game.hint() {
        let grid = game.grid_values();
        let rows = game.rows();
        assert!(game.make_match(a, b));
        assert!(game.undo());
        assert_eq!(game.grid_values(), grid);
        assert_eq!(game.rows(), rows);
        assert_eq!(game.score(), 0);
        assert!(!game.is_over());
    }
}

#[test]
fn reverse_placement_order_clears_generated_boards() {
    for seed in [1u64, 7, 99, 2024] {
        let mut rng = HexRng { state: seed };
        let (mut s, order) = HexState::generate(2, 8, &mut rng);
        assert_eq!(s.total as usize, order.len());
        assert_eq!(s.tile_count() as usize, order.len());
        for hex in order.iter().rev() {
            assert_eq!(s.play(*hex), Move::Removed);
        }
        assert!(s.is_won());
    }
}

#[test]
fn fingerprint_ignores_board_order() {
    let a = PuzzleConfig {
        name: "a".to_string(),
        boards: vec![
            BoardPlacement { meta_row: 4, meta_col: 4 },
            BoardPlacement { meta_row: 0, meta_col: 0 },
            BoardPlacement { meta_row: 2, meta_col: 2 },
        ],
    };
    let b = PuzzleConfig {
        name: "b".to_string(),
        boards: vec![
            BoardPlacement { meta_row: 2, meta_col: 2 },
            BoardPlacement { meta_row: 4, meta_col: 4 },
            BoardPlacement { meta_row: 0, meta_col: 0 },
        ],
    };
    assert_eq!(a.fingerprint(), b.fingerprint());
}

#[test]
fn history_keeps_the_last_hundred() {
    let mut h: Vec<u32> = (0..150).collect();
    keep_recent(&mut h);
    assert_eq!(h.len(), 100);
    assert_eq!(h[0], 50);
    assert_eq!(h[99], 149);
    let mut short: Vec<u32> = (0..7).collect();
    keep_recent(&mut short);
    assert_eq!(short, (0..7).collect::<Vec<u32>>());
}

#[test]
fn clock_and_date_text() {
    assert_eq!(format_clock(125), "02:05");
    assert_eq!(format_date_time(2024, 0, 5, 7, 8, 9), "2024-01-05 07:08:09");
    assert_eq!(format_date_time(987, 11, 31, 23, 59, 0), "0987-12-31 23:59:00");
}
