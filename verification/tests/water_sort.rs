use puzzle_games::water_sort::game::{Bottle, GameState};
use puzzle_games::water_sort::generator::{
    deal, difficulty_from_str, generate, generate_with, try_generate, Difficulty, Rng,
};
use puzzle_games::water_sort::session::WaterSortGame;
use puzzle_games::water_sort::solver::{is_solvable, solve};

#[test]
fn test_bottle_top_count() {
    let b = Bottle::from_units(vec![1, 2, 2, 2]);
    assert_eq!(b.top_count(), 3);
    assert_eq!(b.top_color(), Some(2));
}

#[test]
fn test_pour() {
    let bottles = vec![Bottle::from_units(vec![1, 2]), Bottle::from_units(vec![2])];
    let mut game = GameState::new(bottles, 2);
    assert!(game.can_pour(0, 1));
    let poured = game.pour(0, 1);
    assert_eq!(poured, 1);
    assert_eq!(game.bottles[0].units, vec![1]);
    assert_eq!(game.bottles[1].units, vec![2, 2]);
}

#[test]
fn test_solved() {
    let bottles = vec![
        Bottle::from_units(vec![1, 1, 1, 1]),
        Bottle::from_units(vec![2, 2, 2, 2]),
        Bottle::new(),
    ];
    let game = GameState::new(bottles, 2);
    assert!(game.is_solved());
}

#[test]
fn test_trivial_solve() {
    let bottles = vec![
        Bottle::from_units(vec![1, 1, 1, 2]),
        Bottle::from_units(vec![2, 2, 2, 1]),
        Bottle::new(),
    ];
    let state = GameState::new(bottles, 2);
    let solution = solve(&state);
    assert!(solution.is_some());
    let moves = solution.unwrap();
    assert!(!moves.is_empty());
}

#[test]
fn test_already_solved() {
    let bottles = vec![Bottle::from_units(vec![1, 1, 1, 1]), Bottle::new()];
    let state = GameState::new(bottles, 1);
    let solution = solve(&state);
    assert!(solution.is_some());
    assert!(solution.unwrap().is_empty());
}

fn count_units(g: &GameState, color: u8) -> usize {
    g.bottles.iter().map(|b| b.units.iter().filter(|&&u| u == color).count()).sum()
}

#[test]
fn pour_moves_only_what_fits_and_keeps_units() {
    let bottles = vec![Bottle::from_units(vec![1, 3, 3, 3]), Bottle::from_units(vec![2, 2, 3])];
    let mut game = GameState::new(bottles, 3);
    let before: Vec<usize> = (1..=3).map(|c| count_units(&game, c)).collect();
    assert_eq!(game.pour(0, 1), 1);
    assert_eq!(game.bottles[0].units, vec![1, 3, 3]);
    assert_eq!(game.bottles[1].units, vec![2, 2, 3, 3]);
    assert_eq!(game.moves, 1);
    let after: Vec<usize> = (1..=3).map(|c| count_units(&game, c)).collect();
    assert_eq!(before, after);
}

#[test]
fn refused_pours_change_nothing() {
    let bottles = vec![
        Bottle::from_units(vec![1, 1, 1, 1]),
        Bottle::from_units(vec![2]),
        Bottle::from_units(vec![3, 3, 3, 3]),
    ];
    let mut game = GameState::new(bottles, 3);
    assert!(!game.can_pour(0, 1)); // complete source
    assert!(!game.can_pour(1, 2)); // full destination
    assert!(!game.can_pour(1, 1)); // same bottle
    assert!(!game.can_pour(1, 7)); // no such bottle
    assert_eq!(game.pour(1, 2), 0);
    assert_eq!(game.moves, 0);
    assert_eq!(game.bottles[1].units, vec![2]);
}

#[test]
fn canonical_ignores_bottle_order() {
    let a = GameState::new(vec![Bottle::from_units(vec![2, 1]), Bottle::from_units(vec![1])], 2);
    let b = GameState::new(vec![Bottle::from_units(vec![1]), Bottle::from_units(vec![2, 1])], 2);
    assert_eq!(a.canonical(), b.canonical());
    assert_eq!(a.canonical(), vec![vec![1], vec![2, 1]]);
}

#[test]
fn solution_replays_to_solved() {
    let bottles = vec![
        Bottle::from_units(vec![1, 2, 1, 2]),
        Bottle::from_units(vec![2, 1, 2, 1]),
        Bottle::new(),
        Bottle::new(),
    ];
    let state = GameState::new(bottles, 2);
    let moves = solve(&state).expect("solvable");
    let mut replay = GameState::new(state.bottles.clone(), 2);
    for m in &moves {
        assert!(replay.can_pour(m.src, m.dst));
        replay.pour(m.src, m.dst);
    }
    assert!(replay.is_solved());
    assert!(is_solvable(&state));
}

#[test]
fn deal_uses_four_units_of_each_color() {
    let mut rng = Rng::new(7);
    let g = deal(Difficulty::Easy, &mut rng);
    assert_eq!(g.bottles.len(), 6);
    assert_eq!(g.num_colors, 4);
    for c in 1..=4u8 {
        assert_eq!(count_units(&g, c), 4);
    }
    assert!(g.bottles[4].is_empty() && g.bottles[5].is_empty());
}

#[test]
fn generation_attempts_yield_solvable_puzzles() {
    let mut rng = Rng::new(12345);
    let mut found = None;
    for _ in 0..50 {
        if let Some(g) = try_generate(Difficulty::Easy, &mut rng) {
            found = Some(g);
            break;
        }
    }
    let g = found.expect("a puzzle within 50 attempts");
    assert!(!g.is_solved());
    assert!(solve(&g).is_some());
}

#[test]
fn difficulty_names() {
    assert_eq!(difficulty_from_str("easy").num_colors(), 4);
    assert_eq!(difficulty_from_str("hard").num_colors(), 10);
    assert_eq!(difficulty_from_str("Easy").num_colors(), 7);
    assert_eq!(difficulty_from_str("medium").num_empty(), 2);
}

#[test]
fn session_pour_undo_reset() {
    let bottles = vec![
        Bottle::from_units(vec![1, 1, 1, 2]),
        Bottle::from_units(vec![2, 2, 2, 1]),
        Bottle::new(),
    ];
    let mut game = WaterSortGame::from_state(GameState::new(bottles, 2));
    let start = game.bottles();
    assert_eq!(game.num_bottles(), 3);
    assert_eq!(game.num_colors(), 2);
    assert_eq!(game.pour(0, 0), 0);
    assert_eq!(game.undo_count(), 0);
    assert_eq!(game.pour(0, 2), 1);
    assert_eq!(game.move_count(), 1);
    assert_eq!(game.undo_count(), 1);
    assert!(game.undo());
    assert_eq!(game.bottles(), start);
    assert_eq!(game.move_count(), 0);
    assert!(!game.undo());
    game.pour(0, 2);
    game.pour(1, 2);
    game.reset();
    assert_eq!(game.bottles(), start);
    assert_eq!(game.undo_count(), 0);
}

#[test]
fn session_hint_is_a_legal_first_move() {
    let bottles = vec![
        Bottle::from_units(vec![1, 1, 1, 2]),
        Bottle::from_units(vec![2, 2, 2, 1]),
        Bottle::new(),
    ];
    let game = WaterSortGame::from_state(GameState::new(bottles, 2));
    let (s, d) = game.hint().expect("a hint");
    assert!(game.can_pour(s, d));
    assert!(game.solve().is_some());
    let done = WaterSortGame::from_state(GameState::new(vec![Bottle::from_units(vec![1, 1, 1, 1])], 1));
    assert!(done.is_solved());
    assert!(done.hint().is_none());
}

#[test]
fn hint_is_first_single_solving_pour() {
    let bottles = vec![
        Bottle::from_units(vec![1, 1, 1]),
        Bottle::from_units(vec![2, 2, 2, 2]),
        Bottle::from_units(vec![1]),
    ];
    let game = WaterSortGame::from_state(GameState::new(bottles, 2));
    assert_eq!(game.hint(), Some((0, 2)));
}

#[test]
fn search_gives_a_shortest_solution() {
    let bottles = vec![
        Bottle::from_units(vec![1, 1, 1, 2]),
        Bottle::from_units(vec![2, 2, 2, 1]),
        Bottle::new(),
    ];
    let state = GameState::new(bottles, 2);
    let moves = solve(&state).unwrap();
    assert_eq!(moves.len(), 3);
    let mut s = state.clone();
    for m in &moves {
        assert!(s.can_pour(m.src, m.dst));
        s.pour(m.src, m.dst);
    }
    assert!(s.is_solved());
}

#[test]
fn search_finds_nothing_when_no_pour_is_possible() {
    let bottles = vec![Bottle::from_units(vec![1, 2, 1, 2]), Bottle::from_units(vec![2, 1, 2, 1])];
    let state = GameState::new(bottles, 2);
    assert!(solve(&state).is_none());
    assert!(!is_solvable(&state));
}

#[test]
fn generated_puzzle_is_kept_and_solvable() {
    let mut rng = Rng::new(77);
    let g = generate_with(Difficulty::Easy, &mut rng).unwrap();
    assert!(!g.is_solved());
    assert!(is_solvable(&g));
    assert_eq!(g.num_colors, 4);
}

#[test]
fn seeded_generation_keeps_the_first_good_deal() {
    let mut rng1 = Rng::new(5);
    let mut rng2 = Rng::new(5);
    let g = generate_with(Difficulty::Easy, &mut rng1).unwrap();
    let mut first = None;
    while first.is_none() {
        first = try_generate(Difficulty::Easy, &mut rng2);
    }
    let units = |s: &GameState| s.bottles.iter().map(|b| b.units.clone()).collect::<Vec<_>>();
    assert_eq!(units(&first.unwrap()), units(&g));
    assert_eq!(rng1.state, rng2.state);
    let h = generate(Difficulty::Easy).unwrap();
    assert!(!h.is_solved());
    assert!(is_solvable(&h));
}
