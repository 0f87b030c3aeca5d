use puzzle_games::generic_sudoku::config::{BoardPlacement, PuzzleConfig};
use puzzle_games::generic_sudoku::generator::{generate_with as generic_generate_with, Difficulty as GenericDifficulty};
use puzzle_games::generic_sudoku::generic_board::GenericMultiBoard;
use puzzle_games::generic_sudoku::look::{meta_cell_label, meta_cell_tint};
use puzzle_games::hex_puzzle::game::{Cell, Direction, GameState as HexState, Hex, Rng as HexRng};
use puzzle_games::multi_sudoku::generator::{generate_with as multi_generate_with, Difficulty as MultiDifficulty};
use puzzle_games::sudoku::board::Board;
use puzzle_games::sudoku::generator::{generate_with, Difficulty, Rng};
use puzzle_games::sudoku::solver::{count_solutions, verify};

fn placed(name: &str, corners: &[(usize, usize)]) -> PuzzleConfig {
    PuzzleConfig {
        name: name.to_string(),
        boards: corners.iter().map(|&(r, c)| BoardPlacement { meta_row: r, meta_col: c }).collect(),
    }
}

fn cells_of(b: &Board) -> Vec<u8> {
    let mut v = Vec::new();
    for r in 0..9 {
        for c in 0..9 {
            v.push(b.get(r, c));
        }
    }
    v
}

#[test]
fn seeded_sudoku_generation_repeats_and_leaves_blanks() {
    let mut rng1 = Rng::new(7);
    let mut rng2 = Rng::new(7);
    let (p1, s1) = generate_with(Difficulty::Medium, &mut rng1);
    let (p2, s2) = generate_with(Difficulty::Medium, &mut rng2);
    assert_eq!(cells_of(&p1), cells_of(&p2));
    assert_eq!(cells_of(&s1), cells_of(&s2));
    assert_eq!(rng1.state, rng2.state);
    assert!(verify(&s1));
    let zeros = cells_of(&p1).iter().filter(|&&v| v == 0).count();
    assert!(zeros >= 1 && zeros <= 46);
    let mut test = p1;
    assert_eq!(count_solutions(&mut test, 2), 1);
}

#[test]
fn seeded_multi_generation_leaves_a_blank_on_the_first_board() {
    let mut rng = Rng::new(99);
    let (puzzle, solution) = multi_generate_with(MultiDifficulty::Easy, &mut rng);
    assert!(solution.is_solved());
    assert!(cells_of(&puzzle.boards[0]).contains(&0));
    let mut rng2 = Rng::new(99);
    let (puzzle2, _) = multi_generate_with(MultiDifficulty::Easy, &mut rng2);
    for b in 0..3 {
        assert_eq!(cells_of(&puzzle.boards[b]), cells_of(&puzzle2.boards[b]));
    }
}

#[test]
fn seeded_generic_generation_leaves_a_blank_on_the_first_board() {
    let cfg = placed("pair", &[(0, 0), (2, 2)]);
    let mut rng = Rng::new(5);
    let (puzzle, solution) = generic_generate_with(&cfg, GenericDifficulty::Easy, &mut rng);
    assert!(verify(&solution.boards[0]));
    assert!(cells_of(&puzzle.boards[0]).contains(&0));
    let mut rng2 = Rng::new(5);
    let (puzzle2, _) = generic_generate_with(&cfg, GenericDifficulty::Easy, &mut rng2);
    assert_eq!(cells_of(&puzzle.boards[1]), cells_of(&puzzle2.boards[1]));
}

#[test]
fn generic_write_outside_every_board_changes_nothing() {
    let cfg = placed("pair", &[(0, 0), (2, 2)]);
    let mut m = GenericMultiBoard::new(&cfg);
    m.set(0, 0, 4);
    let before: Vec<Vec<u8>> = m.boards.iter().map(cells_of).collect();
    m.set(0, 12, 7);
    let after: Vec<Vec<u8>> = m.boards.iter().map(cells_of).collect();
    assert_eq!(before, after);
    assert_eq!(m.get(0, 12), 0);
    m.set(7, 7, 3);
    assert_eq!(m.get(7, 7), 3);
    assert_eq!(m.boards[0].get(7, 7), 3);
    assert_eq!(m.boards[1].get(1, 1), 3);
}

#[test]
fn hex_won_exactly_when_no_tile_is_left() {
    let mut s = HexState::empty(2);
    assert!(s.is_won());
    assert_eq!(s.tile_count(), 0);
    assert!(!s.is_stuck());
    s.set(Hex::new(0, 0), Cell::Tile(Direction::E));
    assert!(!s.is_won());
    assert_eq!(s.tile_count(), 1);
}

#[test]
fn hex_stuck_board_is_not_won() {
    let mut s = HexState::empty(1);
    s.set(Hex::new(0, 0), Cell::Tile(Direction::E));
    s.set(Hex::new(1, 0), Cell::Tile(Direction::W));
    assert!(s.is_stuck());
    assert!(!s.is_won());
}

#[test]
fn hex_generation_with_tiles_asked_gives_tiles() {
    for seed in 1..20u64 {
        let mut rng = HexRng { state: seed };
        let (s, order) = HexState::generate(2, 1, &mut rng);
        assert_eq!(order.len(), 1);
        assert_eq!(s.total, 1);
        assert_eq!(s.tile_count(), 1);
    }
}

#[test]
fn completion_count_is_exact_below_the_limit() {
    let mut empty = Board::new();
    assert_eq!(count_solutions(&mut empty, 5), 5);
    let mut solved = Board::new();
    assert!(puzzle_games::sudoku::solver::solve(&mut solved));
    let mut found = None;
    for r1 in 0..9 {
        for r2 in (r1 + 1)..9 {
            if r1 / 3 != r2 / 3 {
                continue;
            }
            for c1 in 0..9 {
                for c2 in (c1 + 1)..9 {
                    if c1 / 3 == c2 / 3 {
                        continue;
                    }
                    if solved.get(r1, c1) == solved.get(r2, c2) && solved.get(r1, c2) == solved.get(r2, c1) {
                        found = Some((r1, r2, c1, c2));
                    }
                }
            }
        }
    }
    let (r1, r2, c1, c2) = found.expect("a swappable rectangle");
    let mut puzzle = solved;
    puzzle.set(r1, c1, 0);
    puzzle.set(r1, c2, 0);
    puzzle.set(r2, c1, 0);
    puzzle.set(r2, c2, 0);
    assert_eq!(count_solutions(&mut puzzle.clone(), 5), 2);
    assert_eq!(count_solutions(&mut puzzle.clone(), 1), 1);
    assert_eq!(cells_of(&puzzle).iter().filter(|&&v| v == 0).count(), 4);
}

#[test]
fn editor_meta_cell_labels_and_tints() {
    assert_eq!(meta_cell_label(&vec![0, 1]), "1+2");
    assert_eq!(meta_cell_label(&vec![2]), "3");
    assert_eq!(meta_cell_label(&vec![0, 4, 11]), "1+5+12");
    assert_eq!(meta_cell_label(&vec![]), "");
    assert_eq!(meta_cell_tint(&vec![9, 2]), Some(1));
    assert_eq!(meta_cell_tint(&vec![]), None);
}
