use puzzle_games::generic_sudoku::config::{presets, BoardPlacement, PuzzleConfig};
use puzzle_games::generic_sudoku::generator::{generate, Difficulty};
use puzzle_games::generic_sudoku::generic_board::GenericMultiBoard;
use puzzle_games::generic_sudoku::storage::{format_time, record_abandon, record_win, remove_named, upsert_config, Stats};
use puzzle_games::sudoku::solver::verify;

fn layout(name: &str, corners: &[(usize, usize)]) -> PuzzleConfig {
    PuzzleConfig {
        name: name.to_string(),
        boards: corners.iter().map(|&(r, c)| BoardPlacement { meta_row: r, meta_col: c }).collect(),
    }
}

#[test]
fn test_single_board_config() {
    let cfg = PuzzleConfig {
        name: "test".to_string(),
        boards: vec![BoardPlacement { meta_row: 0, meta_col: 0 }],
    };
    assert!(cfg.validate().is_ok());
    let info = cfg.compute_overlaps();
    assert_eq!(info.grid_rows, 9);
    assert_eq!(info.grid_cols, 9);
}

#[test]
fn test_double_overlap() {
    let cfg = PuzzleConfig {
        name: "test".to_string(),
        boards: vec![
            BoardPlacement { meta_row: 0, meta_col: 0 },
            BoardPlacement { meta_row: 2, meta_col: 2 },
        ],
    };
    assert!(cfg.validate().is_ok());
    let info = cfg.compute_overlaps();
    assert_eq!(info.grid_rows, 15);
    assert_eq!(info.grid_cols, 15);
    let owners = info.owners_of_meta(2, 2);
    assert_eq!(owners.len(), 2);
}

#[test]
fn test_triple_overlap_rejected() {
    let cfg = PuzzleConfig {
        name: "test".to_string(),
        boards: vec![
            BoardPlacement { meta_row: 0, meta_col: 0 },
            BoardPlacement { meta_row: 0, meta_col: 0 },
            BoardPlacement { meta_row: 0, meta_col: 0 },
        ],
    };
    assert!(cfg.validate().is_err());
}

#[test]
fn test_fingerprint_stable() {
    let cfg1 = PuzzleConfig {
        name: "a".to_string(),
        boards: vec![
            BoardPlacement { meta_row: 0, meta_col: 0 },
            BoardPlacement { meta_row: 2, meta_col: 2 },
        ],
    };
    let cfg2 = PuzzleConfig {
        name: "b".to_string(),
        boards: vec![
            BoardPlacement { meta_row: 2, meta_col: 2 },
            BoardPlacement { meta_row: 0, meta_col: 0 },
        ],
    };
    assert_eq!(cfg1.fingerprint(), cfg2.fingerprint());
}

fn fnv1a(text: &str) -> String {
    let mut hash: u64 = 0xcbf29ce484222325;
    for b in text.bytes() {
        hash ^= b as u64;
        hash = hash.wrapping_mul(0x100000001b3);
    }
    format!("{:016x}", hash)
}

#[test]
fn fingerprint_hashes_the_sorted_debug_text() {
    let cfg = layout("x", &[(4, 0), (0, 12), (0, 4)]);
    assert_eq!(cfg.fingerprint(), fnv1a("[(0, 4), (0, 12), (4, 0)]"));
    assert_eq!(layout("e", &[]).fingerprint(), fnv1a("[]"));
    assert_eq!(cfg.fingerprint().len(), 16);
    assert_ne!(cfg.fingerprint(), layout("y", &[(0, 4)]).fingerprint());
}

#[test]
fn validation_messages() {
    let empty = layout("none", &[]);
    assert_eq!(empty.validate(), Err("At least one board is required.".to_string()));
    let crowded = layout("c", &[(0, 0), (1, 1), (2, 2)]);
    assert_eq!(
        crowded.validate(),
        Err("Meta-cell (2, 2) is shared by 3 boards. Maximum is 2.".to_string())
    );
    for p in presets() {
        if p.name == "Cross" || p.name == "L-Shape" {
            // These layouts share meta-cell (2, 2) among three boards.
            assert_eq!(p.validate(), Err("Meta-cell (2, 2) is shared by 3 boards. Maximum is 2.".to_string()));
        } else {
            assert!(p.validate().is_ok(), "{}", p.name);
        }
    }
}

#[test]
fn overlap_table_and_lookups() {
    let cfg = layout("d", &[(0, 0), (2, 2)]);
    let info = cfg.compute_overlaps();
    assert_eq!(info.meta_rows, 5);
    assert_eq!(info.meta_cols, 5);
    assert_eq!(info.cell_owners.len(), 17);
    assert_eq!(info.cell_owners[0], ((0, 0), vec![0]));
    assert_eq!(info.owners_of_meta(4, 4), vec![1]);
    assert_eq!(info.owners_of_meta(0, 4), Vec::<usize>::new());
    assert_eq!(info.owners_of_cell(7, 8), vec![0, 1]);
    assert!(info.is_active(14, 14));
    assert!(!info.is_active(0, 14));
    assert!(info.is_overlap(6, 6));
    assert!(!info.is_overlap(0, 0));
    let shared = info.overlap_meta_cells();
    assert_eq!(shared, vec![((2, 2), vec![0, 1])]);
    assert_eq!(cfg.board_offset(1), (6, 6));
    assert_eq!(cfg.grid_to_local(1, 7, 10), (1, 4));
}

#[test]
fn presets_are_the_builtin_layouts() {
    let p = presets();
    let names: Vec<String> = p.iter().map(|c| c.name.clone()).collect();
    assert_eq!(names, vec!["Single", "Double Diagonal", "Triple Chain", "Samurai", "Cross", "L-Shape"]);
    assert_eq!(p[3].boards.len(), 5);
    assert_eq!(p[4].boards[0], BoardPlacement { meta_row: 0, meta_col: 2 });
}

#[test]
fn generic_board_reads_and_writes_every_owner() {
    let cfg = layout("d", &[(0, 0), (2, 2)]);
    let mut m = GenericMultiBoard::new(&cfg);
    assert_eq!(m.grid_rows(), 15);
    assert_eq!(m.grid_cols(), 15);
    assert_eq!(m.empty_count(), 162 - 9);
    m.set(7, 7, 5);
    assert_eq!(m.get(7, 7), 5);
    assert_eq!(m.boards[0].get(7, 7), 5);
    assert_eq!(m.boards[1].get(1, 1), 5);
    assert!(m.is_overlap(7, 7));
    assert_eq!(m.owning_boards(7, 7), vec![0, 1]);
    assert!(!m.is_empty(7, 7));
    assert_eq!(m.get(0, 14), 0);
    assert_eq!(m.empty_count(), 162 - 10);
    let mut sol = GenericMultiBoard::new(&cfg);
    sol.set(7, 7, 4);
    sol.set(0, 0, 9);
    m.set(0, 0, 9);
    assert_eq!(m.error_count(&sol), 1);
    assert!(!m.is_solved());
}

#[test]
fn generated_single_board_puzzle() {
    let cfg = layout("one", &[(0, 0)]);
    let (puzzle, solution) = generate(&cfg, Difficulty::Easy);
    assert!(solution.is_solved());
    for r in 0..9 {
        for c in 0..9 {
            let v = puzzle.get(r, c);
            assert!(v == 0 || v == solution.get(r, c));
        }
    }
    assert!(puzzle.empty_count() <= 32);
}

#[test]
fn generated_double_puzzle_agrees_on_shared_box() {
    let cfg = layout("d", &[(0, 0), (2, 2)]);
    let (puzzle, solution) = generate(&cfg, Difficulty::Easy);
    for r in 0..3 {
        for c in 0..3 {
            assert_eq!(solution.boards[0].get(6 + r, 6 + c), solution.boards[1].get(r, c));
            assert_eq!(puzzle.boards[0].get(6 + r, 6 + c), puzzle.boards[1].get(r, c));
        }
    }
    assert!(verify(&solution.boards[0]));
}

#[test]
fn generic_stats_are_kept_per_difficulty() {
    let cfg = layout("Samurai", &[(0, 0)]);
    let mut stats = Stats::default();
    let mut history = Vec::new();
    record_win(&mut stats, &mut history, &cfg, "easy", 100, "t1".to_string());
    record_win(&mut stats, &mut history, &cfg, "easy", 80, "t2".to_string());
    record_abandon(&mut stats, &mut history, &cfg, "nightmare", 10, "t3".to_string());
    assert_eq!(stats.get("easy").played, 2);
    assert_eq!(stats.get("easy").won, 2);
    assert_eq!(stats.get("easy").best_time, Some(80));
    assert_eq!(stats.get("medium").played, 1);
    assert_eq!(stats.get("medium").total_time, 10);
    assert_eq!(stats.get("hard").played, 0);
    stats.get_mut("hard").played = 7;
    assert_eq!(stats.hard.played, 7);
    assert_eq!(history[0].config_name, "Samurai");
    assert_eq!(history[2].result, "Abandoned");
    assert_eq!(format_time(61), "01:01");
}

#[test]
fn saved_configs_replace_by_name() {
    let mut configs = vec![layout("a", &[(0, 0)]), layout("b", &[(2, 2)]), layout("a", &[(4, 4)])];
    upsert_config(&mut configs, &layout("a", &[(1, 1)]));
    assert_eq!(configs.len(), 2);
    assert_eq!(configs[0].name, "b");
    assert_eq!(configs[1].boards[0], BoardPlacement { meta_row: 1, meta_col: 1 });
    remove_named(&mut configs, "b");
    assert_eq!(configs.len(), 1);
    assert_eq!(configs[0].name, "a");
}

#[test]
fn generic_next_active() {
    let cfg = layout("d", &[(0, 0), (2, 2)]);
    let m = GenericMultiBoard::new(&cfg);
    assert_eq!(m.next_active(0, 8, 0, 1), None);
    assert_eq!(m.next_active(6, 8, 0, 1), Some((6, 9)));
    assert_eq!(m.next_active(14, 14, -1, -1), Some((13, 13)));
    assert_eq!(m.next_active(9, 0, 0, 1), Some((9, 6)));
}
