use puzzle_games::generic_sudoku::config::{BoardPlacement, PuzzleConfig};
use puzzle_games::generic_sudoku::look::{cell_classes as layout_classes, cell_content, font_size, tint_index};
use puzzle_games::generic_sudoku::session::PlaySession as LayoutSession;
use puzzle_games::merge_game::game::{Cell as MergeCell, GameState as MergeState};
use puzzle_games::merge_game::session::MergeSession;
use puzzle_games::multi_sudoku::look::{cell_classes as multi_classes, cell_look as multi_look, CellContent};
use puzzle_games::multi_sudoku::session::MultiSession;
use puzzle_games::number_match::play::PlaySession as NmSession;
use puzzle_games::sudoku::look::{cell_classes, cell_look, is_noted, CellContent as SudokuContent};
use puzzle_games::sudoku::session::SudokuSession;
use puzzle_games::water_sort::game::{Bottle, GameState as WaterState};
use puzzle_games::water_sort::generator::Difficulty as WaterDifficulty;
use puzzle_games::water_sort::play::PlaySession as WaterSession;

#[test]
fn sudoku_cell_look_and_classes() {
    let mut s = SudokuSession::new();
    let mut open = None;
    let mut given = None;
    for r in 0..9 {
        for c in 0..9 {
            if s.puzzle.is_empty(r, c) {
                if open.is_none() {
                    open = Some((r, c));
                }
            } else if given.is_none() {
                given = Some((r, c));
            }
        }
    }
    let (gr, gc) = given.unwrap();
    let l = cell_look(&s, gr, gc);
    assert_eq!(l.content, SudokuContent::Given(s.puzzle.get(gr, gc)));
    let (r, c) = open.unwrap();
    s.select_cell(r, c);
    let l = cell_look(&s, r, c);
    assert!(l.selected);
    assert_eq!(l.content, SudokuContent::Empty);
    let same_row = cell_look(&s, r, (c + 1) % 9);
    assert!(same_row.highlighted && !same_row.selected);
    s.toggle_hint_mode();
    s.place_number(4);
    let l = cell_look(&s, r, c);
    assert_eq!(l.content, SudokuContent::Marks(1 << 4));
    assert!(is_noted(1 << 4, 4));
    assert!(!is_noted(1 << 4, 5));
    let b = cell_look(&s, 2, 2);
    assert!(b.border_right && b.border_bottom);
    let e = cell_look(&s, 8, 8);
    assert!(!e.border_right && !e.border_bottom);
    let classes = cell_classes(cell_look(&s, r, c));
    assert_eq!(classes[0], "cell");
    assert_eq!(classes[1], "selected");
    assert_eq!(*classes.last().unwrap(), "hints");
}

#[test]
fn multi_cell_look_edges_and_overlap() {
    let mut s = MultiSession::new();
    let spacer = multi_look(&s, 0, 20);
    assert!(spacer.spacer);
    assert_eq!(multi_classes(spacer), vec!["cell-spacer"]);
    let corner = multi_look(&s, 6, 6);
    assert!(corner.overlap);
    assert!(corner.left_thick && corner.top_thick);
    let edge = multi_look(&s, 8, 8);
    assert!(edge.border_right && edge.border_bottom);
    assert!(s.select_cell(7, 7));
    let peer = multi_look(&s, 7, 12);
    assert!(peer.highlighted);
    let other = multi_look(&s, 0, 0);
    assert!(!other.highlighted);
    let l = multi_look(&s, 7, 7);
    assert!(l.selected);
    let classes = multi_classes(l);
    assert_eq!(&classes[..3], &["cell", "selected", "overlap"]);
    match l.content {
        CellContent::Given(v) => assert_eq!(v, s.puzzle.get(7, 7)),
        CellContent::Empty => assert!(s.puzzle.is_empty(7, 7)),
        _ => panic!("fresh cell shows a given digit or nothing"),
    }
}

#[test]
fn layout_cell_classes_repeat_per_board() {
    let config = PuzzleConfig {
        name: "Double".to_string(),
        boards: vec![BoardPlacement { meta_row: 0, meta_col: 0 }, BoardPlacement { meta_row: 2, meta_col: 2 }],
    };
    let mut s = LayoutSession::new(config);
    assert_eq!(layout_classes(&s, 0, 14), vec!["cell-spacer"]);
    let c = layout_classes(&s, 8, 8);
    // board 0 sees its last row and column; board 1 sees a box end.
    assert_eq!(&c[..4], &["cell", "overlap", "border-right", "border-bottom"]);
    assert_eq!(c.iter().filter(|x| **x == "border-right").count(), 2);
    assert_eq!(c.iter().filter(|x| **x == "border-bottom").count(), 2);
    assert!(s.select_cell(6, 6));
    let h = layout_classes(&s, 6, 14);
    assert_eq!(h[1], "highlighted");
    assert_eq!(tint_index(&s, 8, 8), Some(0));
    assert_eq!(tint_index(&s, 14, 14), Some(1));
    assert_eq!(tint_index(&s, 0, 14), None);
    assert_eq!(font_size(30), 14);
    assert_eq!(font_size(32), 16);
    let _ = cell_content(&s, 0, 0);
}

#[test]
fn merge_tile_marks() {
    let mut game = MergeState::new();
    game.cells[0] = MergeCell::Value(2);
    game.cells[1] = MergeCell::Value(2);
    game.cells[2] = MergeCell::Value(4);
    let mut s = MergeSession::resume(game, 0);
    assert_eq!(s.tile_marks(1), (false, false));
    s.click(0);
    assert_eq!(s.tile_marks(0), (true, false));
    assert_eq!(s.tile_marks(1), (false, true));
    assert_eq!(s.tile_marks(2), (false, false));
}

#[test]
fn water_tube_classes() {
    let state = WaterState::new(
        vec![Bottle::from_units(vec![1, 1, 1, 1]), Bottle::from_units(vec![2, 2, 2]), Bottle::from_units(vec![2])],
        2,
    );
    let mut s = WaterSession::new(WaterDifficulty::Easy, state);
    assert_eq!(s.tube_classes(0), vec!["tube", "complete"]);
    s.click(2);
    assert_eq!(s.tube_classes(2), vec!["tube", "selected"]);
    s.deselect();
    s.hint();
    let src = s.hint_src.unwrap();
    let dst = s.hint_dst.unwrap();
    assert_eq!(s.tube_classes(src), vec!["tube", "hint-src"]);
    assert_eq!(s.tube_classes(dst), vec!["tube", "hint-dst"]);
}

#[test]
fn number_match_cell_classes() {
    let mut s = NmSession::new();
    let v = s.game.cell_value(0);
    let d = format!("d{}", v);
    assert_eq!(s.cell_classes(0), vec!["cell", d.as_str()]);
    s.click(0);
    assert_eq!(s.cell_classes(0), vec!["cell", d.as_str(), "selected"]);
    assert_eq!(s.cell_classes(10_000), vec!["cell", "empty"]);
}

#[test]
fn stats_texts() {
    assert_eq!(puzzle_games::text::best_time_text(Some(125)), "02:05");
    assert_eq!(puzzle_games::text::best_time_text(None), "--:--");
    assert_eq!(puzzle_games::text::average_time_text(100, 3), "00:33");
    assert_eq!(puzzle_games::text::average_time_text(100, 0), "--:--");
    assert_eq!(puzzle_games::text::best_score_text(Some(-5)), "-5");
    assert_eq!(puzzle_games::text::best_score_text(None), "--");
}
