use puzzle_games::generic_sudoku::generator::Difficulty as LayoutDifficulty;
use puzzle_games::generic_sudoku::config::{presets, BoardPlacement, PuzzleConfig};
use puzzle_games::generic_sudoku::editor::ConfigEditor;
use puzzle_games::generic_sudoku::session::PlaySession as LayoutSession;
use puzzle_games::hex_puzzle::game::{Cell as HexCell, Direction as HexDirection, GameState as HexState, Hex, Move};
use puzzle_games::hex_puzzle::levels::Difficulty as HexDifficulty;
use puzzle_games::hex_puzzle::session::{notice_text as hex_notice_text, HexSession, Notice as HexNotice};
use puzzle_games::keys::{key_action, Key, KeyAction, KeyEffect};
use puzzle_games::merge_game::board::{Board, Cell as SlideCell, Direction};
use puzzle_games::merge_game::game::{Cell as MergeCell, GameState as MergeState};
use puzzle_games::merge_game::play::{direction_of_key, slide_notice_text, SlideNotice, SlideSession};
use puzzle_games::merge_game::session::{notice_text as merge_notice_text, MergeSession, Notice as MergeNotice};
use puzzle_games::multi_sudoku::multi_board::MultiBoard;
use puzzle_games::multi_sudoku::session::{notice_text as multi_notice_text, MultiSession, Notice as MultiNotice};
use puzzle_games::number_match::play::{notice_text as nm_notice_text, Notice as NmNotice, PlaySession as NmSession};
use puzzle_games::text::push_signed;
use puzzle_games::water_sort::game::{Bottle, GameState as WaterState};
use puzzle_games::water_sort::generator::Difficulty as WaterDifficulty;
use puzzle_games::water_sort::play::{notice_text as water_notice_text, Notice as WaterNotice, PlaySession as WaterSession};

// ---- linked boards ----

#[test]
fn multi_session_starts_on_the_dealt_puzzle() {
    let s = MultiSession::new();
    assert!(s.active);
    for gr in 0..21 {
        for gc in 0..21 {
            assert_eq!(s.current.get(gr, gc), s.puzzle.get(gr, gc));
        }
    }
}

#[test]
fn multi_session_hint_then_solve() {
    let mut s = MultiSession::new();
    let (redraw, rec) = s.hint();
    assert!(redraw);
    assert!(rec.is_none());
    let (gr, gc) = s.selected.unwrap();
    assert!(MultiBoard::is_active(gr, gc));
    assert_eq!(s.current.get(gr, gc), s.solution.get(gr, gc));
    assert!(s.puzzle.is_empty(gr, gc));
    assert_eq!(s.notice, MultiNotice::Hint(s.solution.get(gr, gc)));
    s.solve();
    assert!(!s.active);
    assert!(s.current.is_solved());
    s.check();
    assert_eq!(s.notice, MultiNotice::NoErrors);
}

#[test]
fn multi_session_arrows_skip_off_board_cells() {
    let mut s = MultiSession::new();
    assert!(s.select_cell(8, 0));
    assert_eq!(s.key_down(Key::Down), KeyEffect::Ignore);
    assert!(s.select_cell(8, 8));
    assert_eq!(s.key_down(Key::Down), KeyEffect::Redraw);
    assert_eq!(s.selected, Some((9, 8)));
    assert!(!s.select_cell(0, 20));
    assert_eq!(s.key_down(Key::Digit(3)), KeyEffect::Place(3));
}

#[test]
fn multi_session_wrong_number_is_counted() {
    let mut s = MultiSession::new();
    let (redraw, _) = s.hint();
    assert!(redraw);
    let (gr, gc) = s.selected.unwrap();
    let right = s.solution.get(gr, gc);
    let wrong = if right == 9 { 1 } else { right + 1 };
    let (changed, rec) = s.place_number(wrong);
    assert!(changed);
    assert!(rec.is_none());
    s.check();
    assert_eq!(s.notice, MultiNotice::Errors(1));
    assert_eq!(multi_notice_text(s.notice), "Found 1 error(s).");
    assert_eq!(multi_notice_text(MultiNotice::Hint(7)), "Hint: 7 placed");
    assert_eq!(multi_notice_text(MultiNotice::Complete(61)), "All boards complete! Time: 01:01");
}

// ---- configured layouts ----

fn double() -> PuzzleConfig {
    PuzzleConfig {
        name: "Double".to_string(),
        boards: vec![BoardPlacement { meta_row: 0, meta_col: 0 }, BoardPlacement { meta_row: 2, meta_col: 2 }],
    }
}

#[test]
fn layout_session_hint_reset_and_solve() {
    let mut s = LayoutSession::new(double());
    assert!(s.active);
    let (redraw, rec) = s.hint();
    assert!(redraw);
    assert!(rec.is_none());
    let (gr, gc) = s.selected.unwrap();
    assert_eq!(s.current.get(gr, gc), s.solution.get(gr, gc));
    s.reset();
    assert_eq!(s.current.get(gr, gc), 0);
    assert_eq!(s.notice, MultiNotice::BoardReset);
    s.solve();
    assert!(!s.active);
    assert!(s.current.is_solved());
    assert!(s.leave().is_none());
}

#[test]
fn layout_session_arrows_and_abandon() {
    let mut s = LayoutSession::new(double());
    assert!(!s.select_cell(0, 14));
    assert!(s.select_cell(0, 8));
    assert_eq!(s.key_down(Key::Right), KeyEffect::Ignore);
    assert!(s.select_cell(6, 8));
    assert_eq!(s.key_down(Key::Right), KeyEffect::Redraw);
    assert_eq!(s.selected, Some((6, 9)));
    assert!(s.tick());
    let rec = s.new_game().unwrap();
    assert!(!rec.won);
    assert_eq!(rec.elapsed, 1);
}

#[test]
fn editor_places_and_refuses_boards() {
    let mut e = ConfigEditor::new();
    assert_eq!(e.config.boards.len(), 1);
    e.place_board(7, 0);
    assert_eq!(e.message, "Board would exceed grid bounds.");
    e.place_board(0, 0);
    assert_eq!(e.message, "A board already exists at this position.");
    e.place_board(2, 2);
    assert_eq!(e.message, "Board 2 placed at (2, 2).");
    e.place_board(1, 1);
    assert_eq!(e.message, "Meta-cell (2, 2) is shared by 3 boards. Maximum is 2.");
    assert_eq!(e.config.boards.len(), 2);
    e.remove_board(5);
    assert_eq!(e.message, "Meta-cell (2, 2) is shared by 3 boards. Maximum is 2.");
    e.remove_board(0);
    assert_eq!(e.message, "Board 1 removed.");
    assert_eq!(e.config.boards, vec![BoardPlacement { meta_row: 2, meta_col: 2 }]);
    e.remove_board(0);
    assert_eq!(e.message, "Must keep at least one board.");
    e.clear_all();
    assert_eq!(e.config.boards, vec![BoardPlacement { meta_row: 0, meta_col: 0 }]);
    assert_eq!(e.message, "Reset to single board.");
}

#[test]
fn editor_names_presets_and_imports() {
    let mut e = ConfigEditor::new();
    assert!(e.save());
    assert_eq!(e.message, "Config 'Custom' saved.");
    e.set_name(String::new());
    assert!(!e.save());
    assert_eq!(e.message, "Please enter a name.");
    e.load_preset(3);
    assert_eq!(e.config.name, "Samurai");
    assert_eq!(e.message, "Loaded preset: Samurai");
    assert!(e.start_game());
    e.load_preset(4);
    assert!(!e.start_game());
    assert_eq!(e.message, "Meta-cell (2, 2) is shared by 3 boards. Maximum is 2.");
    e.import(None);
    assert_eq!(e.message, "Failed to parse JSON.");
    e.import(Some(presets().remove(5)));
    assert_eq!(e.message, "Invalid config: Meta-cell (2, 2) is shared by 3 boards. Maximum is 2.");
    e.import(Some(double()));
    assert_eq!(e.message, "Config imported.");
    assert_eq!(e.config.name, "Double");
    let saved = vec![double()];
    e.load_saved(&saved, 0);
    assert_eq!(e.message, "Loaded config: Double");
    assert_eq!(e.delete_saved(&saved, 0), Some("Double".to_string()));
    assert_eq!(e.message, "Deleted config: Double");
    assert_eq!(e.delete_saved(&saved, 1), None);
    assert!(double().fits());
    let far = PuzzleConfig { name: "Far".to_string(), boards: vec![BoardPlacement { meta_row: usize::MAX, meta_col: 0 }] };
    assert!(!far.fits());
}

// ---- number match ----

#[test]
fn number_match_clicks_select_match_and_undo() {
    let mut s = NmSession::new();
    assert_eq!(s.game.rows(), 3);
    let (a, b) = s.game.hint().unwrap();
    let before = s.game.score();
    assert_eq!(s.click(a), (true, None));
    assert_eq!(s.selected, Some(a));
    let (changed, rec) = s.click(b);
    assert!(changed);
    assert!(rec.is_none());
    assert!(s.selected.is_none());
    assert_eq!(s.game.score(), before + 10);
    assert_eq!(s.game.cell_value(a), 0);
    s.undo();
    assert_eq!(s.game.score(), before);
    assert!(s.game.cell_value(a) != 0);
    s.undo();
    assert_eq!(s.notice, NmNotice::NothingToUndo);
}

#[test]
fn number_match_hint_and_rows() {
    let mut s = NmSession::new();
    assert!(s.hint());
    match s.notice {
        NmNotice::Hint { a, b } => {
            assert_eq!(s.hint_a, Some(a));
            assert_eq!(s.hint_b, Some(b));
        }
        NmNotice::NoMatches => assert!(s.hint_a.is_none()),
        _ => panic!("unexpected notice"),
    }
    let (added, rec) = s.add_row();
    assert!(added);
    assert!(rec.is_none());
    assert_eq!(s.game.rows(), 4);
    assert_eq!(s.game.score(), -20);
    assert_eq!(nm_notice_text(s.notice), "Row added. (20 point penalty)");
    s.deselect();
    assert!(s.hint_a.is_none());
    let rec = s.new_game().unwrap();
    assert_eq!(rec.score, -20);
    assert_eq!(rec.rows_added, 1);
}

#[test]
fn number_match_texts_and_keys() {
    assert_eq!(nm_notice_text(NmNotice::Hint { a: 0, b: 10 }), "Hint: row 1 col 1 & row 2 col 2");
    assert_eq!(
        nm_notice_text(NmNotice::Cleared { score: 250, time: 5 }),
        "Board cleared! Score: 250 | Time: 00:05"
    );
    assert_eq!(
        nm_notice_text(NmNotice::Cleared { score: -40, time: 0 }),
        "Board cleared! Score: -40 | Time: 00:00"
    );
    assert_eq!(key_action("Escape", false, false), KeyAction::Deselect);
    assert_eq!(key_action("z", true, false), KeyAction::Undo);
    assert_eq!(key_action("z", false, true), KeyAction::Undo);
    assert_eq!(key_action("z", false, false), KeyAction::Ignore);
    let mut t = String::new();
    push_signed(&mut t, i32::MIN);
    assert_eq!(t, "-2147483648");
}

// ---- water sort ----

fn two_tubes() -> WaterState {
    WaterState::new(
        vec![Bottle::from_units(vec![1, 1, 1, 2]), Bottle::from_units(vec![2, 2, 2, 1]), Bottle::new()],
        2,
    )
}

#[test]
fn water_session_click_pour_and_win() {
    let mut s = WaterSession::new(WaterDifficulty::Easy, two_tubes());
    assert_eq!(s.click(2).0, false);
    assert_eq!(s.click(0), (true, None));
    assert_eq!(s.selected, Some(0));
    let (changed, rec) = s.click(2);
    assert!(changed);
    assert!(rec.is_none());
    assert_eq!(s.game.move_count(), 1);
    assert!(s.click(1).0);
    let (_, rec) = s.click(0);
    assert!(rec.is_none());
    assert!(s.click(2).0);
    let (_, rec) = s.click(1);
    let rec = rec.unwrap();
    assert!(rec.won);
    assert_eq!(rec.moves, 3);
    assert!(!s.active);
    assert!(s.notice_is_win);
    assert_eq!(water_notice_text(s.notice), "Solved in 3 moves! Time: 00:00");
    assert_eq!(s.click(0), (false, None));
}

#[test]
fn water_session_invalid_pour_undo_and_reset() {
    let mut s = WaterSession::new(WaterDifficulty::Medium, two_tubes());
    assert!(s.click(0).0);
    assert!(s.click(1).0);
    assert_eq!(s.notice, WaterNotice::InvalidPour);
    assert_eq!(s.selected, Some(1));
    s.undo();
    assert_eq!(s.notice, WaterNotice::NothingToUndo);
    s.click(2);
    assert_eq!(s.game.move_count(), 1);
    s.undo();
    assert_eq!(s.game.move_count(), 0);
    assert!(s.hint());
    match s.notice {
        WaterNotice::Hint { src, dst } => {
            assert!(s.game.can_pour(src, dst));
            assert_eq!(s.hint_src, Some(src));
        }
        _ => panic!("expected a hint"),
    }
    assert!(s.tick());
    s.reset();
    assert_eq!(s.elapsed, 0);
    assert_eq!(s.notice, WaterNotice::BoardReset);
    assert_eq!(water_notice_text(WaterNotice::Hint { src: 0, dst: 2 }), "Hint: pour tube 1 -> tube 3");
    let rec = s.new_game(two_tubes()).unwrap();
    assert!(!rec.won);
}

// ---- merge ----

#[test]
fn merge_session_starts_with_five_tiles() {
    let s = MergeSession::new();
    let tiles = s.game.cells.iter().filter(|c| **c != MergeCell::Empty).count();
    assert_eq!(tiles, 5);
    assert!(s.game.cells.iter().all(|c| *c == MergeCell::Empty || *c == MergeCell::Value(1)));
}

#[test]
fn merge_session_clicks() {
    let mut game = MergeState::new();
    game.cells[0] = MergeCell::Value(2);
    game.cells[1] = MergeCell::Value(2);
    game.cells[2] = MergeCell::Value(4);
    let mut s = MergeSession::resume(game, 7);
    assert!(!s.click(5));
    assert!(s.selected.is_none());
    assert!(!s.click(0));
    assert_eq!(s.selected, Some(0));
    assert!(!s.click(2));
    assert_eq!(s.selected, Some(2));
    assert_eq!(s.notice, MergeNotice::Mismatch);
    assert!(!s.click(2));
    assert!(s.selected.is_none());
    s.click(0);
    assert!(s.click(1));
    assert_eq!(s.game.cells[1], MergeCell::Value(4));
    assert_eq!(s.game.cells[0], MergeCell::Empty);
    assert_eq!(s.notice, MergeNotice::Merged(4));
    assert_eq!(merge_notice_text(s.notice), "Merged into 4!");
    assert!(s.spawn_tick());
    s.timer_tick();
    let rec = s.new_game();
    assert_eq!(rec.score, 4);
    assert_eq!(rec.merges, 1);
    assert_eq!(rec.elapsed, 8);
}

// ---- 2048 ----

#[test]
fn slide_session_starts_with_two_tiles() {
    let s = SlideSession::new();
    let tiles = s.board.cells.iter().filter(|c| **c != SlideCell::Empty).count();
    assert_eq!(tiles, 2);
    assert!(s.active);
}

#[test]
fn slide_session_move_and_undo() {
    let mut b = Board::new();
    b.place(0, 2);
    b.place(1, 2);
    let mut s = SlideSession::resume(b, 3);
    let (moved, rec) = s.do_move(Direction::Left);
    assert!(moved);
    assert!(rec.is_none());
    assert_eq!(s.board.cells[0], SlideCell::Value(4));
    assert_eq!(s.board.score, 4);
    assert!(s.undo());
    assert_eq!(s.board.cells[0], SlideCell::Value(2));
    assert_eq!(s.board.cells[1], SlideCell::Value(2));
    assert_eq!(s.elapsed, 3);
    assert!(!s.undo());
    assert_eq!(s.notice, SlideNotice::NothingToUndo);
}

#[test]
fn slide_session_game_over_and_win() {
    let mut b = Board::new();
    let vals = [2u32, 4, 2, 4, 4, 2, 4, 2, 2, 4, 2, 4, 4, 2, 4, 2];
    for (i, v) in vals.iter().enumerate() {
        b.place(i, *v);
    }
    let s = SlideSession::resume(b, 0);
    assert!(s.game_over);
    assert!(!s.active);
    assert_eq!(slide_notice_text(s.notice), "Game Over! Start a new game.");
    let mut w = Board::new();
    w.place(0, 1024);
    w.place(1, 1024);
    let mut s = SlideSession::resume(w, 0);
    assert!(!s.won);
    let (moved, _) = s.do_move(Direction::Left);
    assert!(moved);
    assert!(s.won);
    assert_eq!(s.notice, SlideNotice::Reached2048);
    let _ = s.do_move(Direction::Right);
    assert!(s.keep_playing);
    assert_eq!(
        slide_notice_text(SlideNotice::GameOver { score: 40, highest: 8 }),
        "Game Over! Score: 40 | Highest: 8"
    );
    assert_eq!(direction_of_key("W"), Some(Direction::Up));
    assert_eq!(direction_of_key("ArrowRight"), Some(Direction::Right));
    assert_eq!(direction_of_key("q"), None);
}

// ---- hex ----

#[test]
fn hex_session_click_outcomes() {
    let mut g = HexState::empty(2);
    g.set(Hex::new(0, 0), HexCell::Tile(HexDirection::E));
    g.set(Hex::new(1, 0), HexCell::Tile(HexDirection::W));
    assert!(g.on_board_cells());
    let mut s = HexSession::resume(g, 4, HexDifficulty::Easy);
    assert_eq!(s.click(Hex::new(-2, 0)), (Some(Move::Empty), None));
    assert!(s.last_clicked.is_none());
    assert_eq!(s.click(Hex::new(0, 0)), (Some(Move::Blocked), None));
    assert_eq!(s.notice, HexNotice::Blocked);
    assert_eq!(s.click(Hex::new(1, 0)), (Some(Move::Blocked), None));
    assert_eq!(s.game.moves, 0);
    let mut g = HexState::empty(2);
    g.set(Hex::new(0, 0), HexCell::Tile(HexDirection::E));
    let mut s = HexSession::resume(g, 9, HexDifficulty::Hard);
    let (m, rec) = s.click(Hex::new(0, 0));
    assert_eq!(m, Some(Move::Removed));
    let rec = rec.unwrap();
    assert!(rec.solved);
    assert_eq!(rec.moves, 1);
    assert_eq!(rec.elapsed, 9);
    assert!(s.recorded);
    assert_eq!(hex_notice_text(s.notice), "Solved in 1 moves!");
    assert_eq!(s.click(Hex::new(0, 0)), (None, None));
    assert!(!s.timer_tick());
    assert!(s.new_game().is_none());
}

#[test]
fn hex_session_difficulty_change_starts_over() {
    let mut s = HexSession::new();
    assert_eq!(s.game.radius, 3);
    assert!(!s.set_difficulty(HexDifficulty::Medium));
    assert!(s.set_difficulty(HexDifficulty::Expert));
    assert_eq!(s.game.radius, 4);
    assert_eq!(s.game.moves, 0);
    assert_eq!(hex_notice_text(HexNotice::Stuck), "Stuck \u{2014} no tile can move.");
}

#[test]
fn difficulty_labels() {
    assert_eq!(HexDifficulty::from_label("Expert"), HexDifficulty::Expert);
    assert_eq!(HexDifficulty::from_label("Easy"), HexDifficulty::Easy);
    assert_eq!(HexDifficulty::from_label("whatever"), HexDifficulty::Medium);
    assert_eq!(LayoutDifficulty::Hard.name(), "hard");
    assert_eq!(LayoutDifficulty::Easy.name(), "easy");
}
