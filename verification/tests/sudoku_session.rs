use puzzle_games::sudoku::board::Board;
use puzzle_games::sudoku::generator::Difficulty;
use puzzle_games::keys::{key_from_str, Key, KeyEffect};
use puzzle_games::sudoku::session::{first_empty, notice_text, Notice, SudokuSession};
use puzzle_games::sudoku::solver::verify;

fn fresh() -> SudokuSession {
    let s = SudokuSession::new();
    assert!(s.active);
    assert_eq!(s.elapsed, 0);
    assert!(s.selected.is_none());
    for r in 0..9 {
        for c in 0..9 {
            assert_eq!(s.current.get(r, c), s.puzzle.get(r, c));
            let p = s.puzzle.get(r, c);
            assert!(p == 0 || p == s.solution.get(r, c));
        }
    }
    s
}

fn first_open(s: &SudokuSession) -> (usize, usize) {
    for r in 0..9 {
        for c in 0..9 {
            if s.puzzle.is_empty(r, c) {
                return (r, c);
            }
        }
    }
    panic!("no open cell");
}

#[test]
fn session_hint_fills_first_empty_cell() {
    let mut s = fresh();
    let (r, c) = first_open(&s);
    let (redraw, rec) = s.hint();
    assert!(redraw);
    assert!(rec.is_none());
    assert_eq!(s.current.get(r, c), s.solution.get(r, c));
    assert_eq!(s.selected, Some((r, c)));
    assert_eq!(
        s.notice,
        Notice::Hint { value: s.solution.get(r, c), row: r, col: c }
    );
}

#[test]
fn session_place_and_check_and_reset() {
    let mut s = fresh();
    let (r, c) = first_open(&s);
    assert!(s.select_cell(r, c));
    let right = s.solution.get(r, c);
    let wrong = if right == 9 { 1 } else { right + 1 };
    let (changed, rec) = s.place_number(wrong);
    assert!(changed);
    assert!(rec.is_none());
    assert_eq!(s.current.get(r, c), wrong);
    s.check();
    assert_eq!(s.notice, Notice::Errors(1));
    assert_eq!(notice_text(s.notice), "Found 1 error(s).");
    s.place_number(0);
    s.check();
    assert_eq!(s.notice, Notice::NoErrors);
    s.reset();
    assert_eq!(s.notice, Notice::BoardReset);
    assert_eq!(s.current.get(r, c), 0);
    assert!(s.selected.is_none());
}

#[test]
fn session_given_cell_cannot_change() {
    let mut s = fresh();
    let mut given = None;
    for r in 0..9 {
        for c in 0..9 {
            if given.is_none() && !s.puzzle.is_empty(r, c) {
                given = Some((r, c));
            }
        }
    }
    let (r, c) = given.unwrap();
    let before = s.current.get(r, c);
    s.select_cell(r, c);
    let (changed, _) = s.place_number(if before == 1 { 2 } else { 1 });
    assert!(!changed);
    assert_eq!(s.current.get(r, c), before);
}

#[test]
fn session_marks_toggle_in_hint_mode() {
    let mut s = fresh();
    let (r, c) = first_open(&s);
    s.select_cell(r, c);
    s.toggle_hint_mode();
    assert!(s.place_number(3).0);
    assert_eq!(s.hints[r][c], 1 << 3);
    assert!(s.place_number(5).0);
    assert_eq!(s.hints[r][c], (1 << 3) | (1 << 5));
    assert!(s.place_number(3).0);
    assert_eq!(s.hints[r][c], 1 << 5);
    assert!(s.place_number(0).0);
    assert_eq!(s.hints[r][c], 0);
    assert_eq!(s.current.get(r, c), 0);
}

#[test]
fn session_solve_stops_the_game() {
    let mut s = fresh();
    s.solve();
    assert!(!s.active);
    assert_eq!(s.notice, Notice::Solved);
    assert!(verify(&s.current));
    assert!(!s.tick());
    assert_eq!(s.hint(), (false, None));
    let rec = s.new_game();
    assert!(rec.is_none());
    assert!(s.active);
}

#[test]
fn session_new_game_reports_abandon() {
    let mut s = fresh();
    assert!(s.tick());
    assert!(s.tick());
    let rec = s.new_game().unwrap();
    assert!(!rec.won);
    assert_eq!(rec.elapsed, 2);
    assert_eq!(s.elapsed, 0);
}

#[test]
fn session_filling_everything_wins() {
    let mut s = fresh();
    s.set_difficulty(Difficulty::Hard);
    let mut last = None;
    loop {
        let (redraw, rec) = s.hint();
        if rec.is_some() {
            last = rec;
            break;
        }
        if !redraw {
            break;
        }
    }
    let rec = last.unwrap();
    assert!(rec.won);
    assert!(!s.active);
    assert!(s.notice_is_win);
    assert_eq!(notice_text(s.notice), "Puzzle Complete! Time: 00:00");
}

#[test]
fn session_arrow_keys_move_selection() {
    let mut s = fresh();
    assert_eq!(s.key_down(Key::Up), KeyEffect::Ignore);
    s.select_cell(0, 8);
    assert_eq!(s.key_down(Key::Up), KeyEffect::Ignore);
    assert_eq!(s.key_down(Key::Right), KeyEffect::Ignore);
    assert_eq!(s.key_down(Key::Down), KeyEffect::Redraw);
    assert_eq!(s.selected, Some((1, 8)));
    assert_eq!(s.key_down(Key::Left), KeyEffect::Redraw);
    assert_eq!(s.selected, Some((1, 7)));
    assert_eq!(s.key_down(Key::Digit(4)), KeyEffect::Place(4));
    assert_eq!(s.key_down(Key::Erase), KeyEffect::Place(0));
}

#[test]
fn key_names() {
    assert_eq!(key_from_str("7"), Key::Digit(7));
    assert_eq!(key_from_str("0"), Key::Erase);
    assert_eq!(key_from_str("Backspace"), Key::Erase);
    assert_eq!(key_from_str("Delete"), Key::Erase);
    assert_eq!(key_from_str("ArrowLeft"), Key::Left);
    assert_eq!(key_from_str("x"), Key::Other);
}

#[test]
fn notice_texts() {
    assert_eq!(notice_text(Notice::Clear), "");
    assert_eq!(
        notice_text(Notice::Hint { value: 5, row: 0, col: 8 }),
        "Hint: 5 at row 1, col 9"
    );
    assert_eq!(notice_text(Notice::Complete(75)), "Puzzle Complete! Time: 01:15");
    assert_eq!(notice_text(Notice::NoEmptyCells), "No empty cells!");
}

#[test]
fn first_empty_is_row_major() {
    let mut b = Board::new();
    assert_eq!(first_empty(&b), Some((0, 0)));
    for r in 0..9 {
        for c in 0..9 {
            b.set(r, c, 1);
        }
    }
    assert_eq!(first_empty(&b), None);
    b.set(4, 2, 0);
    b.set(6, 0, 0);
    assert_eq!(first_empty(&b), Some((4, 2)));
}
