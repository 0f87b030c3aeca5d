use vstd::prelude::*;
use vstd::string::StringExecFns;
use crate::number_match::grid::{Cell, digit_class, first_match, some_match, valid_match};
use crate::number_match::session::{NumberMatchGame, NumberMatchView, add_row_view, match_view, undo_view};
use crate::text::{clock_text, decimal, digit_char, format_clock, names, push_decimal, push_signed, signed_decimal};

verus! {

/// What the status line of a number-match game says.
#[derive(Clone, Copy, Debug, PartialEq, Eq, Structural)]
pub enum Notice {
    Clear,
    NothingToUndo,
    /// The pair of cells shown as a hint.
    Hint { a: usize, b: usize },
    NoMatches,
    MaxRows,
    RowAdded,
    InvalidMatch,
    Stuck,
    Cleared { score: i32, time: u32 },
}

/// "row R col C" of a cell index, counted from 1.
pub open spec fn place_chars(i: usize) -> Seq<char> {
    "row "@ + decimal((i / 9 + 1) as nat) + " col "@ + decimal((i % 9 + 1) as nat)
}

/// Text of a status line.
pub open spec fn notice_chars(n: Notice) -> Seq<char> {
    match n {
        Notice::Clear => Seq::empty(),
        Notice::NothingToUndo => "Nothing to undo."@,
        Notice::Hint { a, b } => "Hint: "@ + place_chars(a) + " & "@ + place_chars(b),
        Notice::NoMatches => "No valid matches available."@,
        Notice::MaxRows => "Maximum rows reached."@,
        Notice::RowAdded => "Row added. (20 point penalty)"@,
        Notice::InvalidMatch => "Invalid match."@,
        Notice::Stuck => "No valid matches. Add a row or start a new game."@,
        Notice::Cleared { score, time } => "Board cleared! Score: "@ + signed_decimal(score as int) + " | Time: "@
            + clock_text(time as nat),
    }
}

fn push_place(s: &mut String, i: usize)
    ensures
        final(s)@ == old(s)@ + place_chars(i),
{
    s.append("row ");
    push_decimal(s, (i / 9 + 1) as u64);
    s.append(" col ");
    push_decimal(s, (i % 9 + 1) as u64);
    assert(final(s)@ =~= old(s)@ + place_chars(i));
}

/// Renders a status line.
pub fn notice_text(n: Notice) -> (t: String)
    ensures
        t@ == notice_chars(n),
{
    match n {
        Notice::Clear => String::new(),
        Notice::NothingToUndo => String::from_str("Nothing to undo."),
        Notice::Hint { a, b } => {
            let mut s = String::from_str("Hint: ");
            push_place(&mut s, a);
            s.append(" & ");
            push_place(&mut s, b);
            assert(s@ =~= notice_chars(n));
            s
        },
        Notice::NoMatches => String::from_str("No valid matches available."),
        Notice::MaxRows => String::from_str("Maximum rows reached."),
        Notice::RowAdded => String::from_str("Row added. (20 point penalty)"),
        Notice::InvalidMatch => String::from_str("Invalid match."),
        Notice::Stuck => String::from_str("No valid matches. Add a row or start a new game."),
        Notice::Cleared { score, time } => {
            let mut s = String::from_str("Board cleared! Score: ");
            push_signed(&mut s, score);
            s.append(" | Time: ");
            let clock = format_clock(time);
            s.append(clock.as_str());
            assert(s@ =~= notice_chars(n));
            s
        },
    }
}

/// A finished or abandoned game, for the app to store.
#[derive(Clone, Copy, Debug, PartialEq, Eq, Structural)]
pub struct GameRecord {
    pub won: bool,
    pub score: i32,
    pub matches: u32,
    pub rows_added: u32,
    pub elapsed: u32,
}

/// The record of the game in `v` after `elapsed` seconds.
pub open spec fn record_of(v: NumberMatchView, won: bool, elapsed: u32) -> GameRecord {
    GameRecord {
        won,
        score: v.score as i32,
        matches: v.matches as u32,
        rows_added: v.rows_added as u32,
        elapsed,
    }
}

/// A number-match game in play with the state of the controls around it.
pub struct PlaySession {
    pub game: NumberMatchGame,
    pub selected: Option<usize>,
    pub hint_a: Option<usize>,
    pub hint_b: Option<usize>,
    pub elapsed: u32,
    /// The clock runs while this is set.
    pub active: bool,
    pub notice: Notice,
    pub notice_is_win: bool,
    pub show_stats: bool,
    pub show_history: bool,
}

/// What a fresh game leaves in a session.
pub open spec fn fresh_game(s: PlaySession) -> bool {
    &&& s.game.wf()
    &&& s.game@.rows == 3
    &&& s.game@.score == 0
    &&& s.game@.matches == 0
    &&& s.game@.rows_added == 0
    &&& s.game@.past.len() == 0
    &&& !s.game@.over
    &&& !s.game@.won
    &&& s.selected is None
    &&& s.hint_a is None
    &&& s.hint_b is None
    &&& s.elapsed == 0
    &&& s.active
    &&& s.notice == Notice::Clear
    &&& !s.notice_is_win
}

impl PlaySession {
    /// A session on a fresh game of three rows.
    pub fn new() -> (s: Self)
        ensures
            fresh_game(s),
            !s.show_stats,
            !s.show_history,
    {
        PlaySession {
            game: NumberMatchGame::new(3),
            selected: None,
            hint_a: None,
            hint_b: None,
            elapsed: 0,
            active: true,
            notice: Notice::Clear,
            notice_is_win: false,
            show_stats: false,
            show_history: false,
        }
    }

    /// New game: a game in progress and not over is given up (and
    /// reported), then a fresh game of three rows starts.
    pub fn new_game(&mut self) -> (rec: Option<GameRecord>)
        ensures
            fresh_game(*final(self)),
            final(self).show_stats == old(self).show_stats,
            final(self).show_history == old(self).show_history,
            rec == if old(self).active && !old(self).game@.over {
                Some(record_of(old(self).game@, false, old(self).elapsed))
            } else {
                None
            },
    {
        let rec = if self.active && !self.game.is_over() {
            Some(
                GameRecord {
                    won: false,
                    score: self.game.score(),
                    matches: self.game.matches_made(),
                    rows_added: self.game.rows_added(),
                    elapsed: self.elapsed,
                },
            )
        } else {
            None
        };
        self.game = NumberMatchGame::new(3);
        self.selected = None;
        self.hint_a = None;
        self.hint_b = None;
        self.elapsed = 0;
        self.active = true;
        self.notice = Notice::Clear;
        self.notice_is_win = false;
        rec
    }

    /// Takes back the last match or added row, clearing the selection and
    /// the hint and running the clock again; reports when there is nothing
    /// to undo.
    pub fn undo(&mut self)
        requires
            old(self).game.wf(),
        ensures
            final(self).game.wf(),
            final(self).game@ == undo_view(old(self).game@),
            old(self).game@.past.len() > 0 ==> *final(self) == (PlaySession {
                game: final(self).game,
                selected: None,
                hint_a: None,
                hint_b: None,
                notice: Notice::Clear,
                notice_is_win: false,
                active: true,
                ..*old(self)
            }),
            old(self).game@.past.len() == 0 ==> *final(self) == (PlaySession {
                game: final(self).game,
                notice: Notice::NothingToUndo,
                ..*old(self)
            }),
    {
        if self.game.undo() {
            self.selected = None;
            self.hint_a = None;
            self.hint_b = None;
            self.notice = Notice::Clear;
            self.notice_is_win = false;
            self.active = true;
        } else {
            self.notice = Notice::NothingToUndo;
        }
    }

    /// Shows the first matching pair, or says there is none. Nothing happens
    /// once the game is over. Returns whether anything changed.
    pub fn hint(&mut self) -> (redraw: bool)
        ensures
            redraw == !old(self).game@.over,
            old(self).game@.over ==> *final(self) == *old(self),
            !old(self).game@.over && !some_match(old(self).game@.cells) ==> *final(self) == (PlaySession {
                notice: Notice::NoMatches,
                ..*old(self)
            }),
            !old(self).game@.over && some_match(old(self).game@.cells) ==> ({
                let (a, b) = (final(self).hint_a->0, final(self).hint_b->0);
                &&& final(self).hint_a is Some
                &&& final(self).hint_b is Some
                &&& first_match(old(self).game@.cells, a as int, b as int)
                &&& *final(self) == (PlaySession {
                    hint_a: Some(a),
                    hint_b: Some(b),
                    selected: None,
                    notice: Notice::Hint { a, b },
                    notice_is_win: false,
                    ..*old(self)
                })
            }),
    {
        if self.game.is_over() {
            return false;
        }
        match self.game.hint() {
            Some((a, b)) => {
                self.hint_a = Some(a);
                self.hint_b = Some(b);
                self.selected = None;
                self.notice = Notice::Hint { a, b };
                self.notice_is_win = false;
            },
            None => {
                self.notice = Notice::NoMatches;
            },
        }
        true
    }

    /// Adds a row (20 points off). At 50 rows the game ends instead, given
    /// up and reported. Nothing happens once the game is over. Returns
    /// whether anything changed, and the record of a game that ended.
    pub fn add_row(&mut self) -> (res: (bool, Option<GameRecord>))
        requires
            old(self).game.wf(),
            old(self).game@.score - 20 >= i32::MIN,
            old(self).game@.rows_added < u32::MAX,
        ensures
            final(self).game.wf(),
            final(self).game@ == add_row_view(old(self).game@),
            res.0 == !old(self).game@.over,
            old(self).game@.over ==> *final(self) == *old(self) && res.1 is None,
            !old(self).game@.over && old(self).game@.rows >= 50 ==> *final(self) == (PlaySession {
                game: final(self).game,
                notice: Notice::MaxRows,
                active: false,
                ..*old(self)
            }) && res.1 == Some(record_of(old(self).game@, false, old(self).elapsed)),
            !old(self).game@.over && old(self).game@.rows < 50 ==> *final(self) == (PlaySession {
                game: final(self).game,
                selected: None,
                hint_a: None,
                hint_b: None,
                notice: Notice::RowAdded,
                notice_is_win: false,
                ..*old(self)
            }) && res.1 is None,
    {
        if self.game.is_over() {
            return (false, None);
        }
        if self.game.rows() >= 50 {
            let rec = GameRecord {
                won: false,
                score: self.game.score(),
                matches: self.game.matches_made(),
                rows_added: self.game.rows_added(),
                elapsed: self.elapsed,
            };
            self.game.add_row();
            self.notice = Notice::MaxRows;
            self.active = false;
            return (true, Some(rec));
        }
        self.game.add_row();
        self.selected = None;
        self.hint_a = None;
        self.hint_b = None;
        self.notice = Notice::RowAdded;
        self.notice_is_win = false;
        (true, None)
    }

    /// A click on cell `idx`: clicking an empty cell or the selected cell
    /// drops the selection; with another cell selected, a matching pair is
    /// taken (a cleared board wins, a board with no match left is reported)
    /// and a pair that does not match moves the selection; with nothing
    /// selected the cell is selected. Any hint is dropped. Nothing happens
    /// once the game is over. Returns whether anything changed, and a won
    /// game.
    pub fn click(&mut self, idx: usize) -> (res: (bool, Option<GameRecord>))
        requires
            old(self).game.wf(),
            old(self).game@.score + 110 <= i32::MAX,
            old(self).game@.matches < u32::MAX,
        ensures
            final(self).game.wf(),
            ({
                let s = *old(self);
                let v = s.game@;
                let empty = idx >= v.cells.len() || v.cells[idx as int] is Empty;
                let s1 = PlaySession { hint_a: None, hint_b: None, ..s };
                if v.over {
                    *final(self) == s && !res.0 && res.1 is None
                } else if empty {
                    *final(self) == (PlaySession { selected: None, ..s1 }) && res.0 && res.1 is None
                } else {
                    match s.selected {
                        None => *final(self) == (PlaySession { selected: Some(idx), notice: Notice::Clear, ..s1 })
                            && res.0 && res.1 is None,
                        Some(first) => if first == idx {
                            *final(self) == (PlaySession { selected: None, ..s1 }) && res.0 && res.1 is None
                        } else if !valid_match(v.cells, first as int, idx as int) {
                            *final(self) == (PlaySession {
                                selected: Some(idx),
                                notice: Notice::InvalidMatch,
                                notice_is_win: false,
                                ..s1
                            }) && res.0 && res.1 is None
                        } else {
                            let w = match_view(v, first as int, idx as int);
                            &&& res.0
                            &&& final(self).game@ == w
                            &&& if w.won {
                                &&& *final(self) == (PlaySession {
                                    game: final(self).game,
                                    selected: None,
                                    active: false,
                                    notice: Notice::Cleared { score: w.score as i32, time: s.elapsed },
                                    notice_is_win: true,
                                    ..s1
                                })
                                &&& res.1 == Some(record_of(w, true, s.elapsed))
                            } else {
                                &&& *final(self) == (PlaySession {
                                    game: final(self).game,
                                    selected: None,
                                    notice: if some_match(w.cells) {
                                        Notice::Clear
                                    } else {
                                        Notice::Stuck
                                    },
                                    notice_is_win: false,
                                    ..s1
                                })
                                &&& res.1 is None
                            }
                        },
                    }
                }
            }),
    {
        if self.game.is_over() {
            return (false, None);
        }
        self.hint_a = None;
        self.hint_b = None;
        if self.game.cell_at(idx).is_empty() {
            self.selected = None;
            return (true, None);
        }
        match self.selected {
            None => {
                self.selected = Some(idx);
                self.notice = Notice::Clear;
                (true, None)
            },
            Some(first) => {
                if first == idx {
                    self.selected = None;
                    return (true, None);
                }
                if self.game.is_valid_match(first, idx) {
                    self.game.make_match(first, idx);
                    self.selected = None;
                    self.notice = Notice::Clear;
                    self.notice_is_win = false;
                    if self.game.is_won() {
                        let score = self.game.score();
                        self.active = false;
                        self.notice = Notice::Cleared { score, time: self.elapsed };
                        self.notice_is_win = true;
                        let rec = GameRecord {
                            won: true,
                            score,
                            matches: self.game.matches_made(),
                            rows_added: self.game.rows_added(),
                            elapsed: self.elapsed,
                        };
                        (true, Some(rec))
                    } else {
                        if !self.game.has_moves() {
                            self.notice = Notice::Stuck;
                        }
                        (true, None)
                    }
                } else {
                    self.notice = Notice::InvalidMatch;
                    self.notice_is_win = false;
                    self.selected = Some(idx);
                    (true, None)
                }
            },
        }
    }

    /// The style classes of cell `idx`: "cell empty" for an empty cell
    /// (or one outside the grid); else "cell", the digit's class, then
    /// "selected" and "hint" as they apply.
    pub fn cell_classes(&self, idx: usize) -> (v: Vec<&'static str>)
        ensures
            names(v@) == if idx >= self.game@.cells.len() || self.game@.cells[idx as int] is Empty {
                seq!["cell"@, "empty"@]
            } else {
                let d = self.game@.cells[idx as int]->Digit_0;
                seq!["cell"@, if 1 <= d <= 9 {
                    seq!['d', digit_char(d as nat)]
                } else {
                    seq!['d', '0']
                }] + (if self.selected == Some(idx) {
                    seq!["selected"@]
                } else {
                    Seq::empty()
                }) + (if self.hint_a == Some(idx) || self.hint_b == Some(idx) {
                    seq!["hint"@]
                } else {
                    Seq::empty()
                })
            },
    {
        let mut v: Vec<&'static str> = Vec::new();
        v.push("cell");
        match self.game.cell_at(idx) {
            Cell::Empty => {
                v.push("empty");
            },
            Cell::Digit(d) => {
                v.push(digit_class(d));
                if self.selected == Some(idx) {
                    v.push("selected");
                }
                if self.hint_a == Some(idx) || self.hint_b == Some(idx) {
                    v.push("hint");
                }
            },
        }
        assert(names(v@) =~= if idx >= self.game@.cells.len() || self.game@.cells[idx as int] is Empty {
            seq!["cell"@, "empty"@]
        } else {
            let d = self.game@.cells[idx as int]->Digit_0;
            seq!["cell"@, if 1 <= d <= 9 {
                seq!['d', digit_char(d as nat)]
            } else {
                seq!['d', '0']
            }] + (if self.selected == Some(idx) {
                seq!["selected"@]
            } else {
                Seq::empty()
            }) + (if self.hint_a == Some(idx) || self.hint_b == Some(idx) {
                seq!["hint"@]
            } else {
                Seq::empty()
            })
        });
        v
    }

    /// Escape: drops the selection and the hint.
    pub fn deselect(&mut self)
        ensures
            *final(self) == (PlaySession { selected: None, hint_a: None, hint_b: None, ..*old(self) }),
    {
        self.selected = None;
        self.hint_a = None;
        self.hint_b = None;
    }

    /// One second of play: the clock moves while it runs. Returns whether it
    /// moved.
    pub fn tick(&mut self) -> (moved: bool)
        requires
            old(self).active ==> old(self).elapsed < u32::MAX,
        ensures
            moved == old(self).active,
            moved ==> *final(self) == (PlaySession { elapsed: (old(self).elapsed + 1) as u32, ..*old(self) }),
            !moved ==> *final(self) == *old(self),
    {
        if self.active {
            self.elapsed = self.elapsed + 1;
            true
        } else {
            false
        }
    }

    /// Shows or hides the statistics.
    pub fn toggle_stats(&mut self)
        ensures
            *final(self) == (PlaySession { show_stats: !old(self).show_stats, ..*old(self) }),
    {
        self.show_stats = !self.show_stats;
    }

    /// Shows or hides the history.
    pub fn toggle_history(&mut self)
        ensures
            *final(self) == (PlaySession { show_history: !old(self).show_history, ..*old(self) }),
    {
        self.show_history = !self.show_history;
    }
}

} // verus!
