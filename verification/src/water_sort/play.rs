use vstd::prelude::*;
use vstd::string::StringExecFns;
use crate::water_sort::game::{GameState, complete_bottle, pour_ok, solved};
use crate::water_sort::generator::Difficulty;
use crate::water_sort::session::{WaterSortGame, pour_view, reset_view, undo_view};
use crate::water_sort::solver::{Move, solves};
use crate::text::{clock_text, decimal, format_clock, names, push_decimal};

verus! {

/// What the status line of a water-sort game says.
#[derive(Clone, Copy, Debug, PartialEq, Eq, Structural)]
pub enum Notice {
    Clear,
    BoardReset,
    NothingToUndo,
    /// The pour shown as a hint, from one tube to another.
    Hint { src: usize, dst: usize },
    NoSolution,
    InvalidPour,
    Solved { moves: u32, time: u32 },
}

/// Text of a status line; tubes are counted from 1.
pub open spec fn notice_chars(n: Notice) -> Seq<char> {
    match n {
        Notice::Clear => Seq::empty(),
        Notice::BoardReset => "Board reset."@,
        Notice::NothingToUndo => "Nothing to undo."@,
        Notice::Hint { src, dst } => "Hint: pour tube "@ + decimal((src + 1) as nat) + " -> tube "@ + decimal(
            (dst + 1) as nat,
        ),
        Notice::NoSolution => "No solution found from current state."@,
        Notice::InvalidPour => "Invalid pour."@,
        Notice::Solved { moves, time } => "Solved in "@ + decimal(moves as nat) + " moves! Time: "@ + clock_text(
            time as nat,
        ),
    }
}

/// Renders a status line.
pub fn notice_text(n: Notice) -> (t: String)
    requires
        n matches Notice::Hint { src, dst } ==> src < usize::MAX && dst < usize::MAX,
    ensures
        t@ == notice_chars(n),
{
    match n {
        Notice::Clear => String::new(),
        Notice::BoardReset => String::from_str("Board reset."),
        Notice::NothingToUndo => String::from_str("Nothing to undo."),
        Notice::Hint { src, dst } => {
            let mut s = String::from_str("Hint: pour tube ");
            push_decimal(&mut s, (src + 1) as u64);
            s.append(" -> tube ");
            push_decimal(&mut s, (dst + 1) as u64);
            s
        },
        Notice::NoSolution => String::from_str("No solution found from current state."),
        Notice::InvalidPour => String::from_str("Invalid pour."),
        Notice::Solved { moves, time } => {
            let mut s = String::from_str("Solved in ");
            push_decimal(&mut s, moves as u64);
            s.append(" moves! Time: ");
            let clock = format_clock(time);
            s.append(clock.as_str());
            s
        },
    }
}

/// A finished or abandoned game, for the app to store.
#[derive(Clone, Copy, Debug, PartialEq, Eq, Structural)]
pub struct GameRecord {
    pub won: bool,
    pub difficulty: Difficulty,
    pub elapsed: u32,
    pub moves: u32,
}

/// A water-sort game in play with the state of the controls around it.
pub struct PlaySession {
    pub game: WaterSortGame,
    pub difficulty: Difficulty,
    pub selected: Option<usize>,
    pub hint_src: Option<usize>,
    pub hint_dst: Option<usize>,
    pub elapsed: u32,
    /// The clock runs (and pours are taken) while this is set.
    pub active: bool,
    pub notice: Notice,
    pub notice_is_win: bool,
    pub show_stats: bool,
    pub show_history: bool,
}

/// What a fresh deal of `puzzle` leaves in a session.
pub open spec fn fresh_deal(s: PlaySession, puzzle: GameState) -> bool {
    &&& s.game@.current == puzzle.view_bottles()
    &&& s.game@.start == puzzle.view_bottles()
    &&& s.game@.moves == 0
    &&& s.game@.num_colors == puzzle.num_colors
    &&& s.game@.past.len() == 0
    &&& s.selected is None
    &&& s.hint_src is None
    &&& s.hint_dst is None
    &&& s.elapsed == 0
    &&& s.active
    &&& s.notice == Notice::Clear
    &&& !s.notice_is_win
}

impl PlaySession {
    /// The session's invariant: the game is well formed and the selection
    /// is a tube of it.
    pub open spec fn wf(&self) -> bool {
        &&& self.game.wf()
        &&& self.selected matches Some(i) ==> i < self.game@.current.len()
    }

    /// A session on `puzzle`, dealt for the chosen difficulty.
    pub fn new(difficulty: Difficulty, puzzle: GameState) -> (s: Self)
        ensures
            s.wf(),
            s.difficulty == difficulty,
            fresh_deal(s, puzzle),
            !s.show_stats,
            !s.show_history,
    {
        PlaySession {
            game: WaterSortGame::from_state(puzzle),
            difficulty,
            selected: None,
            hint_src: None,
            hint_dst: None,
            elapsed: 0,
            active: true,
            notice: Notice::Clear,
            notice_is_win: false,
            show_stats: false,
            show_history: false,
        }
    }

    /// New game on `puzzle` (dealt by the app for the session's
    /// difficulty): a game in progress is given up and reported.
    pub fn new_game(&mut self, puzzle: GameState) -> (rec: Option<GameRecord>)
        requires
            old(self).wf(),
        ensures
            final(self).wf(),
            fresh_deal(*final(self), puzzle),
            final(self).difficulty == old(self).difficulty,
            final(self).show_stats == old(self).show_stats,
            final(self).show_history == old(self).show_history,
            old(self).active ==> (rec matches Some(g) && !g.won && g.difficulty == old(self).difficulty
                && g.elapsed == old(self).elapsed && g.moves == old(self).game@.moves),
            !old(self).active ==> rec is None,
    {
        let rec = if self.active {
            Some(
                GameRecord {
                    won: false,
                    difficulty: self.difficulty,
                    elapsed: self.elapsed,
                    moves: self.game.move_count(),
                },
            )
        } else {
            None
        };
        self.game = WaterSortGame::from_state(puzzle);
        self.selected = None;
        self.hint_src = None;
        self.hint_dst = None;
        self.elapsed = 0;
        self.active = true;
        self.notice = Notice::Clear;
        self.notice_is_win = false;
        rec
    }

    /// Back to the starting tubes with the clock restarted.
    pub fn reset(&mut self)
        requires
            old(self).wf(),
        ensures
            final(self).wf(),
            final(self).game@ == reset_view(old(self).game@),
            *final(self) == (PlaySession {
                game: final(self).game,
                selected: None,
                hint_src: None,
                hint_dst: None,
                notice: Notice::BoardReset,
                notice_is_win: false,
                elapsed: 0,
                active: true,
                ..*old(self)
            }),
    {
        self.game.reset();
        self.selected = None;
        self.hint_src = None;
        self.hint_dst = None;
        self.notice = Notice::BoardReset;
        self.notice_is_win = false;
        self.elapsed = 0;
        self.active = true;
    }

    /// Takes back the last pour, clearing the selection and the hint;
    /// reports when there is nothing to undo.
    pub fn undo(&mut self)
        requires
            old(self).wf(),
        ensures
            final(self).wf(),
            final(self).game@ == undo_view(old(self).game@),
            old(self).game@.past.len() > 0 ==> *final(self) == (PlaySession {
                game: final(self).game,
                selected: None,
                hint_src: None,
                hint_dst: None,
                notice: Notice::Clear,
                notice_is_win: false,
                ..*old(self)
            }),
            old(self).game@.past.len() == 0 ==> *final(self) == (PlaySession {
                game: final(self).game,
                notice: Notice::NothingToUndo,
                ..*old(self)
            }),
    {
        if self.game.undo() {
            self.selected = None;
            self.hint_src = None;
            self.hint_dst = None;
            self.notice = Notice::Clear;
            self.notice_is_win = false;
        } else {
            self.notice = Notice::NothingToUndo;
        }
    }

    /// Shows the first pour of a solution found from the current tubes, or
    /// says none was found. Nothing happens when the game is not running.
    /// Returns whether anything changed.
    pub fn hint(&mut self) -> (redraw: bool)
        requires
            old(self).wf(),
        ensures
            final(self).wf(),
            redraw == old(self).active,
            !old(self).active ==> *final(self) == *old(self),
            old(self).active ==> (*final(self) == (PlaySession { notice: Notice::NoSolution, ..*old(self) })
                || ({
                let (a, b) = (final(self).hint_src->0, final(self).hint_dst->0);
                &&& final(self).hint_src is Some
                &&& final(self).hint_dst is Some
                &&& pour_ok(old(self).game@.current, a as int, b as int)
                &&& exists|ms: Seq<Move>|
                    solves(old(self).game@.current, ms) && ms.len() > 0 && #[trigger] ms[0] == (Move { src: a, dst: b })
                &&& *final(self) == (PlaySession {
                    hint_src: Some(a),
                    hint_dst: Some(b),
                    selected: None,
                    notice: Notice::Hint { src: a, dst: b },
                    notice_is_win: false,
                    ..*old(self)
                })
            })),
            old(self).active && solved(old(self).game@.current) ==> *final(self) == (PlaySession {
                notice: Notice::NoSolution,
                ..*old(self)
            }),
    {
        if !self.active {
            return false;
        }
        match self.game.hint() {
            Some((a, b)) => {
                self.hint_src = Some(a);
                self.hint_dst = Some(b);
                self.selected = None;
                self.notice = Notice::Hint { src: a, dst: b };
                self.notice_is_win = false;
            },
            None => {
                self.notice = Notice::NoSolution;
            },
        }
        true
    }

    /// A click on tube `idx` while the game runs: clicking the selected
    /// tube drops the selection; with another tube selected, an allowed
    /// pour is made (a solved puzzle wins) and a pour that is not allowed
    /// selects the clicked tube, or nothing if it is empty; with nothing
    /// selected a tube that holds water is selected. Any hint is dropped.
    /// Returns whether anything changed, and a won game.
    pub fn click(&mut self, idx: usize) -> (res: (bool, Option<GameRecord>))
        requires
            old(self).wf(),
            old(self).active && old(self).selected is Some ==> idx < old(self).game@.current.len(),
            old(self).game@.moves < u32::MAX,
        ensures
            final(self).wf(),
            ({
                let s = *old(self);
                let v = s.game@;
                let s1 = PlaySession { hint_src: None, hint_dst: None, ..s };
                if !s.active {
                    *final(self) == s && !res.0 && res.1 is None
                } else {
                    match s.selected {
                        None => if idx < v.current.len() && v.current[idx as int].len() > 0 {
                            *final(self) == (PlaySession { selected: Some(idx), notice: Notice::Clear, ..s1 }) && res.0
                                && res.1 is None
                        } else {
                            *final(self) == s1 && !res.0 && res.1 is None
                        },
                        Some(src) => if src == idx {
                            *final(self) == (PlaySession { selected: None, ..s1 }) && res.0 && res.1 is None
                        } else if !pour_ok(v.current, src as int, idx as int) {
                            *final(self) == (PlaySession {
                                selected: if v.current[idx as int].len() > 0 {
                                    Some(idx)
                                } else {
                                    None
                                },
                                notice: Notice::InvalidPour,
                                notice_is_win: false,
                                ..s1
                            }) && res.0 && res.1 is None
                        } else {
                            let w = pour_view(v, src as int, idx as int);
                            &&& res.0
                            &&& final(self).game@ == w
                            &&& if solved(w.current) {
                                &&& *final(self) == (PlaySession {
                                    game: final(self).game,
                                    selected: None,
                                    active: false,
                                    notice: Notice::Solved { moves: w.moves as u32, time: s.elapsed },
                                    notice_is_win: true,
                                    ..s1
                                })
                                &&& res.1 matches Some(g) && g.won && g.difficulty == s.difficulty && g.elapsed
                                    == s.elapsed && g.moves == w.moves
                            } else {
                                *final(self) == (PlaySession {
                                    game: final(self).game,
                                    selected: None,
                                    notice: Notice::Clear,
                                    notice_is_win: false,
                                    ..s1
                                }) && res.1 is None
                            }
                        },
                    }
                }
            }),
    {
        if !self.active {
            return (false, None);
        }
        self.hint_src = None;
        self.hint_dst = None;
        match self.selected {
            Some(src) => {
                if src == idx {
                    self.selected = None;
                    return (true, None);
                }
                if self.game.can_pour(src, idx) {
                    self.game.pour(src, idx);
                    self.selected = None;
                    self.notice = Notice::Clear;
                    self.notice_is_win = false;
                    if self.game.is_solved() {
                        let moves = self.game.move_count();
                        self.active = false;
                        self.notice = Notice::Solved { moves, time: self.elapsed };
                        self.notice_is_win = true;
                        (true, Some(GameRecord { won: true, difficulty: self.difficulty, elapsed: self.elapsed, moves }))
                    } else {
                        (true, None)
                    }
                } else {
                    self.notice = Notice::InvalidPour;
                    self.notice_is_win = false;
                    if self.game.tube_len(idx) > 0 {
                        self.selected = Some(idx);
                    } else {
                        self.selected = None;
                    }
                    (true, None)
                }
            },
            None => {
                if idx < self.game.num_bottles() && self.game.tube_len(idx) > 0 {
                    self.selected = Some(idx);
                    self.notice = Notice::Clear;
                    (true, None)
                } else {
                    (false, None)
                }
            },
        }
    }

    /// Escape: drops the selection and the hint.
    pub fn deselect(&mut self)
        ensures
            *final(self) == (PlaySession { selected: None, hint_src: None, hint_dst: None, ..*old(self) }),
    {
        self.selected = None;
        self.hint_src = None;
        self.hint_dst = None;
    }

    /// Chooses the difficulty of the next deal.
    pub fn set_difficulty(&mut self, d: Difficulty)
        ensures
            *final(self) == (PlaySession { difficulty: d, ..*old(self) }),
    {
        self.difficulty = d;
    }

    /// One second of play: the clock moves while the game runs. Returns
    /// whether it moved.
    pub fn tick(&mut self) -> (moved: bool)
        requires
            old(self).active ==> old(self).elapsed < u32::MAX,
        ensures
            moved == old(self).active,
            moved ==> *final(self) == (PlaySession { elapsed: (old(self).elapsed + 1) as u32, ..*old(self) }),
            !moved ==> *final(self) == *old(self),
    {
        if self.active {
            self.elapsed = self.elapsed + 1;
            true
        } else {
            false
        }
    }

    /// The style classes of tube `idx`: "tube", then "selected",
    /// "hint-src", "hint-dst" and "complete" as they apply.
    pub fn tube_classes(&self, idx: usize) -> (v: Vec<&'static str>)
        requires
            self.wf(),
            idx < self.game@.current.len(),
        ensures
            names(v@) == seq!["tube"@] + (if self.selected == Some(idx) {
                seq!["selected"@]
            } else {
                Seq::empty()
            }) + (if self.hint_src == Some(idx) {
                seq!["hint-src"@]
            } else {
                Seq::empty()
            }) + (if self.hint_dst == Some(idx) {
                seq!["hint-dst"@]
            } else {
                Seq::empty()
            }) + (if complete_bottle(self.game@.current[idx as int]) {
                seq!["complete"@]
            } else {
                Seq::empty()
            }),
    {
        let mut v: Vec<&'static str> = Vec::new();
        v.push("tube");
        if self.selected == Some(idx) {
            v.push("selected");
        }
        if self.hint_src == Some(idx) {
            v.push("hint-src");
        }
        if self.hint_dst == Some(idx) {
            v.push("hint-dst");
        }
        if self.game.tube_complete(idx) {
            v.push("complete");
        }
        assert(names(v@) =~= seq!["tube"@] + (if self.selected == Some(idx) {
            seq!["selected"@]
        } else {
            Seq::empty()
        }) + (if self.hint_src == Some(idx) {
            seq!["hint-src"@]
        } else {
            Seq::empty()
        }) + (if self.hint_dst == Some(idx) {
            seq!["hint-dst"@]
        } else {
            Seq::empty()
        }) + (if complete_bottle(self.game@.current[idx as int]) {
            seq!["complete"@]
        } else {
            Seq::empty()
        }));
        v
    }

    /// Shows or hides the statistics.
    pub fn toggle_stats(&mut self)
        ensures
            *final(self) == (PlaySession { show_stats: !old(self).show_stats, ..*old(self) }),
    {
        self.show_stats = !self.show_stats;
    }

    /// Shows or hides the history.
    pub fn toggle_history(&mut self)
        ensures
            *final(self) == (PlaySession { show_history: !old(self).show_history, ..*old(self) }),
    {
        self.show_history = !self.show_history;
    }
}

} // verus!
