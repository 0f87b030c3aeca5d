use vstd::prelude::*;
use vstd::string::StringExecFns;
use crate::multi_sudoku::generator::{Difficulty, generate, pair_agrees, removal_inv, grids, multi_deal};
use crate::multi_sudoku::multi_board::{MultiBoard, active, errors_upto, grid_value, scan_active, written};
use crate::keys::{Key, KeyEffect};
use crate::sudoku::solver::{has_fill, is_fill, is_solution};
use crate::text::{clock_text, decimal, format_clock, push_decimal};

verus! {

/// What the status line of a multi-board game says.
#[derive(Clone, Copy, Debug, PartialEq, Eq, Structural)]
pub enum Notice {
    Clear,
    BoardReset,
    Hint(u8),
    NoEmptyCells,
    NoErrors,
    Errors(usize),
    Solved,
    Complete(u32),
}

/// Text of a status line.
pub open spec fn notice_chars(n: Notice) -> Seq<char> {
    match n {
        Notice::Clear => Seq::empty(),
        Notice::BoardReset => "Board reset."@,
        Notice::Hint(v) => "Hint: "@ + decimal(v as nat) + " placed"@,
        Notice::NoEmptyCells => "No empty cells!"@,
        Notice::NoErrors => "Looking good! No errors found."@,
        Notice::Errors(k) => "Found "@ + decimal(k as nat) + " error(s)."@,
        Notice::Solved => "Solved. Start a new game to play again."@,
        Notice::Complete(t) => "All boards complete! Time: "@ + clock_text(t as nat),
    }
}

/// Renders a status line.
pub fn notice_text(n: Notice) -> (t: String)
    ensures
        t@ == notice_chars(n),
{
    match n {
        Notice::Clear => String::new(),
        Notice::BoardReset => String::from_str("Board reset."),
        Notice::Hint(v) => {
            let mut s = String::from_str("Hint: ");
            push_decimal(&mut s, v as u64);
            s.append(" placed");
            s
        },
        Notice::NoEmptyCells => String::from_str("No empty cells!"),
        Notice::NoErrors => String::from_str("Looking good! No errors found."),
        Notice::Errors(k) => {
            let mut s = String::from_str("Found ");
            push_decimal(&mut s, k as u64);
            s.append(" error(s).");
            s
        },
        Notice::Solved => String::from_str("Solved. Start a new game to play again."),
        Notice::Complete(t) => {
            let mut s = String::from_str("All boards complete! Time: ");
            let clock = format_clock(t);
            s.append(clock.as_str());
            s
        },
    }
}

/// A finished or abandoned game, for the app to store.
#[derive(Clone, Copy, Debug, PartialEq, Eq, Structural)]
pub struct GameRecord {
    pub won: bool,
    pub difficulty: Difficulty,
    pub elapsed: u32,
}

/// (r, c) comes before (r2, c2) in row-major order.
pub open spec fn before(r: int, c: int, r2: int, c2: int) -> bool {
    r < r2 || (r == r2 && c < c2)
}

/// (gr, gc) is the first cell on a board, row-major over the grid, that
/// is empty in `m`.
pub open spec fn first_open(m: MultiBoard, gr: int, gc: int) -> bool {
    &&& 0 <= gr < 21
    &&& 0 <= gc < 21
    &&& active(gr, gc)
    &&& grid_value(m, gr, gc) == 0
    &&& forall|r: int, c: int|
        0 <= r < 21 && 0 <= c < 21 && before(r, c, gr, gc) && #[trigger] active(r, c) ==> grid_value(m, r, c)
            != 0
}

/// Every cell on a board is filled in `m`.
pub open spec fn none_open(m: MultiBoard) -> bool {
    forall|r: int, c: int| 0 <= r < 21 && 0 <= c < 21 && #[trigger] active(r, c) ==> grid_value(m, r, c) != 0
}

/// The first empty cell on a board, row-major over the grid.
pub fn first_open_cell(m: &MultiBoard) -> (p: Option<(usize, usize)>)
    ensures
        match p {
            Some((r, c)) => first_open(*m, r as int, c as int),
            None => none_open(*m),
        },
{
    let mut r: usize = 0;
    while r < 21
        invariant
            r <= 21,
            forall|r2: int, c2: int|
                0 <= r2 < r && 0 <= c2 < 21 && #[trigger] active(r2, c2) ==> grid_value(*m, r2, c2) != 0,
        decreases 21 - r,
    {
        let mut c: usize = 0;
        while c < 21
            invariant
                r < 21,
                c <= 21,
                forall|r2: int, c2: int|
                    0 <= r2 < r && 0 <= c2 < 21 && #[trigger] active(r2, c2) ==> grid_value(*m, r2, c2) != 0,
                forall|c2: int| 0 <= c2 < c && #[trigger] active(r as int, c2) ==> grid_value(*m, r as int, c2) != 0,
            decreases 21 - c,
        {
            if MultiBoard::is_active(r, c) && m.is_empty(r, c) {
                return Some((r, c));
            }
            c += 1;
        }
        r += 1;
    }
    None
}

/// Where an arrow key moves the selection: the next cell on a board in
/// its direction; None when there is none, or for other keys.
pub open spec fn step_target(sel: Option<(usize, usize)>, key: Key) -> Option<(usize, usize)> {
    match sel {
        None => None,
        Some((r, c)) => {
            let (dr, dc) = match key {
                Key::Up => (-1int, 0int),
                Key::Down => (1int, 0int),
                Key::Left => (0int, -1int),
                Key::Right => (0int, 1int),
                _ => (0int, 0int),
            };
            match scan_active(r + dr, c + dc, dr, dc) {
                Some(p) => Some((p.0 as usize, p.1 as usize)),
                None => None,
            }
        },
    }
}

/// A game on the three linked boards in progress.
pub struct MultiSession {
    pub puzzle: MultiBoard,
    pub solution: MultiBoard,
    pub current: MultiBoard,
    pub difficulty: Difficulty,
    pub selected: Option<(usize, usize)>,
    pub elapsed: u32,
    /// The clock runs (and moves are taken) while this is set.
    pub active: bool,
    pub notice: Notice,
    pub notice_is_win: bool,
    pub show_stats: bool,
    pub show_history: bool,
}

/// What a fresh deal of `d` leaves in a session.
pub open spec fn fresh_deal(s: MultiSession, d: Difficulty) -> bool {
    &&& s.difficulty == d
    &&& s.current == s.puzzle
    &&& s.selected is None
    &&& s.elapsed == 0
    &&& s.active
    &&& s.notice == Notice::Clear
    &&& !s.notice_is_win
    &&& removal_inv(s.puzzle, s.solution)
    &&& forall|x: int| 0 <= x < 3 ==> is_solution(#[trigger] s.solution.boards@[x]@) || !has_fill(s.solution.boards@[x]@)
    &&& forall|x: int|
        0 <= x < 3 && is_solution(#[trigger] s.solution.boards@[x]@) ==> is_fill(s.puzzle.boards@[x]@, s.solution.boards@[x]@)
    &&& is_solution(s.solution.boards@[0]@) ==> pair_agrees(s.solution, 0)
    &&& is_solution(s.solution.boards@[1]@) ==> pair_agrees(s.solution, 1)
    &&& exists|st: u64| (grids(s.puzzle), grids(s.solution)) == #[trigger] multi_deal(d, st)
}

/// All three boards are solved.
pub open spec fn all_solved(m: MultiBoard) -> bool {
    forall|b: int| 0 <= b < 3 ==> is_solution(#[trigger] m.boards@[b]@)
}

/// `t` is `s` after a win check: when every board is solved the game stops
/// with the win notice, else nothing changes.
pub open spec fn after_win_check(s: MultiSession, t: MultiSession, rec: Option<GameRecord>) -> bool {
    if all_solved(s.current) {
        &&& t == MultiSession { active: false, notice: Notice::Complete(s.elapsed), notice_is_win: true, ..s }
        &&& rec matches Some(g) && g.won && g.difficulty == s.difficulty && g.elapsed == s.elapsed
    } else {
        t == s && rec is None
    }
}

impl MultiSession {
    /// The session's invariant: the selection is a cell on a board.
    pub open spec fn wf(&self) -> bool {
        self.selected matches Some((r, c)) ==> r < 21 && c < 21 && active(r as int, c as int)
    }

    /// A session on an easy deal, as the game opens.
    pub fn new() -> (s: Self)
        ensures
            s.wf(),
            fresh_deal(s, Difficulty::Easy),
            !s.show_stats,
            !s.show_history,
    {
        let mut s = MultiSession {
            puzzle: MultiBoard::new(),
            solution: MultiBoard::new(),
            current: MultiBoard::new(),
            difficulty: Difficulty::Easy,
            selected: None,
            elapsed: 0,
            active: false,
            notice: Notice::Clear,
            notice_is_win: false,
            show_stats: false,
            show_history: false,
        };
        s.start();
        s
    }

    /// Deals new boards of the session's difficulty and starts the clock.
    pub fn start(&mut self)
        ensures
            final(self).wf(),
            fresh_deal(*final(self), old(self).difficulty),
            final(self).show_stats == old(self).show_stats,
            final(self).show_history == old(self).show_history,
    {
        let (puzzle, solution) = generate(self.difficulty);
        self.current = puzzle;
        self.puzzle = puzzle;
        self.solution = solution;
        self.selected = None;
        self.elapsed = 0;
        self.active = true;
        self.notice = Notice::Clear;
        self.notice_is_win = false;
    }

    /// New game: a game in progress is given up (and reported), then new
    /// boards are dealt.
    pub fn new_game(&mut self) -> (rec: Option<GameRecord>)
        ensures
            final(self).wf(),
            fresh_deal(*final(self), old(self).difficulty),
            final(self).show_stats == old(self).show_stats,
            final(self).show_history == old(self).show_history,
            old(self).active ==> (rec matches Some(g) && !g.won && g.difficulty == old(self).difficulty
                && g.elapsed == old(self).elapsed),
            !old(self).active ==> rec is None,
    {
        let rec = if self.active {
            Some(GameRecord { won: false, difficulty: self.difficulty, elapsed: self.elapsed })
        } else {
            None
        };
        self.start();
        rec
    }

    /// Puts the boards back as dealt and restarts the clock.
    pub fn reset(&mut self)
        ensures
            *final(self) == (MultiSession {
                current: old(self).puzzle,
                selected: None,
                notice: Notice::BoardReset,
                notice_is_win: false,
                elapsed: 0,
                active: true,
                ..*old(self)
            }),
    {
        self.current = self.puzzle;
        self.selected = None;
        self.notice = Notice::BoardReset;
        self.notice_is_win = false;
        self.elapsed = 0;
        self.active = true;
    }

    /// Stops the game when every board is solved.
    fn check_win(&mut self) -> (rec: Option<GameRecord>)
        ensures
            after_win_check(*old(self), *final(self), rec),
    {
        if self.current.is_solved() {
            self.active = false;
            self.notice = Notice::Complete(self.elapsed);
            self.notice_is_win = true;
            Some(GameRecord { won: true, difficulty: self.difficulty, elapsed: self.elapsed })
        } else {
            None
        }
    }

    /// Fills the first empty cell on a board (row-major over the grid) from
    /// the solution, selects it and checks for a win. Nothing happens when
    /// the game is not running.
    pub fn hint(&mut self) -> (res: (bool, Option<GameRecord>))
        requires
            old(self).wf(),
        ensures
            final(self).wf(),
            !old(self).active ==> *final(self) == *old(self) && !res.0 && res.1 is None,
            old(self).active && none_open(old(self).current) ==> *final(self) == (MultiSession {
                notice: Notice::NoEmptyCells,
                ..*old(self)
            }) && res.0 && res.1 is None,
            old(self).active && !none_open(old(self).current) ==> res.0 && exists|r: int, c: int|
                first_open(old(self).current, r, c) && {
                    let v = grid_value(old(self).solution, r, c);
                    let mid = MultiSession {
                        current: final(self).current,
                        selected: Some((r as usize, c as usize)),
                        notice: Notice::Hint(v),
                        notice_is_win: false,
                        ..*old(self)
                    };
                    &&& written(old(self).current, final(self).current, r, c, v)
                    &&& after_win_check(mid, *final(self), res.1)
                },
    {
        if !self.active {
            return (false, None);
        }
        match first_open_cell(&self.current) {
            Some((r, c)) => {
                let v = self.solution.get(r, c);
                self.current.set(r, c, v);
                self.selected = Some((r, c));
                self.notice = Notice::Hint(v);
                self.notice_is_win = false;
                let rec = self.check_win();
                assert(first_open(old(self).current, r as int, c as int));
                (true, rec)
            },
            None => {
                self.notice = Notice::NoEmptyCells;
                (true, None)
            },
        }
    }

    /// Counts the wrong entries on the grid and reports them.
    pub fn check(&mut self)
        ensures
            *final(self) == (MultiSession {
                notice: if errors_upto(old(self).current, old(self).solution, 441) == 0 {
                    Notice::NoErrors
                } else {
                    Notice::Errors(errors_upto(old(self).current, old(self).solution, 441) as usize)
                },
                notice_is_win: false,
                ..*old(self)
            }),
    {
        let errors = self.current.error_count(&self.solution);
        if errors == 0 {
            self.notice = Notice::NoErrors;
        } else {
            self.notice = Notice::Errors(errors);
        }
        self.notice_is_win = false;
    }

    /// Gives up: every grid cell left open in the puzzle is written from the
    /// solution on each board covering it, and the clock stops.
    pub fn solve(&mut self)
        ensures
            *final(self) == (MultiSession {
                current: final(self).current,
                active: false,
                notice: Notice::Solved,
                notice_is_win: false,
                ..*old(self)
            }),
            forall|b: int, r: int, c: int|
                0 <= b < 3 && 0 <= r < 9 && 0 <= c < 9 ==> #[trigger] final(self).current.boards@[b]@[r][c]
                    == if grid_value(old(self).puzzle, r + 6 * b, c + 6 * b) == 0 {
                    grid_value(old(self).solution, r + 6 * b, c + 6 * b)
                } else {
                    old(self).current.boards@[b]@[r][c]
                },
    {
        self.active = false;
        let ghost cur0 = self.current;
        let mut gr: usize = 0;
        while gr < 21
            invariant
                gr <= 21,
                cur0 == old(self).current,
                *self == (MultiSession { current: self.current, active: false, ..*old(self) }),
                forall|b: int, r: int, c: int|
                    0 <= b < 3 && 0 <= r < 9 && 0 <= c < 9 ==> #[trigger] self.current.boards@[b]@[r][c]
                        == if r + 6 * b < gr && grid_value(self.puzzle, r + 6 * b, c + 6 * b) == 0 {
                        grid_value(self.solution, r + 6 * b, c + 6 * b)
                    } else {
                        cur0.boards@[b]@[r][c]
                    },
            decreases 21 - gr,
        {
            let mut gc: usize = 0;
            while gc < 21
                invariant
                    gr < 21,
                    gc <= 21,
                    cur0 == old(self).current,
                    *self == (MultiSession { current: self.current, active: false, ..*old(self) }),
                    forall|b: int, r: int, c: int|
                        0 <= b < 3 && 0 <= r < 9 && 0 <= c < 9 ==> #[trigger] self.current.boards@[b]@[r][c]
                            == if before(r + 6 * b, c + 6 * b, gr as int, gc as int) && grid_value(
                            self.puzzle,
                            r + 6 * b,
                            c + 6 * b,
                        ) == 0 {
                            grid_value(self.solution, r + 6 * b, c + 6 * b)
                        } else {
                            cur0.boards@[b]@[r][c]
                        },
                decreases 21 - gc,
            {
                if MultiBoard::is_active(gr, gc) && self.puzzle.is_empty(gr, gc) {
                    let v = self.solution.get(gr, gc);
                    let ghost prev = self.current;
                    self.current.set(gr, gc, v);
                    proof {
                        assert forall|b: int, r: int, c: int|
                            0 <= b < 3 && 0 <= r < 9 && 0 <= c < 9 implies #[trigger] self.current.boards@[b]@[r][c]
                                == if r + 6 * b == gr && c + 6 * b == gc {
                                v
                            } else {
                                prev.boards@[b]@[r][c]
                            } by {
                            prev.boards@[b].lemma_shape();
                        }
                    }
                }
                gc += 1;
            }
            gr += 1;
        }
        self.notice = Notice::Solved;
        self.notice_is_win = false;
    }

    /// Selects a cell on a board while the game runs; returns whether it did.
    pub fn select_cell(&mut self, r: usize, c: usize) -> (done: bool)
        requires
            r < 21,
            c < 21,
        ensures
            done == (old(self).active && active(r as int, c as int)),
            done ==> *final(self) == (MultiSession { selected: Some((r, c)), ..*old(self) }),
            !done ==> *final(self) == *old(self),
    {
        if self.active && MultiBoard::is_active(r, c) {
            self.selected = Some((r, c));
            true
        } else {
            false
        }
    }

    /// Writes `num` (0 erases) at the selected cell on every board covering
    /// it, when that cell was open in the puzzle; a nonzero number checks for
    /// a win. Returns whether anything changed, and a won game.
    pub fn place_number(&mut self, num: u8) -> (res: (bool, Option<GameRecord>))
        requires
            old(self).wf(),
        ensures
            final(self).wf(),
            ({
                let s = *old(self);
                if !s.active || s.selected is None {
                    *final(self) == s && !res.0 && res.1 is None
                } else {
                    let (r, c) = s.selected->0;
                    let (r, c) = (r as int, c as int);
                    if grid_value(s.puzzle, r, c) != 0 {
                        *final(self) == s && !res.0 && res.1 is None
                    } else {
                        let mid = MultiSession {
                            current: final(self).current,
                            notice: Notice::Clear,
                            notice_is_win: false,
                            ..s
                        };
                        &&& res.0
                        &&& written(s.current, final(self).current, r, c, num)
                        &&& if num != 0 {
                            after_win_check(mid, *final(self), res.1)
                        } else {
                            *final(self) == mid && res.1 is None
                        }
                    }
                }
            }),
    {
        if !self.active {
            return (false, None);
        }
        match self.selected {
            Some((r, c)) => {
                if !self.puzzle.is_empty(r, c) {
                    return (false, None);
                }
                self.current.set(r, c, num);
                self.notice = Notice::Clear;
                self.notice_is_win = false;
                if num != 0 {
                    let rec = self.check_win();
                    (true, rec)
                } else {
                    (true, None)
                }
            },
            None => (false, None),
        }
    }

    /// Chooses the difficulty of the next deal.
    pub fn set_difficulty(&mut self, d: Difficulty)
        ensures
            *final(self) == (MultiSession { difficulty: d, ..*old(self) }),
    {
        self.difficulty = d;
    }

    /// One second of play: the clock moves while the game runs. Returns
    /// whether it moved.
    pub fn tick(&mut self) -> (moved: bool)
        requires
            old(self).active ==> old(self).elapsed < u32::MAX,
        ensures
            moved == old(self).active,
            moved ==> *final(self) == (MultiSession { elapsed: (old(self).elapsed + 1) as u32, ..*old(self) }),
            !moved ==> *final(self) == *old(self),
    {
        if self.active {
            self.elapsed = self.elapsed + 1;
            true
        } else {
            false
        }
    }

    /// A key press while the game runs: digits and erase keys ask for a
    /// placement, arrow keys move the selection to the next cell on a board
    /// in their direction.
    pub fn key_down(&mut self, key: Key) -> (e: KeyEffect)
        requires
            old(self).wf(),
        ensures
            final(self).wf(),
            !old(self).active ==> *final(self) == *old(self) && e == KeyEffect::Ignore,
            old(self).active ==> match key {
                Key::Digit(n) => *final(self) == *old(self) && e == KeyEffect::Place(n),
                Key::Erase => *final(self) == *old(self) && e == KeyEffect::Place(0),
                _ => match step_target(old(self).selected, key) {
                    Some(p) => *final(self) == (MultiSession { selected: Some(p), ..*old(self) }) && e
                        == KeyEffect::Redraw,
                    None => *final(self) == *old(self) && e == KeyEffect::Ignore,
                },
            },
    {
        if !self.active {
            return KeyEffect::Ignore;
        }
        match key {
            Key::Digit(n) => KeyEffect::Place(n),
            Key::Erase => KeyEffect::Place(0),
            Key::Other => KeyEffect::Ignore,
            _ => match self.selected {
                None => KeyEffect::Ignore,
                Some((r, c)) => {
                    let (dr, dc): (i32, i32) = match key {
                        Key::Up => (-1, 0),
                        Key::Down => (1, 0),
                        Key::Left => (0, -1),
                        _ => (0, 1),
                    };
                    match MultiBoard::next_active(r, c, dr, dc) {
                        Some(p) => {
                            proof {
                                lemma_scan_lands(r + dr, c + dc, dr as int, dc as int);
                            }
                            self.selected = Some(p);
                            KeyEffect::Redraw
                        },
                        None => KeyEffect::Ignore,
                    }
                },
            },
        }
    }

    /// Shows or hides the statistics.
    pub fn toggle_stats(&mut self)
        ensures
            *final(self) == (MultiSession { show_stats: !old(self).show_stats, ..*old(self) }),
    {
        self.show_stats = !self.show_stats;
    }

    /// Shows or hides the history.
    pub fn toggle_history(&mut self)
        ensures
            *final(self) == (MultiSession { show_history: !old(self).show_history, ..*old(self) }),
    {
        self.show_history = !self.show_history;
    }
}

/// A cell found by a scan lies on a board inside the grid.
proof fn lemma_scan_lands(r: int, c: int, dr: int, dc: int)
    ensures
        scan_active(r, c, dr, dc) matches Some(p) ==> 0 <= p.0 < 21 && 0 <= p.1 < 21 && active(p.0, p.1),
    decreases crate::multi_sudoku::multi_board::steps_left(r, c, dr, dc, 21),
{
    if (0 <= r < 21 && 0 <= c < 21) && !(dr == 0 && dc == 0) && !active(r, c) {
        lemma_scan_lands(r + dr, c + dc, dr, dc);
    }
}

} // verus!
