use vstd::prelude::*;
use vstd::string::StringExecFns;
use crate::sudoku::board::{Board, set_cell, well_shaped};
use crate::sudoku::generator::{Difficulty, generate, removal_target, deal};
use crate::sudoku::play::{error_count, wrong_upto};
use crate::sudoku::solver::{at_most_one_fill, grid_zeros, has_fill, is_fill, is_solution, verify};
use crate::text::{clock_text, decimal, format_clock, push_decimal};
use crate::keys::{Key, KeyEffect};

verus! {

/// What the status line of a sudoku game says.
#[derive(Clone, Copy, Debug, PartialEq, Eq, Structural)]
pub enum Notice {
    Clear,
    BoardReset,
    Hint { value: u8, row: usize, col: usize },
    NoEmptyCells,
    NoErrors,
    Errors(usize),
    Solved,
    Complete(u32),
}

/// Text of a status line.
pub open spec fn notice_chars(n: Notice) -> Seq<char> {
    match n {
        Notice::Clear => Seq::empty(),
        Notice::BoardReset => "Board reset."@,
        Notice::Hint { value, row, col } => "Hint: "@ + decimal(value as nat) + " at row "@ + decimal(
            (row + 1) as nat,
        ) + ", col "@ + decimal((col + 1) as nat),
        Notice::NoEmptyCells => "No empty cells!"@,
        Notice::NoErrors => "Looking good! No errors found."@,
        Notice::Errors(k) => "Found "@ + decimal(k as nat) + " error(s)."@,
        Notice::Solved => "Solved. Start a new game to play again."@,
        Notice::Complete(t) => "Puzzle Complete! Time: "@ + clock_text(t as nat),
    }
}

/// Renders a status line.
pub fn notice_text(n: Notice) -> (t: String)
    requires
        n matches Notice::Hint { row, col, .. } ==> row < 9 && col < 9,
    ensures
        t@ == notice_chars(n),
{
    match n {
        Notice::Clear => String::new(),
        Notice::BoardReset => String::from_str("Board reset."),
        Notice::Hint { value, row, col } => {
            let mut s = String::from_str("Hint: ");
            push_decimal(&mut s, value as u64);
            s.append(" at row ");
            push_decimal(&mut s, (row + 1) as u64);
            s.append(", col ");
            push_decimal(&mut s, (col + 1) as u64);
            s
        },
        Notice::NoEmptyCells => String::from_str("No empty cells!"),
        Notice::NoErrors => String::from_str("Looking good! No errors found."),
        Notice::Errors(k) => {
            let mut s = String::from_str("Found ");
            push_decimal(&mut s, k as u64);
            s.append(" error(s).");
            s
        },
        Notice::Solved => String::from_str("Solved. Start a new game to play again."),
        Notice::Complete(t) => {
            let mut s = String::from_str("Puzzle Complete! Time: ");
            let clock = format_clock(t);
            s.append(clock.as_str());
            s
        },
    }
}

/// A finished or abandoned game, for the app to store.
#[derive(Clone, Copy, Debug, PartialEq, Eq, Structural)]
pub struct GameRecord {
    pub won: bool,
    pub difficulty: Difficulty,
    pub elapsed: u32,
}

/// Pencil marks of cell (r, c).
pub open spec fn mark(h: [[u16; 9]; 9], r: int, c: int) -> u16 {
    h@[r]@[c]
}

/// No pencil marks anywhere.
pub open spec fn no_marks(h: [[u16; 9]; 9]) -> bool {
    forall|r: int, c: int| 0 <= r < 9 && 0 <= c < 9 ==> #[trigger] mark(h, r, c) == 0
}

/// (r, c) comes before (r2, c2) in row-major order.
pub open spec fn before(r: int, c: int, r2: int, c2: int) -> bool {
    r < r2 || (r == r2 && c < c2)
}

/// (r, c) is the first empty cell of `g` in row-major order.
pub open spec fn first_blank(g: Seq<Seq<u8>>, r: int, c: int) -> bool {
    &&& 0 <= r < 9
    &&& 0 <= c < 9
    &&& g[r][c] == 0
    &&& forall|r2: int, c2: int|
        0 <= r2 < 9 && 0 <= c2 < 9 && before(r2, c2, r, c) ==> #[trigger] g[r2][c2] != 0
}

/// No cell of `g` is empty.
pub open spec fn no_blank(g: Seq<Seq<u8>>) -> bool {
    forall|r: int, c: int| 0 <= r < 9 && 0 <= c < 9 ==> #[trigger] g[r][c] != 0
}

/// The first empty cell of a board, in row-major order.
pub fn first_empty(b: &Board) -> (p: Option<(usize, usize)>)
    ensures
        match p {
            Some((r, c)) => first_blank(b@, r as int, c as int),
            None => no_blank(b@),
        },
{
    let mut r: usize = 0;
    while r < 9
        invariant
            r <= 9,
            forall|r2: int, c2: int| 0 <= r2 < r && 0 <= c2 < 9 ==> #[trigger] b@[r2][c2] != 0,
        decreases 9 - r,
    {
        let mut c: usize = 0;
        while c < 9
            invariant
                r < 9,
                c <= 9,
                forall|r2: int, c2: int| 0 <= r2 < r && 0 <= c2 < 9 ==> #[trigger] b@[r2][c2] != 0,
                forall|c2: int| 0 <= c2 < c ==> #[trigger] b@[r as int][c2] != 0,
            decreases 9 - c,
        {
            if b.is_empty(r, c) {
                return Some((r, c));
            }
            c += 1;
        }
        r += 1;
    }
    None
}

/// The selection after an arrow key: one step in its direction, unless
/// that leaves the board; other keys leave it.
pub open spec fn moved_selection(sel: Option<(usize, usize)>, key: Key) -> Option<(usize, usize)> {
    match sel {
        None => None,
        Some((r, c)) => match key {
            Key::Up => if r > 0 {
                Some(((r - 1) as usize, c))
            } else {
                sel
            },
            Key::Down => if r < 8 {
                Some(((r + 1) as usize, c))
            } else {
                sel
            },
            Key::Left => if c > 0 {
                Some((r, (c - 1) as usize))
            } else {
                sel
            },
            Key::Right => if c < 8 {
                Some((r, (c + 1) as usize))
            } else {
                sel
            },
            _ => sel,
        },
    }
}

fn next_selection(sel: Option<(usize, usize)>, key: Key) -> (n: Option<(usize, usize)>)
    requires
        sel matches Some((r, c)) ==> r < 9 && c < 9,
    ensures
        n == moved_selection(sel, key),
        n matches Some((r, c)) ==> r < 9 && c < 9,
{
    match sel {
        None => None,
        Some((r, c)) => match key {
            Key::Up => if r > 0 {
                Some((r - 1, c))
            } else {
                sel
            },
            Key::Down => if r < 8 {
                Some((r + 1, c))
            } else {
                sel
            },
            Key::Left => if c > 0 {
                Some((r, c - 1))
            } else {
                sel
            },
            Key::Right => if c < 8 {
                Some((r, c + 1))
            } else {
                sel
            },
            _ => sel,
        },
    }
}

/// A game of sudoku in progress: the puzzle as dealt, its solution, the
/// board as played, and the state of the controls around it.
pub struct SudokuSession {
    pub puzzle: Board,
    pub solution: Board,
    pub current: Board,
    pub difficulty: Difficulty,
    pub selected: Option<(usize, usize)>,
    pub elapsed: u32,
    /// The clock runs (and moves are taken) while this is set.
    pub active: bool,
    pub notice: Notice,
    pub notice_is_win: bool,
    pub show_stats: bool,
    pub show_history: bool,
    pub hint_mode: bool,
    /// Pencil marks: bit `n` of a cell's mark is set when `n` is noted.
    pub hints: [[u16; 9]; 9],
}

/// What a fresh deal of `d` leaves in a session.
pub open spec fn fresh_deal(s: SudokuSession, d: Difficulty) -> bool {
    &&& s.difficulty == d
    &&& s.current@ == s.puzzle@
    &&& s.selected is None
    &&& s.elapsed == 0
    &&& s.active
    &&& s.notice == Notice::Clear
    &&& !s.notice_is_win
    &&& !s.hint_mode
    &&& no_marks(s.hints)
    &&& is_solution(s.solution@) || !has_fill(s.solution@)
    &&& at_most_one_fill(s.puzzle@)
    &&& forall|r: int, c: int|
        0 <= r < 9 && 0 <= c < 9 ==> #[trigger] s.puzzle@[r][c] == 0 || s.puzzle@[r][c]
            == s.solution@[r][c]
    &&& is_solution(s.solution@) ==> is_fill(s.puzzle@, s.solution@)
    &&& grid_zeros(s.puzzle@) <= grid_zeros(s.solution@) + removal_target(d)
    &&& exists|st: u64| (s.puzzle@, s.solution@) == #[trigger] deal(d, st)
}

/// `t` is `s` after a win check: a solved board stops the game with the
/// win notice, any other board leaves the session as it was.
pub open spec fn after_win_check(s: SudokuSession, t: SudokuSession, rec: Option<GameRecord>) -> bool {
    if is_solution(s.current@) {
        &&& t == SudokuSession { active: false, notice: Notice::Complete(s.elapsed), notice_is_win: true, ..s }
        &&& rec matches Some(g) && g.won && g.difficulty == s.difficulty && g.elapsed == s.elapsed
    } else {
        t == s && rec is None
    }
}

impl SudokuSession {
    /// The session's invariant: the selection is a cell of the board.
    pub open spec fn wf(&self) -> bool {
        self.selected matches Some((r, c)) ==> r < 9 && c < 9
    }

    /// A session on an easy deal, as the game opens.
    pub fn new() -> (s: Self)
        ensures
            s.wf(),
            fresh_deal(s, Difficulty::Easy),
            !s.show_stats,
            !s.show_history,
    {
        let mut s = SudokuSession {
            puzzle: Board::new(),
            solution: Board::new(),
            current: Board::new(),
            difficulty: Difficulty::Easy,
            selected: None,
            elapsed: 0,
            active: false,
            notice: Notice::Clear,
            notice_is_win: false,
            show_stats: false,
            show_history: false,
            hint_mode: false,
            hints: [[0u16;9];9],
        };
        s.start();
        s
    }

    /// Deals a new puzzle of the session's difficulty and starts the clock.
    pub fn start(&mut self)
        ensures
            final(self).wf(),
            fresh_deal(*final(self), old(self).difficulty),
            final(self).show_stats == old(self).show_stats,
            final(self).show_history == old(self).show_history,
    {
        let (puzzle, solution) = generate(self.difficulty);
        self.current = puzzle;
        self.puzzle = puzzle;
        self.solution = solution;
        self.selected = None;
        self.elapsed = 0;
        self.active = true;
        self.notice = Notice::Clear;
        self.notice_is_win = false;
        self.hints = [[0u16;9];9];
        self.hint_mode = false;
    }

    /// New game: a game in progress is given up (and reported), then a new
    /// puzzle is dealt.
    pub fn new_game(&mut self) -> (rec: Option<GameRecord>)
        ensures
            final(self).wf(),
            fresh_deal(*final(self), old(self).difficulty),
            final(self).show_stats == old(self).show_stats,
            final(self).show_history == old(self).show_history,
            old(self).active ==> (rec matches Some(g) && !g.won && g.difficulty == old(self).difficulty
                && g.elapsed == old(self).elapsed),
            !old(self).active ==> rec is None,
    {
        let rec = if self.active {
            Some(GameRecord { won: false, difficulty: self.difficulty, elapsed: self.elapsed })
        } else {
            None
        };
        self.start();
        rec
    }

    /// Puts the board back as dealt, clears the marks and restarts the clock.
    pub fn reset(&mut self)
        ensures
            *final(self) == (SudokuSession {
                current: old(self).puzzle,
                selected: None,
                notice: Notice::BoardReset,
                notice_is_win: false,
                hints: final(self).hints,
                elapsed: 0,
                active: true,
                ..*old(self)
            }),
            no_marks(final(self).hints),
    {
        self.current = self.puzzle;
        self.selected = None;
        self.notice = Notice::BoardReset;
        self.notice_is_win = false;
        self.hints = [[0u16;9];9];
        self.elapsed = 0;
        self.active = true;
    }

    /// Stops the game if the board is solved.
    fn check_win(&mut self) -> (rec: Option<GameRecord>)
        ensures
            after_win_check(*old(self), *final(self), rec),
    {
        if verify(&self.current) {
            self.active = false;
            self.notice = Notice::Complete(self.elapsed);
            self.notice_is_win = true;
            Some(GameRecord { won: true, difficulty: self.difficulty, elapsed: self.elapsed })
        } else {
            None
        }
    }

    /// Fills the first empty cell (row-major) from the solution, selects it
    /// and checks for a win. Nothing happens when the game is not running.
    pub fn hint(&mut self) -> (res: (bool, Option<GameRecord>))
        requires
            old(self).wf(),
        ensures
            final(self).wf(),
            !old(self).active ==> *final(self) == *old(self) && !res.0 && res.1 is None,
            old(self).active && no_blank(old(self).current@) ==> *final(self) == (SudokuSession {
                notice: Notice::NoEmptyCells,
                ..*old(self)
            }) && res.0 && res.1 is None,
            old(self).active && !no_blank(old(self).current@) ==> res.0 && exists|r: int, c: int|
                first_blank(old(self).current@, r, c) && {
                    let v = old(self).solution@[r][c];
                    let mid = SudokuSession {
                        current: final(self).current,
                        hints: final(self).hints,
                        selected: Some((r as usize, c as usize)),
                        notice: Notice::Hint { value: v, row: r as usize, col: c as usize },
                        notice_is_win: false,
                        ..*old(self)
                    };
                    &&& final(self).current@ == set_cell(old(self).current@, r, c, v)
                    &&& final(self).hints@ == old(self).hints@.update(
                        r,
                        final(self).hints@[r],
                    )
                    &&& final(self).hints@[r]@ == old(self).hints@[r]@.update(c, 0)
                    &&& after_win_check(mid, *final(self), res.1)
                },
    {
        if !self.active {
            return (false, None);
        }
        match first_empty(&self.current) {
            Some((r, c)) => {
                let v = self.solution.get(r, c);
                self.current.set(r, c, v);
                self.hints[r][c] = 0;
                self.selected = Some((r, c));
                self.notice = Notice::Hint { value: v, row: r, col: c };
                self.notice_is_win = false;
                let ghost mid = *self;
                let rec = self.check_win();
                assert(first_blank(old(self).current@, r as int, c as int));
                (true, rec)
            },
            None => {
                self.notice = Notice::NoEmptyCells;
                (true, None)
            },
        }
    }

    /// Counts the wrong entries and reports them.
    pub fn check(&mut self)
        ensures
            *final(self) == (SudokuSession {
                notice: if wrong_upto(old(self).current@, old(self).solution@, 81) == 0 {
                    Notice::NoErrors
                } else {
                    Notice::Errors(wrong_upto(old(self).current@, old(self).solution@, 81) as usize)
                },
                notice_is_win: false,
                ..*old(self)
            }),
    {
        let errors = error_count(&self.current, &self.solution);
        if errors == 0 {
            self.notice = Notice::NoErrors;
        } else {
            self.notice = Notice::Errors(errors);
        }
        self.notice_is_win = false;
    }

    /// Gives up: every cell left open in the puzzle is filled from the
    /// solution and its marks cleared, and the clock stops.
    pub fn solve(&mut self)
        ensures
            *final(self) == (SudokuSession {
                current: final(self).current,
                hints: final(self).hints,
                active: false,
                notice: Notice::Solved,
                notice_is_win: false,
                ..*old(self)
            }),
            well_shaped(final(self).current@),
            forall|r: int, c: int|
                0 <= r < 9 && 0 <= c < 9 ==> #[trigger] final(self).current@[r][c] == if old(
                    self,
                ).puzzle@[r][c] == 0 {
                    old(self).solution@[r][c]
                } else {
                    old(self).current@[r][c]
                },
            forall|r: int, c: int|
                0 <= r < 9 && 0 <= c < 9 ==> #[trigger] mark(final(self).hints, r, c) == if old(
                    self,
                ).puzzle@[r][c] == 0 {
                    0
                } else {
                    mark(old(self).hints, r, c)
                },
    {
        self.active = false;
        let ghost cur0 = self.current@;
        let ghost h0 = self.hints;
        proof {
            self.current.lemma_shape();
        }
        let mut r: usize = 0;
        while r < 9
            invariant
                r <= 9,
                self.puzzle == old(self).puzzle,
                self.solution == old(self).solution,
                cur0 == old(self).current@,
                h0 == old(self).hints,
                *self == (SudokuSession { current: self.current, hints: self.hints, active: false, ..*old(self) }),
                well_shaped(self.current@),
                forall|r2: int, c2: int|
                    0 <= r2 < 9 && 0 <= c2 < 9 ==> #[trigger] self.current@[r2][c2] == if r2 < r
                        && self.puzzle@[r2][c2] == 0 {
                        self.solution@[r2][c2]
                    } else {
                        cur0[r2][c2]
                    },
                forall|r2: int, c2: int|
                    0 <= r2 < 9 && 0 <= c2 < 9 ==> #[trigger] mark(self.hints, r2, c2) == if r2 < r
                        && self.puzzle@[r2][c2] == 0 {
                        0
                    } else {
                        mark(h0, r2, c2)
                    },
            decreases 9 - r,
        {
            let mut c: usize = 0;
            while c < 9
                invariant
                    r < 9,
                    c <= 9,
                    self.puzzle == old(self).puzzle,
                    self.solution == old(self).solution,
                    cur0 == old(self).current@,
                    h0 == old(self).hints,
                    *self == (SudokuSession { current: self.current, hints: self.hints, active: false, ..*old(self) }),
                    well_shaped(self.current@),
                    forall|r2: int, c2: int|
                        0 <= r2 < 9 && 0 <= c2 < 9 ==> #[trigger] self.current@[r2][c2] == if (r2 < r
                            || (r2 == r && c2 < c)) && self.puzzle@[r2][c2] == 0 {
                            self.solution@[r2][c2]
                        } else {
                            cur0[r2][c2]
                        },
                    forall|r2: int, c2: int|
                        0 <= r2 < 9 && 0 <= c2 < 9 ==> #[trigger] mark(self.hints, r2, c2) == if (r2
                            < r || (r2 == r && c2 < c)) && self.puzzle@[r2][c2] == 0 {
                            0
                        } else {
                            mark(h0, r2, c2)
                        },
                decreases 9 - c,
            {
                if self.puzzle.is_empty(r, c) {
                    let v = self.solution.get(r, c);
                    self.current.set(r, c, v);
                    let ghost hp = self.hints;
                    self.hints[r][c] = 0;
                    assert forall|r2: int, c2: int| 0 <= r2 < 9 && 0 <= c2 < 9 implies #[trigger] mark(
                        self.hints,
                        r2,
                        c2,
                    ) == if r2 == r && c2 == c {
                        0
                    } else {
                        mark(hp, r2, c2)
                    } by {
                        if r2 != r {
                            assert(self.hints@[r2] == hp@[r2]);
                        }
                    }
                }
                c += 1;
            }
            r += 1;
        }
        self.notice = Notice::Solved;
        self.notice_is_win = false;
    }

    /// Selects a cell while the game runs; returns whether it did.
    pub fn select_cell(&mut self, r: usize, c: usize) -> (done: bool)
        requires
            r < 9,
            c < 9,
        ensures
            done == old(self).active,
            done ==> *final(self) == (SudokuSession { selected: Some((r, c)), ..*old(self) }),
            !done ==> *final(self) == *old(self),
    {
        if self.active {
            self.selected = Some((r, c));
            true
        } else {
            false
        }
    }

    /// Places `num` (0 erases) in the selected cell, when that cell was open
    /// in the puzzle. In mark mode, a nonzero number toggles its mark on an
    /// empty cell and 0 clears the marks; otherwise the number is written,
    /// the cell's marks cleared, and a nonzero number checks for a win.
    /// Returns whether anything changed, and a won game.
    pub fn place_number(&mut self, num: u8) -> (res: (bool, Option<GameRecord>))
        requires
            old(self).wf(),
            num < 16,
        ensures
            final(self).wf(),
            ({
                let s = *old(self);
                if !s.active || s.selected is None {
                    *final(self) == s && !res.0 && res.1 is None
                } else {
                    let (r, c) = s.selected->0;
                    let (r, c) = (r as int, c as int);
                    if s.puzzle@[r][c] != 0 {
                        *final(self) == s && !res.0 && res.1 is None
                    } else if s.hint_mode {
                        if s.current@[r][c] != 0 {
                            *final(self) == s && !res.0 && res.1 is None
                        } else {
                            &&& res.0
                            &&& res.1 is None
                            &&& *final(self) == SudokuSession { hints: final(self).hints, ..s }
                            &&& final(self).hints@ == s.hints@.update(r, final(self).hints@[r])
                            &&& final(self).hints@[r]@ == s.hints@[r]@.update(
                                c,
                                if num == 0 {
                                    0u16
                                } else {
                                    mark(s.hints, r, c) ^ (1u16 << num)
                                },
                            )
                        }
                    } else {
                        let mid = SudokuSession {
                            current: final(self).current,
                            hints: final(self).hints,
                            notice: Notice::Clear,
                            notice_is_win: false,
                            ..s
                        };
                        &&& res.0
                        &&& final(self).current@ == set_cell(s.current@, r, c, num)
                        &&& final(self).hints@ == s.hints@.update(r, final(self).hints@[r])
                        &&& final(self).hints@[r]@ == s.hints@[r]@.update(c, 0)
                        &&& if num != 0 {
                            after_win_check(mid, *final(self), res.1)
                        } else {
                            *final(self) == mid && res.1 is None
                        }
                    }
                }
            }),
    {
        if !self.active {
            return (false, None);
        }
        match self.selected {
            Some((r, c)) => {
                if !self.puzzle.is_empty(r, c) {
                    return (false, None);
                }
                if self.hint_mode {
                    if self.current.is_empty(r, c) {
                        if num == 0 {
                            self.hints[r][c] = 0;
                        } else {
                            self.hints[r][c] = self.hints[r][c] ^ (1u16 << num);
                        }
                        (true, None)
                    } else {
                        (false, None)
                    }
                } else {
                    self.current.set(r, c, num);
                    self.hints[r][c] = 0;
                    self.notice = Notice::Clear;
                    self.notice_is_win = false;
                    if num != 0 {
                        let rec = self.check_win();
                        (true, rec)
                    } else {
                        (true, None)
                    }
                }
            },
            None => (false, None),
        }
    }

    /// Chooses the difficulty of the next deal.
    pub fn set_difficulty(&mut self, d: Difficulty)
        ensures
            *final(self) == (SudokuSession { difficulty: d, ..*old(self) }),
    {
        self.difficulty = d;
    }

    /// One second of play: the clock moves while the game runs. Returns
    /// whether it moved.
    pub fn tick(&mut self) -> (moved: bool)
        requires
            old(self).active ==> old(self).elapsed < u32::MAX,
        ensures
            moved == old(self).active,
            moved ==> *final(self) == (SudokuSession { elapsed: (old(self).elapsed + 1) as u32, ..*old(self) }),
            !moved ==> *final(self) == *old(self),
    {
        if self.active {
            self.elapsed = self.elapsed + 1;
            true
        } else {
            false
        }
    }

    /// A key press while the game runs: digits and erase keys ask for a
    /// placement, arrow keys move the selection within the board.
    pub fn key_down(&mut self, key: Key) -> (e: KeyEffect)
        requires
            old(self).wf(),
            key matches Key::Digit(n) ==> 1 <= n <= 9,
        ensures
            final(self).wf(),
            e == if !old(self).active {
                KeyEffect::Ignore
            } else {
                match key {
                    Key::Digit(n) => KeyEffect::Place(n),
                    Key::Erase => KeyEffect::Place(0),
                    _ => if final(self).selected != old(self).selected {
                        KeyEffect::Redraw
                    } else {
                        KeyEffect::Ignore
                    },
                }
            },
            final(self).selected == if !old(self).active {
                old(self).selected
            } else {
                moved_selection(old(self).selected, key)
            },
            *final(self) == (SudokuSession { selected: final(self).selected, ..*old(self) }),
    {
        if !self.active {
            return KeyEffect::Ignore;
        }
        match key {
            Key::Digit(n) => KeyEffect::Place(n),
            Key::Erase => KeyEffect::Place(0),
            Key::Other => KeyEffect::Ignore,
            _ => {
                let next = next_selection(self.selected, key);
                if next == self.selected {
                    KeyEffect::Ignore
                } else {
                    self.selected = next;
                    KeyEffect::Redraw
                }
            },
        }
    }

    /// Shows or hides the statistics.
    pub fn toggle_stats(&mut self)
        ensures
            *final(self) == (SudokuSession { show_stats: !old(self).show_stats, ..*old(self) }),
    {
        self.show_stats = !self.show_stats;
    }

    /// Shows or hides the history.
    pub fn toggle_history(&mut self)
        ensures
            *final(self) == (SudokuSession { show_history: !old(self).show_history, ..*old(self) }),
    {
        self.show_history = !self.show_history;
    }

    /// Switches between writing numbers and noting marks.
    pub fn toggle_hint_mode(&mut self)
        ensures
            *final(self) == (SudokuSession { hint_mode: !old(self).hint_mode, ..*old(self) }),
    {
        self.hint_mode = !self.hint_mode;
    }
}

} // verus!
