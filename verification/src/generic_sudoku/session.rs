use vstd::prelude::*;
use crate::generic_sudoku::config::{PuzzleConfig, listed_owners, placements_fit};
use crate::generic_sudoku::generator::{
    Difficulty, copy_boards, generate, overlaps_agree, removal_inv, board_grids, layout_deal,
};
use crate::generic_sudoku::generic_board::{
    GenericMultiBoard, gactive, gerrors_upto, gscan, gvalue, lemma_write_effect, written,
};
use crate::multi_sudoku::session::{Notice, before};
use crate::sudoku::board::{set_cell, well_shaped};
use crate::keys::{Key, KeyEffect};
use crate::sudoku::solver::is_solution;

verus! {

/// A finished or abandoned game, for the app to store under the session's
/// configuration.
#[derive(Clone, Copy, Debug, PartialEq, Eq, Structural)]
pub struct GameRecord {
    pub won: bool,
    pub difficulty: Difficulty,
    pub elapsed: u32,
}

/// (gr, gc) is the first cell on a board, row-major over the grid, that is
/// empty in `m`.
pub open spec fn first_open(m: GenericMultiBoard, gr: int, gc: int) -> bool {
    &&& 0 <= gr < m.overlap_info.grid_rows
    &&& 0 <= gc < m.overlap_info.grid_cols
    &&& gactive(m, gr, gc)
    &&& gvalue(m, gr, gc) == 0
    &&& forall|r: int, c: int|
        0 <= r < m.overlap_info.grid_rows && 0 <= c < m.overlap_info.grid_cols && before(r, c, gr, gc)
            && #[trigger] gactive(m, r, c) ==> gvalue(m, r, c) != 0
}

/// Every cell on a board is filled in `m`.
pub open spec fn none_open(m: GenericMultiBoard) -> bool {
    forall|r: int, c: int|
        0 <= r < m.overlap_info.grid_rows && 0 <= c < m.overlap_info.grid_cols && #[trigger] gactive(m, r, c)
            ==> gvalue(m, r, c) != 0
}

/// The first empty cell on a board, row-major over the grid.
pub fn first_open_cell(m: &GenericMultiBoard) -> (p: Option<(usize, usize)>)
    requires
        m.wf(),
    ensures
        match p {
            Some((r, c)) => first_open(*m, r as int, c as int),
            None => none_open(*m),
        },
{
    let rows = m.grid_rows();
    let cols = m.grid_cols();
    let mut r: usize = 0;
    while r < rows
        invariant
            m.wf(),
            rows == m.overlap_info.grid_rows,
            cols == m.overlap_info.grid_cols,
            r <= rows,
            forall|r2: int, c2: int|
                0 <= r2 < r && 0 <= c2 < cols && #[trigger] gactive(*m, r2, c2) ==> gvalue(*m, r2, c2) != 0,
        decreases rows - r,
    {
        let mut c: usize = 0;
        while c < cols
            invariant
                m.wf(),
                rows == m.overlap_info.grid_rows,
                cols == m.overlap_info.grid_cols,
                r < rows,
                c <= cols,
                forall|r2: int, c2: int|
                    0 <= r2 < r && 0 <= c2 < cols && #[trigger] gactive(*m, r2, c2) ==> gvalue(*m, r2, c2) != 0,
                forall|c2: int| 0 <= c2 < c && #[trigger] gactive(*m, r as int, c2) ==> gvalue(*m, r as int, c2) != 0,
            decreases cols - c,
        {
            if m.is_active(r, c) && m.is_empty(r, c) {
                return Some((r, c));
            }
            c += 1;
        }
        r += 1;
    }
    None
}

/// Where an arrow key moves the selection on `m`: the next cell on a board
/// in its direction; None when there is none, or for other keys.
pub open spec fn step_target(m: GenericMultiBoard, sel: Option<(usize, usize)>, key: Key) -> Option<(usize, usize)> {
    match sel {
        None => None,
        Some((r, c)) => {
            let (dr, dc) = match key {
                Key::Up => (-1int, 0int),
                Key::Down => (1int, 0int),
                Key::Left => (0int, -1int),
                Key::Right => (0int, 1int),
                _ => (0int, 0int),
            };
            match gscan(m, r + dr, c + dc, dr, dc, m.overlap_info.grid_rows as int, m.overlap_info.grid_cols as int) {
                Some(p) => Some((p.0 as usize, p.1 as usize)),
                None => None,
            }
        },
    }
}

/// A game on a configured layout of boards in progress.
pub struct PlaySession {
    pub config: PuzzleConfig,
    pub puzzle: GenericMultiBoard,
    pub solution: GenericMultiBoard,
    pub current: GenericMultiBoard,
    pub difficulty: Difficulty,
    pub selected: Option<(usize, usize)>,
    pub elapsed: u32,
    /// The clock runs (and moves are taken) while this is set.
    pub active: bool,
    pub notice: Notice,
    pub notice_is_win: bool,
    pub show_stats: bool,
    pub show_history: bool,
}

/// All boards of `m` are solved.
pub open spec fn all_solved(m: GenericMultiBoard) -> bool {
    forall|x: int| 0 <= x < m.boards@.len() ==> is_solution(#[trigger] m.boards@[x]@)
}

/// `t` is `s` with other boards and control state: the same configuration,
/// dealt puzzle and solution.
pub open spec fn same_deal(s: PlaySession, t: PlaySession) -> bool {
    &&& t.config == s.config
    &&& t.puzzle == s.puzzle
    &&& t.solution == s.solution
}

/// What a fresh deal of `d` leaves in a session.
pub open spec fn fresh_deal(s: PlaySession, d: Difficulty) -> bool {
    &&& s.difficulty == d
    &&& s.current.boards@ == s.puzzle.boards@
    &&& s.selected is None
    &&& s.elapsed == 0
    &&& s.active
    &&& s.notice == Notice::Clear
    &&& !s.notice_is_win
    &&& overlaps_agree(s.solution.boards@, s.config.boards@)
    &&& forall|x: int| 0 <= x < s.solution.boards@.len() ==> well_shaped(#[trigger] s.solution.boards@[x]@)
    &&& removal_inv(s.puzzle.boards@, s.solution.boards@, s.config.boards@)
    &&& exists|st: u64|
        (board_grids(s.puzzle.boards@), board_grids(s.solution.boards@)) == #[trigger] layout_deal(s.config.boards@, d, st)
}

/// `t` is `s` after a win check: when every board is solved the game stops
/// with the win notice, else nothing changes.
pub open spec fn after_win_check(s: PlaySession, t: PlaySession, rec: Option<GameRecord>) -> bool {
    if all_solved(s.current) {
        &&& t == PlaySession { active: false, notice: Notice::Complete(s.elapsed), notice_is_win: true, ..s }
        &&& rec matches Some(g) && g.won && g.difficulty == s.difficulty && g.elapsed == s.elapsed
    } else {
        t == s && rec is None
    }
}

impl PlaySession {
    /// The session's invariant: the three boards are well formed on the
    /// session's layout, and the selection is a cell on a board.
    pub open spec fn wf(&self) -> bool {
        &&& placements_fit(self.config.boards@)
        &&& self.config.boards@.len() > 0
        &&& self.puzzle.wf()
        &&& self.solution.wf()
        &&& self.current.wf()
        &&& self.puzzle.config.boards@ == self.config.boards@
        &&& self.solution.config.boards@ == self.config.boards@
        &&& self.current.config.boards@ == self.config.boards@
        &&& self.selected matches Some((r, c)) ==> r < self.current.overlap_info.grid_rows && c
            < self.current.overlap_info.grid_cols && gactive(self.current, r as int, c as int)
    }

    /// A session on an easy deal of a layout, as the play page opens.
    pub fn new(config: PuzzleConfig) -> (s: Self)
        requires
            placements_fit(config.boards@),
            config.boards@.len() > 0,
        ensures
            s.wf(),
            s.config.name@ == config.name@,
            s.config.boards@ == config.boards@,
            fresh_deal(s, Difficulty::Easy),
            !s.show_stats,
            !s.show_history,
    {
        let blank = GenericMultiBoard::new(&config);
        let solution = GenericMultiBoard::new(&config);
        let current = GenericMultiBoard::new(&config);
        let mut s = PlaySession {
            config,
            puzzle: blank,
            solution,
            current,
            difficulty: Difficulty::Easy,
            selected: None,
            elapsed: 0,
            active: false,
            notice: Notice::Clear,
            notice_is_win: false,
            show_stats: false,
            show_history: false,
        };
        s.start();
        s
    }

    /// Deals a new puzzle of the session's difficulty on its layout and
    /// starts the clock.
    pub fn start(&mut self)
        requires
            old(self).wf(),
        ensures
            final(self).wf(),
            final(self).config == old(self).config,
            fresh_deal(*final(self), old(self).difficulty),
            final(self).show_stats == old(self).show_stats,
            final(self).show_history == old(self).show_history,
    {
        let (puzzle, solution) = generate(&self.config, self.difficulty);
        let mut current = GenericMultiBoard::new(&self.config);
        current.boards = copy_boards(&puzzle.boards);
        self.current = current;
        self.puzzle = puzzle;
        self.solution = solution;
        self.selected = None;
        self.elapsed = 0;
        self.active = true;
        self.notice = Notice::Clear;
        self.notice_is_win = false;
    }

    /// New game: a game in progress is given up (and reported), then a new
    /// puzzle is dealt.
    pub fn new_game(&mut self) -> (rec: Option<GameRecord>)
        requires
            old(self).wf(),
        ensures
            final(self).wf(),
            final(self).config == old(self).config,
            fresh_deal(*final(self), old(self).difficulty),
            final(self).show_stats == old(self).show_stats,
            final(self).show_history == old(self).show_history,
            old(self).active ==> (rec matches Some(g) && !g.won && g.difficulty == old(self).difficulty
                && g.elapsed == old(self).elapsed),
            !old(self).active ==> rec is None,
    {
        let rec = self.leave();
        self.start();
        rec
    }

    /// Going back to the layout editor: a game in progress is given up (and
    /// reported).
    pub fn leave(&self) -> (rec: Option<GameRecord>)
        ensures
            self.active ==> (rec matches Some(g) && !g.won && g.difficulty == self.difficulty && g.elapsed
                == self.elapsed),
            !self.active ==> rec is None,
    {
        if self.active {
            Some(GameRecord { won: false, difficulty: self.difficulty, elapsed: self.elapsed })
        } else {
            None
        }
    }

    /// Puts the boards back as dealt and restarts the clock.
    pub fn reset(&mut self)
        requires
            old(self).wf(),
        ensures
            final(self).wf(),
            same_deal(*old(self), *final(self)),
            final(self).current.boards@ == old(self).puzzle.boards@,
            final(self).current.config == old(self).current.config,
            final(self).current.overlap_info == old(self).current.overlap_info,
            final(self).selected is None,
            final(self).notice == Notice::BoardReset,
            !final(self).notice_is_win,
            final(self).elapsed == 0,
            final(self).active,
            final(self).difficulty == old(self).difficulty,
            final(self).show_stats == old(self).show_stats,
            final(self).show_history == old(self).show_history,
    {
        self.current.boards = copy_boards(&self.puzzle.boards);
        self.selected = None;
        self.notice = Notice::BoardReset;
        self.notice_is_win = false;
        self.elapsed = 0;
        self.active = true;
    }

    /// Stops the game when every board is solved.
    fn check_win(&mut self) -> (rec: Option<GameRecord>)
        ensures
            after_win_check(*old(self), *final(self), rec),
    {
        if self.current.is_solved() {
            self.active = false;
            self.notice = Notice::Complete(self.elapsed);
            self.notice_is_win = true;
            Some(GameRecord { won: true, difficulty: self.difficulty, elapsed: self.elapsed })
        } else {
            None
        }
    }

    /// Fills the first empty cell on a board (row-major over the grid) from
    /// the solution, selects it and checks for a win. Nothing happens when
    /// the game is not running.
    pub fn hint(&mut self) -> (res: (bool, Option<GameRecord>))
        requires
            old(self).wf(),
        ensures
            final(self).wf(),
            !old(self).active ==> *final(self) == *old(self) && !res.0 && res.1 is None,
            old(self).active && none_open(old(self).current) ==> *final(self) == (PlaySession {
                notice: Notice::NoEmptyCells,
                ..*old(self)
            }) && res.0 && res.1 is None,
            old(self).active && !none_open(old(self).current) ==> res.0 && exists|r: int, c: int|
                first_open(old(self).current, r, c) && {
                    let v = gvalue(old(self).solution, r, c);
                    let mid = PlaySession {
                        current: final(self).current,
                        selected: Some((r as usize, c as usize)),
                        notice: Notice::Hint(v),
                        notice_is_win: false,
                        ..*old(self)
                    };
                    &&& written(old(self).current, final(self).current, r, c, v)
                    &&& after_win_check(mid, *final(self), res.1)
                },
    {
        if !self.active {
            return (false, None);
        }
        match first_open_cell(&self.current) {
            Some((r, c)) => {
                let v = self.solution.get(r, c);
                self.current.set(r, c, v);
                self.selected = Some((r, c));
                self.notice = Notice::Hint(v);
                self.notice_is_win = false;
                let rec = self.check_win();
                assert(first_open(old(self).current, r as int, c as int));
                (true, rec)
            },
            None => {
                self.notice = Notice::NoEmptyCells;
                (true, None)
            },
        }
    }

    /// Counts the wrong entries on the grid and reports them.
    pub fn check(&mut self)
        requires
            old(self).wf(),
            old(self).current.overlap_info.grid_rows * old(self).current.overlap_info.grid_cols <= usize::MAX,
        ensures
            *final(self) == (PlaySession {
                notice: if gerrors_upto(
                    old(self).current,
                    old(self).solution,
                    old(self).current.overlap_info.grid_cols as int,
                    old(self).current.overlap_info.grid_rows * old(self).current.overlap_info.grid_cols,
                ) == 0 {
                    Notice::NoErrors
                } else {
                    Notice::Errors(
                        gerrors_upto(
                            old(self).current,
                            old(self).solution,
                            old(self).current.overlap_info.grid_cols as int,
                            old(self).current.overlap_info.grid_rows * old(self).current.overlap_info.grid_cols,
                        ) as usize,
                    )
                },
                notice_is_win: false,
                ..*old(self)
            }),
    {
        let errors = self.current.error_count(&self.solution);
        if errors == 0 {
            self.notice = Notice::NoErrors;
        } else {
            self.notice = Notice::Errors(errors);
        }
        self.notice_is_win = false;
    }

    /// Gives up: every grid cell on a board left open in the puzzle is
    /// written from the solution on each board covering it, and the clock
    /// stops.
    pub fn solve(&mut self)
        requires
            old(self).wf(),
        ensures
            final(self).wf(),
            final(self).current.config == old(self).current.config,
            final(self).current.overlap_info == old(self).current.overlap_info,
            final(self).current.boards@.len() == old(self).current.boards@.len(),
            *final(self) == (PlaySession {
                current: final(self).current,
                active: false,
                notice: Notice::Solved,
                notice_is_win: false,
                ..*old(self)
            }),
            forall|x: int, r: int, c: int|
                0 <= x < old(self).current.boards@.len() && 0 <= r < 9 && 0 <= c < 9
                    ==> #[trigger] final(self).current.boards@[x]@[r][c] == if solved_cell(*old(self), x, r, c) {
                    gvalue(
                        old(self).solution,
                        3 * old(self).config.boards@[x].meta_row + r,
                        3 * old(self).config.boards@[x].meta_col + c,
                    )
                } else {
                    old(self).current.boards@[x]@[r][c]
                },
    {
        self.active = false;
        let ghost s0 = *self;
        let rows = self.current.grid_rows();
        let cols = self.current.grid_cols();
        let mut gr: usize = 0;
        while gr < rows
            invariant
                gr <= rows,
                rows == s0.current.overlap_info.grid_rows,
                cols == s0.current.overlap_info.grid_cols,
                s0.wf(),
                self.wf(),
                *self == (PlaySession { current: self.current, ..s0 }),
                self.current.config == s0.current.config,
                self.current.overlap_info == s0.current.overlap_info,
                self.current.boards@.len() == s0.current.boards@.len(),
                forall|x: int, r: int, c: int|
                    0 <= x < s0.current.boards@.len() && 0 <= r < 9 && 0 <= c < 9
                        ==> #[trigger] self.current.boards@[x]@[r][c] == if 3 * s0.config.boards@[x].meta_row + r < gr
                        && solved_cell(s0, x, r, c) {
                        gvalue(s0.solution, 3 * s0.config.boards@[x].meta_row + r, 3 * s0.config.boards@[x].meta_col + c)
                    } else {
                        s0.current.boards@[x]@[r][c]
                    },
            decreases rows - gr,
        {
            let mut gc: usize = 0;
            while gc < cols
                invariant
                    gr < rows,
                    gc <= cols,
                    rows == s0.current.overlap_info.grid_rows,
                    cols == s0.current.overlap_info.grid_cols,
                    s0.wf(),
                    self.wf(),
                    *self == (PlaySession { current: self.current, ..s0 }),
                    self.current.config == s0.current.config,
                    self.current.overlap_info == s0.current.overlap_info,
                    self.current.boards@.len() == s0.current.boards@.len(),
                    forall|x: int, r: int, c: int|
                        0 <= x < s0.current.boards@.len() && 0 <= r < 9 && 0 <= c < 9
                            ==> #[trigger] self.current.boards@[x]@[r][c] == if before(
                            3 * s0.config.boards@[x].meta_row + r,
                            3 * s0.config.boards@[x].meta_col + c,
                            gr as int,
                            gc as int,
                        ) && solved_cell(s0, x, r, c) {
                            gvalue(
                                s0.solution,
                                3 * s0.config.boards@[x].meta_row + r,
                                3 * s0.config.boards@[x].meta_col + c,
                            )
                        } else {
                            s0.current.boards@[x]@[r][c]
                        },
                decreases cols - gc,
            {
                if self.current.is_active(gr, gc) && self.puzzle.is_empty(gr, gc) {
                    let v = self.solution.get(gr, gc);
                    let ghost prev = self.current;
                    self.current.set(gr, gc, v);
                    proof {
                        lemma_write_effect(prev, self.current, gr as int, gc as int, v);
                    }
                }
                gc += 1;
            }
            gr += 1;
        }
        self.notice = Notice::Solved;
        self.notice_is_win = false;
    }

    /// Selects a cell on a board while the game runs; returns whether it did.
    pub fn select_cell(&mut self, r: usize, c: usize) -> (done: bool)
        requires
            old(self).wf(),
        ensures
            final(self).wf(),
            done == (old(self).active && r < old(self).current.overlap_info.grid_rows && c
                < old(self).current.overlap_info.grid_cols && gactive(old(self).current, r as int, c as int)),
            done ==> *final(self) == (PlaySession { selected: Some((r, c)), ..*old(self) }),
            !done ==> *final(self) == *old(self),
    {
        if self.active && r < self.current.grid_rows() && c < self.current.grid_cols() && self.current.is_active(r, c) {
            self.selected = Some((r, c));
            true
        } else {
            false
        }
    }

    /// Writes `num` (0 erases) at the selected cell on every board covering
    /// it, when that cell was open in the puzzle; a nonzero number checks for
    /// a win. Returns whether anything changed, and a won game.
    pub fn place_number(&mut self, num: u8) -> (res: (bool, Option<GameRecord>))
        requires
            old(self).wf(),
        ensures
            final(self).wf(),
            ({
                let s = *old(self);
                if !s.active || s.selected is None {
                    *final(self) == s && !res.0 && res.1 is None
                } else {
                    let (r, c) = s.selected->0;
                    let (r, c) = (r as int, c as int);
                    if gvalue(s.puzzle, r, c) != 0 {
                        *final(self) == s && !res.0 && res.1 is None
                    } else {
                        let mid = PlaySession {
                            current: final(self).current,
                            notice: Notice::Clear,
                            notice_is_win: false,
                            ..s
                        };
                        &&& res.0
                        &&& written(s.current, final(self).current, r, c, num)
                        &&& if num != 0 {
                            after_win_check(mid, *final(self), res.1)
                        } else {
                            *final(self) == mid && res.1 is None
                        }
                    }
                }
            }),
    {
        if !self.active {
            return (false, None);
        }
        match self.selected {
            Some((r, c)) => {
                if !self.puzzle.is_empty(r, c) {
                    return (false, None);
                }
                self.current.set(r, c, num);
                self.notice = Notice::Clear;
                self.notice_is_win = false;
                if num != 0 {
                    let rec = self.check_win();
                    (true, rec)
                } else {
                    (true, None)
                }
            },
            None => (false, None),
        }
    }

    /// Chooses the difficulty of the next deal.
    pub fn set_difficulty(&mut self, d: Difficulty)
        ensures
            *final(self) == (PlaySession { difficulty: d, ..*old(self) }),
    {
        self.difficulty = d;
    }

    /// One second of play: the clock moves while the game runs. Returns
    /// whether it moved.
    pub fn tick(&mut self) -> (moved: bool)
        requires
            old(self).active ==> old(self).elapsed < u32::MAX,
        ensures
            moved == old(self).active,
            moved ==> *final(self) == (PlaySession { elapsed: (old(self).elapsed + 1) as u32, ..*old(self) }),
            !moved ==> *final(self) == *old(self),
    {
        if self.active {
            self.elapsed = self.elapsed + 1;
            true
        } else {
            false
        }
    }

    /// A key press while the game runs: digits and erase keys ask for a
    /// placement, arrow keys move the selection to the next cell on a board
    /// in their direction.
    pub fn key_down(&mut self, key: Key) -> (e: KeyEffect)
        requires
            old(self).wf(),
            old(self).current.overlap_info.grid_rows < i32::MAX,
            old(self).current.overlap_info.grid_cols < i32::MAX,
        ensures
            final(self).wf(),
            !old(self).active ==> *final(self) == *old(self) && e == KeyEffect::Ignore,
            old(self).active ==> match key {
                Key::Digit(n) => *final(self) == *old(self) && e == KeyEffect::Place(n),
                Key::Erase => *final(self) == *old(self) && e == KeyEffect::Place(0),
                _ => match step_target(old(self).current, old(self).selected, key) {
                    Some(p) => *final(self) == (PlaySession { selected: Some(p), ..*old(self) }) && e
                        == KeyEffect::Redraw,
                    None => *final(self) == *old(self) && e == KeyEffect::Ignore,
                },
            },
    {
        if !self.active {
            return KeyEffect::Ignore;
        }
        match key {
            Key::Digit(n) => KeyEffect::Place(n),
            Key::Erase => KeyEffect::Place(0),
            Key::Other => KeyEffect::Ignore,
            _ => match self.selected {
                None => KeyEffect::Ignore,
                Some((r, c)) => {
                    let (dr, dc): (i32, i32) = match key {
                        Key::Up => (-1, 0),
                        Key::Down => (1, 0),
                        Key::Left => (0, -1),
                        _ => (0, 1),
                    };
                    match self.current.next_active(r, c, dr, dc) {
                        Some(p) => {
                            proof {
                                lemma_scan_lands(
                                    self.current,
                                    r + dr,
                                    c + dc,
                                    dr as int,
                                    dc as int,
                                    self.current.overlap_info.grid_rows as int,
                                    self.current.overlap_info.grid_cols as int,
                                );
                            }
                            self.selected = Some(p);
                            KeyEffect::Redraw
                        },
                        None => KeyEffect::Ignore,
                    }
                },
            },
        }
    }

    /// Shows or hides the statistics.
    pub fn toggle_stats(&mut self)
        ensures
            *final(self) == (PlaySession { show_stats: !old(self).show_stats, ..*old(self) }),
    {
        self.show_stats = !self.show_stats;
    }

    /// Shows or hides the history.
    pub fn toggle_history(&mut self)
        ensures
            *final(self) == (PlaySession { show_history: !old(self).show_history, ..*old(self) }),
    {
        self.show_history = !self.show_history;
    }
}

/// Cell (r, c) of board `x` is one that giving up fills: its grid cell
/// lies in the grid, on board `x`, and is open in the puzzle.
pub open spec fn solved_cell(s: PlaySession, x: int, r: int, c: int) -> bool {
    let gr = 3 * s.config.boards@[x].meta_row + r;
    let gc = 3 * s.config.boards@[x].meta_col + c;
    &&& gr < s.current.overlap_info.grid_rows
    &&& gc < s.current.overlap_info.grid_cols
    &&& listed_owners(s.current.overlap_info.table(), gr / 3, gc / 3).contains(x as usize)
    &&& gvalue(s.puzzle, gr, gc) == 0
}

/// A cell found by a scan lies on a board inside the grid.
proof fn lemma_scan_lands(m: GenericMultiBoard, r: int, c: int, dr: int, dc: int, rows: int, cols: int)
    ensures
        gscan(m, r, c, dr, dc, rows, cols) matches Some(p) ==> 0 <= p.0 < rows && 0 <= p.1 < cols && gactive(m, p.0, p.1),
    decreases crate::generic_sudoku::generic_board::walk_left(r, c, dr, dc, rows, cols),
{
    if (0 <= r < rows && 0 <= c < cols) && !(dr == 0 && dc == 0) && !gactive(m, r, c) {
        lemma_scan_lands(m, r + dr, c + dc, dr, dc, rows, cols);
    }
}

} // verus!
