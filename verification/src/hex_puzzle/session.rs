use vstd::prelude::*;
use vstd::string::StringExecFns;
use crate::hex_puzzle::game::{
    Cell, GameState, Hex, Move, Rng, all_empty, clear_after, free_tile, hexes_on, is_board, lemma_tile_can_step,
    lemma_with_cell_hexes, slides_off, tile_at, with_cell, gen_run, empty_board,
};
use crate::hex_puzzle::levels::Difficulty;
use crate::text::{decimal, push_decimal};

verus! {

/// What the status line of a hex game says.
#[derive(Clone, Copy, Debug, PartialEq, Eq, Structural)]
pub enum Notice {
    Clear,
    Solved(u32),
    Stuck,
    Blocked,
}

/// Text of a status line.
pub open spec fn notice_chars(n: Notice) -> Seq<char> {
    match n {
        Notice::Clear => Seq::empty(),
        Notice::Solved(m) => "Solved in "@ + decimal(m as nat) + " moves!"@,
        Notice::Stuck => "Stuck \u{2014} no tile can move."@,
        Notice::Blocked => "Blocked."@,
    }
}

/// Renders a status line.
pub fn notice_text(n: Notice) -> (t: String)
    ensures
        t@ == notice_chars(n),
{
    match n {
        Notice::Clear => String::new(),
        Notice::Solved(m) => {
            let mut s = String::from_str("Solved in ");
            push_decimal(&mut s, m as u64);
            s.append(" moves!");
            s
        },
        Notice::Stuck => String::from_str("Stuck \u{2014} no tile can move."),
        Notice::Blocked => String::from_str("Blocked."),
    }
}

/// A game played, for the app to store.
#[derive(Clone, Copy, Debug, PartialEq, Eq, Structural)]
pub struct HexRecord {
    pub difficulty: Difficulty,
    pub moves: u32,
    pub elapsed: u32,
    pub solved: bool,
}

/// Some tile is left and none has a clear path off the board.
pub open spec fn stuck(cells: Seq<(Hex, Cell)>, radius: int) -> bool {
    &&& exists|i: int| 0 <= i < cells.len() && (#[trigger] cells[i]).1 is Tile
    &&& !exists|i: int| 0 <= i < cells.len() && #[trigger] free_tile(cells, radius, cells[i])
}

/// A hex puzzle in play with the state of the controls around it.
pub struct HexSession {
    pub game: GameState,
    pub rng: Rng,
    pub difficulty: Difficulty,
    pub elapsed: u32,
    pub notice: Notice,
    pub notice_is_good: bool,
    pub last_clicked: Option<Hex>,
    pub show_stats: bool,
    pub show_history: bool,
    /// The game's result has been stored.
    pub recorded: bool,
}

/// Radius of a difficulty's board.
pub open spec fn radius_of(d: Difficulty) -> int {
    match d {
        Difficulty::Easy => 2,
        Difficulty::Medium => 3,
        Difficulty::Hard => 3,
        Difficulty::Expert => 4,
        Difficulty::Master => 4,
    }
}

/// Tiles asked of the generator for a difficulty.
pub open spec fn tiles_of(d: Difficulty) -> int {
    match d {
        Difficulty::Easy => 8,
        Difficulty::Medium => 14,
        Difficulty::Hard => 22,
        Difficulty::Expert => 32,
        Difficulty::Master => 50,
    }
}

/// A freshly generated game of difficulty `d`: its tiles can be cleared
/// one after the other.
pub open spec fn fresh_game(s: HexSession, d: Difficulty) -> bool {
    &&& s.game.radius == radius_of(d)
    &&& s.game.moves == 0
    &&& s.game.removed == 0
    &&& s.game.total <= tiles_of(d)
    &&& exists|order: Seq<Hex>|
        order.len() == s.game.total && (#[trigger] clear_after(s.game.cells@, radius_of(d), order) matches Some(c)
            && all_empty(c) && is_board(c, radius_of(d)))
    &&& s.elapsed == 0
    &&& s.notice == Notice::Clear
    &&& !s.notice_is_good
    &&& s.last_clicked is None
    &&& !s.recorded
}

/// The game a difficulty's generator makes from the generator state `st`:
/// the board, the positions in order of placement and the state after.
pub open spec fn generated_game(d: Difficulty, st: u64) -> (Seq<(Hex, Cell)>, Seq<Hex>, u64) {
    gen_run(radius_of(d), tiles_of(d), empty_board(radius_of(d)), Seq::empty(), st, 0, tiles_of(d) * 200)
}

/// `s` holds the game generated for `d` from the generator state `st`.
pub open spec fn generated_from(s: HexSession, d: Difficulty, st: u64) -> bool {
    &&& s.game.cells@ == generated_game(d, st).0
    &&& s.game.total == generated_game(d, st).1.len()
    &&& s.rng.state == generated_game(d, st).2
}

/// `t` and `res` are what a click on `hex` makes of session `s0`.
pub open spec fn click_result(s0: HexSession, hex: Hex, t: HexSession, res: (Option<Move>, Option<HexRecord>)) -> bool {
    let s = s0;
    let g = s.game;
    if all_empty(g.cells@) {
        t == s && res.0 is None && res.1 is None
    } else {
        let s1 = HexSession { last_clicked: Some(hex), ..s };
        match tile_at(g.cells@, hex) {
            None => {
                &&& res.0 == Some(Move::Empty)
                &&& res.1 is None
                &&& t.game.cells@ == g.cells@
                &&& t.game.radius == g.radius
                &&& t.game.total == g.total
                &&& t.game.moves == g.moves
                &&& t.game.removed == g.removed
                &&& t == (HexSession { game: t.game, notice: Notice::Clear, last_clicked: None, ..s })
            },
            Some(_) => {
                &&& t.game.radius == g.radius
                &&& t.game.total == g.total
                &&& if slides_off(g.cells@, g.radius as int, hex) {
                    let cells = with_cell(g.cells@, hex.q as int, hex.r as int, Cell::Empty);
                    let after = HexSession { game: t.game, ..s1 };
                    &&& res.0 == Some(Move::Removed)
                    &&& t.game.cells@ == cells
                    &&& t.game.moves == g.moves + 1
                    &&& t.game.removed == g.removed + 1
                    &&& if all_empty(cells) {
                        &&& t == (HexSession {
                            notice: Notice::Solved(t.game.moves),
                            notice_is_good: true,
                            recorded: true,
                            ..after
                        })
                        &&& res.1 == if s.recorded {
                            None
                        } else {
                            Some(
                                HexRecord {
                                    difficulty: s.difficulty,
                                    moves: t.game.moves,
                                    elapsed: s.elapsed,
                                    solved: true,
                                },
                            )
                        }
                    } else if stuck(cells, g.radius as int) {
                        t == (HexSession { notice: Notice::Stuck, notice_is_good: false, ..after })
                            && res.1 is None
                    } else {
                        t == (HexSession { notice: Notice::Clear, ..after }) && res.1 is None
                    }
                } else {
                    &&& res.0 == Some(Move::Blocked)
                    &&& t == (HexSession {
                        notice: Notice::Blocked,
                        notice_is_good: false,
                        ..s1
                    })
                    &&& res.1 is None
                }
            },
        }
    }
}

impl HexSession {
    /// The session's invariant: the board's hexes lie within its radius,
    /// which is small.
    pub open spec fn wf(&self) -> bool {
        &&& 0 <= self.game.radius <= 0x3FFF_FFFF
        &&& hexes_on(self.game.cells@, self.game.radius as int)
    }

    /// A session on a fresh game of medium difficulty.
    pub fn new() -> (s: Self)
        ensures
            s.wf(),
            s.difficulty == Difficulty::Medium,
            fresh_game(s, Difficulty::Medium),
            exists|st: u64| #[trigger] generated_from(s, Difficulty::Medium, st),
            !s.show_stats,
            !s.show_history,
    {
        let mut s = HexSession {
            game: GameState::empty(3),
            rng: Rng::from_entropy(),
            difficulty: Difficulty::Medium,
            elapsed: 0,
            notice: Notice::Clear,
            notice_is_good: false,
            last_clicked: None,
            show_stats: false,
            show_history: false,
            recorded: false,
        };
        let ghost st = s.rng.state;
        s.start();
        assert(generated_from(s, Difficulty::Medium, st));
        s
    }

    /// A session on a saved game.
    pub fn resume(game: GameState, elapsed: u32, difficulty: Difficulty) -> (s: Self)
        requires
            0 <= game.radius <= 0x3FFF_FFFF,
            hexes_on(game.cells@, game.radius as int),
        ensures
            s.wf(),
            s.game == game,
            s.elapsed == elapsed,
            s.difficulty == difficulty,
            s.notice == Notice::Clear,
            !s.notice_is_good,
            s.last_clicked is None,
            !s.recorded,
            !s.show_stats,
            !s.show_history,
    {
        HexSession {
            game,
            rng: Rng::from_entropy(),
            difficulty,
            elapsed,
            notice: Notice::Clear,
            notice_is_good: false,
            last_clicked: None,
            show_stats: false,
            show_history: false,
            recorded: false,
        }
    }

    /// Generates a fresh game of the session's difficulty.
    pub fn start(&mut self)
        ensures
            final(self).wf(),
            final(self).difficulty == old(self).difficulty,
            fresh_game(*final(self), old(self).difficulty),
            generated_from(*final(self), old(self).difficulty, old(self).rng.state),
            final(self).show_stats == old(self).show_stats,
            final(self).show_history == old(self).show_history,
    {
        let radius = self.difficulty.radius();
        let tiles = self.difficulty.tiles();
        let (game, order) = GameState::generate(radius, tiles, &mut self.rng);
        self.game = game;
        self.elapsed = 0;
        self.notice = Notice::Clear;
        self.notice_is_good = false;
        self.last_clicked = None;
        self.recorded = false;
    }

    /// New game: a game begun, neither stored nor won, is reported as
    /// given up; then a fresh game starts.
    pub fn new_game(&mut self) -> (rec: Option<HexRecord>)
        ensures
            final(self).wf(),
            final(self).difficulty == old(self).difficulty,
            fresh_game(*final(self), old(self).difficulty),
            generated_from(*final(self), old(self).difficulty, old(self).rng.state),
            final(self).show_stats == old(self).show_stats,
            final(self).show_history == old(self).show_history,
            rec == if !old(self).recorded && old(self).game.moves > 0 && !all_empty(old(self).game.cells@) {
                Some(
                    HexRecord {
                        difficulty: old(self).difficulty,
                        moves: old(self).game.moves,
                        elapsed: old(self).elapsed,
                        solved: false,
                    },
                )
            } else {
                None
            },
    {
        let rec = if !self.recorded && self.game.moves > 0 && !self.game.is_won() {
            Some(HexRecord { difficulty: self.difficulty, moves: self.game.moves, elapsed: self.elapsed, solved: false })
        } else {
            None
        };
        self.start();
        rec
    }

    /// Chooses a difficulty; a different one starts a fresh game. Returns
    /// whether one started.
    pub fn set_difficulty(&mut self, d: Difficulty) -> (started: bool)
        requires
            old(self).wf(),
        ensures
            final(self).wf(),
            started == (d != old(self).difficulty),
            final(self).difficulty == d,
            started ==> fresh_game(*final(self), d) && final(self).show_stats == old(self).show_stats
                && final(self).show_history == old(self).show_history && generated_from(*final(self), d, old(self).rng.state),
            !started ==> *final(self) == *old(self),
    {
        if self.difficulty != d {
            self.difficulty = d;
            self.start();
            true
        } else {
            false
        }
    }

    /// A click on `hex`, unless the puzzle is solved: a tile there slides
    /// off if its path is clear (winning when it was the last, or reporting
    /// a board where no tile can move) and is blocked otherwise; a click on
    /// no tile clears the last click. Returns what the move did (None when
    /// the puzzle was already solved) and the record of a win not yet
    /// stored.
    pub fn click(&mut self, hex: Hex) -> (res: (Option<Move>, Option<HexRecord>))
        requires
            old(self).wf(),
            old(self).game.moves < u32::MAX,
            old(self).game.removed < u32::MAX,
        ensures
            final(self).wf(),
            click_result(*old(self), hex, *final(self), res),
    {
        if self.game.is_won() {
            return (None, None);
        }
        self.last_clicked = Some(hex);
        proof {
            lemma_tile_can_step(self.game.cells@, self.game.radius as int, hex);
            lemma_with_cell_hexes(self.game.cells@, hex.q as int, hex.r as int, Cell::Empty);
        }
        let m = self.game.play(hex);
        match m {
            Move::Removed => {
                if self.game.is_won() {
                    self.notice = Notice::Solved(self.game.moves);
                    self.notice_is_good = true;
                    let rec = if !self.recorded {
                        Some(
                            HexRecord {
                                difficulty: self.difficulty,
                                moves: self.game.moves,
                                elapsed: self.elapsed,
                                solved: true,
                            },
                        )
                    } else {
                        None
                    };
                    self.recorded = true;
                    (Some(Move::Removed), rec)
                } else {
                    proof {
                        lemma_tile_can_step(self.game.cells@, self.game.radius as int, hex);
                    }
                    if self.game.is_stuck() {
                        self.notice = Notice::Stuck;
                        self.notice_is_good = false;
                    } else {
                        self.notice = Notice::Clear;
                    }
                    (Some(Move::Removed), None)
                }
            },
            Move::Blocked => {
                self.notice = Notice::Blocked;
                self.notice_is_good = false;
                (Some(Move::Blocked), None)
            },
            Move::Empty => {
                self.notice = Notice::Clear;
                self.last_clicked = None;
                (Some(Move::Empty), None)
            },
        }
    }

    /// The clock's second, while the puzzle is not solved. Returns whether
    /// it moved.
    pub fn timer_tick(&mut self) -> (moved: bool)
        requires
            !all_empty(old(self).game.cells@) ==> old(self).elapsed < u32::MAX,
        ensures
            moved == !all_empty(old(self).game.cells@),
            moved ==> *final(self) == (HexSession { elapsed: (old(self).elapsed + 1) as u32, ..*old(self) }),
            !moved ==> *final(self) == *old(self),
    {
        if !self.game.is_won() {
            self.elapsed = self.elapsed + 1;
            true
        } else {
            false
        }
    }

    /// Shows or hides the statistics.
    pub fn toggle_stats(&mut self)
        ensures
            *final(self) == (HexSession { show_stats: !old(self).show_stats, ..*old(self) }),
    {
        self.show_stats = !self.show_stats;
    }

    /// Shows or hides the history.
    pub fn toggle_history(&mut self)
        ensures
            *final(self) == (HexSession { show_history: !old(self).show_history, ..*old(self) }),
    {
        self.show_history = !self.show_history;
    }
}

} // verus!
