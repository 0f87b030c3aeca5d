use vstd::prelude::*;
use vstd::string::StringExecFns;
use crate::merge_game::board::{
    Board, Cell, Direction, Rng, empty_cells, empties_upto, is_highest, movable, slide_fits, slide_merges, slide_score,
    slid_cells,
};
use crate::text::{decimal, push_decimal, str_eq};
use crate::xorshift::xorshift;

verus! {

/// The empty cells listed among the first `n` are below `n`.
proof fn lemma_empties_below(cells: Seq<Cell>, n: int)
    ensures
        forall|j: int| 0 <= j < empties_upto(cells, n).len() ==> (#[trigger] empties_upto(cells, n)[j]) < n,
    decreases n,
{
    if n > 0 {
        lemma_empties_below(cells, n - 1);
        let p = empties_upto(cells, n - 1);
        if cells[n - 1] is Empty {
            assert forall|j: int| 0 <= j < p.len() + 1 implies (#[trigger] p.push((n - 1) as usize)[j]) < n by {
                if j < p.len() {
                    assert(p.push((n - 1) as usize)[j] == p[j]);
                }
            }
        }
    }
}

/// Value of a new tile from the generator state after the draw: 4 one time
/// in ten (when the state is a multiple of 10), else 2.
pub open spec fn new_tile_value(state: u64) -> u32 {
    if state % 10 == 0 {
        4
    } else {
        2
    }
}

/// Puts a new tile on a random empty cell: the cell is drawn first, then
/// the value, 2 or (one time in ten) 4. Nothing happens on a full board.
pub fn spawn_tile(board: &mut Board, rng: &mut Rng)
    ensures
        empty_cells(old(board).cells@).len() == 0 ==> *final(board) == *old(board) && final(rng).state == old(rng).state,
        empty_cells(old(board).cells@).len() > 0 ==> ({
            let e = empty_cells(old(board).cells@);
            let s1 = xorshift(old(rng).state);
            let k = (s1 % (e.len() as u64)) as int;
            let s2 = xorshift(s1);
            let v = new_tile_value(s2);
            &&& final(rng).state == s2
            &&& final(board).cells@ == old(board).cells@.update(e[k] as int, Cell::Value(v))
            &&& final(board).highest == if v > old(board).highest {
                v
            } else {
                old(board).highest
            }
            &&& final(board).score == old(board).score
            &&& final(board).merges == old(board).merges
        }),
{
    let empty = board.empty_indices();
    if empty.len() == 0 {
        return;
    }
    proof {
        lemma_empties_below(board.cells@, 16);
    }
    let k = rng.range(empty.len());
    let idx = empty[k];
    let val = if rng.range(10) == 0 {
        4
    } else {
        2
    };
    board.place(idx, val);
}

/// Colour tier of a tile: 1 for 2, 2 for 4, ... 11 for 2048, 12 otherwise.
pub open spec fn tier_of(v: u32) -> u32 {
    if v == 2 {
        1
    } else if v == 4 {
        2
    } else if v == 8 {
        3
    } else if v == 16 {
        4
    } else if v == 32 {
        5
    } else if v == 64 {
        6
    } else if v == 128 {
        7
    } else if v == 256 {
        8
    } else if v == 512 {
        9
    } else if v == 1024 {
        10
    } else if v == 2048 {
        11
    } else {
        12
    }
}

/// The colour tier of a tile value.
pub fn tile_tier(v: u32) -> (t: u32)
    ensures
        t == tier_of(v),
{
    match v {
        2 => 1,
        4 => 2,
        8 => 3,
        16 => 4,
        32 => 5,
        64 => 6,
        128 => 7,
        256 => 8,
        512 => 9,
        1024 => 10,
        2048 => 11,
        _ => 12,
    }
}

/// `b2` and generator state `s2` are what `spawn_tile` leaves from `b` and
/// state `st`.
pub open spec fn spawned(b: Board, st: u64, b2: Board, s2: u64) -> bool {
    let e = empty_cells(b.cells@);
    if e.len() == 0 {
        b2 == b && s2 == st
    } else {
        let s1 = xorshift(st);
        let k = (s1 % (e.len() as u64)) as int;
        let v = new_tile_value(xorshift(s1));
        &&& s2 == xorshift(s1)
        &&& b2.cells@ == b.cells@.update(e[k] as int, Cell::Value(v))
        &&& b2.highest == if v > b.highest {
            v
        } else {
            b.highest
        }
        &&& b2.score == b.score
        &&& b2.merges == b.merges
    }
}

/// `b2` is `b` after a slide in direction `d`.
pub open spec fn slid(b: Board, d: Direction, b2: Board) -> bool {
    &&& b2.cells@ == slid_cells(b.cells@, d)
    &&& b2.score == b.score + slide_score(b.cells@, d)
    &&& b2.merges == b.merges + slide_merges(b.cells@, d)
    &&& is_highest(b2.highest, b.highest, b2.cells@)
}

/// What the status line of a 2048 game says.
#[derive(Clone, Copy, Debug, PartialEq, Eq, Structural)]
pub enum SlideNotice {
    Clear,
    NothingToUndo,
    Reached2048,
    GameOver { score: u64, highest: u32 },
    /// A saved game that was already over.
    OverOnResume,
}

/// Text of a status line.
pub open spec fn slide_notice_chars(n: SlideNotice) -> Seq<char> {
    match n {
        SlideNotice::Clear => Seq::empty(),
        SlideNotice::NothingToUndo => "Nothing to undo."@,
        SlideNotice::Reached2048 => "You reached 2048! Press any arrow key to keep playing."@,
        SlideNotice::GameOver { score, highest } => "Game Over! Score: "@ + decimal(score as nat) + " | Highest: "@
            + decimal(highest as nat),
        SlideNotice::OverOnResume => "Game Over! Start a new game."@,
    }
}

/// Renders a status line.
pub fn slide_notice_text(n: SlideNotice) -> (t: String)
    ensures
        t@ == slide_notice_chars(n),
{
    match n {
        SlideNotice::Clear => String::new(),
        SlideNotice::NothingToUndo => String::from_str("Nothing to undo."),
        SlideNotice::Reached2048 => String::from_str("You reached 2048! Press any arrow key to keep playing."),
        SlideNotice::GameOver { score, highest } => {
            let mut s = String::from_str("Game Over! Score: ");
            push_decimal(&mut s, score);
            s.append(" | Highest: ");
            push_decimal(&mut s, highest as u64);
            s
        },
        SlideNotice::OverOnResume => String::from_str("Game Over! Start a new game."),
    }
}

/// The direction a key-event string asks for: the arrow keys, or W, A, S
/// and D in either case.
pub open spec fn direction_of(key: Seq<char>) -> Option<Direction> {
    if key == "ArrowUp"@ || key == "w"@ || key == "W"@ {
        Some(Direction::Up)
    } else if key == "ArrowDown"@ || key == "s"@ || key == "S"@ {
        Some(Direction::Down)
    } else if key == "ArrowLeft"@ || key == "a"@ || key == "A"@ {
        Some(Direction::Left)
    } else if key == "ArrowRight"@ || key == "d"@ || key == "D"@ {
        Some(Direction::Right)
    } else {
        None
    }
}

/// Reads the direction of a key press.
pub fn direction_of_key(key: &str) -> (d: Option<Direction>)
    ensures
        d == direction_of(key@),
{
    if str_eq(key, "ArrowUp") || str_eq(key, "w") || str_eq(key, "W") {
        Some(Direction::Up)
    } else if str_eq(key, "ArrowDown") || str_eq(key, "s") || str_eq(key, "S") {
        Some(Direction::Down)
    } else if str_eq(key, "ArrowLeft") || str_eq(key, "a") || str_eq(key, "A") {
        Some(Direction::Left)
    } else if str_eq(key, "ArrowRight") || str_eq(key, "d") || str_eq(key, "D") {
        Some(Direction::Right)
    } else {
        None
    }
}

/// A game played, for the app to store.
#[derive(Clone, Copy, Debug, PartialEq, Eq, Structural)]
pub struct SlideRecord {
    pub score: u64,
    pub highest: u32,
    pub merges: u32,
    pub elapsed: u32,
}

/// The record of board `b` after `elapsed` seconds.
pub open spec fn record_of(b: Board, elapsed: u32) -> SlideRecord {
    SlideRecord { score: b.score, highest: b.highest, merges: b.merges, elapsed }
}

/// A 2048 game in play: the board, the boards before each move (with the
/// clock then) for undo, the generator, and the state of the controls.
pub struct SlideSession {
    pub board: Board,
    pub prev_boards: Vec<(Board, u32)>,
    pub rng: Rng,
    pub elapsed: u32,
    /// The clock runs while this is set.
    pub active: bool,
    pub game_over: bool,
    pub won: bool,
    pub keep_playing: bool,
    pub notice: SlideNotice,
    pub notice_is_good: bool,
    pub show_stats: bool,
    pub show_history: bool,
}

/// A session as values.
pub struct SlideView {
    pub board: Board,
    pub past: Seq<(Board, u32)>,
    pub rng: u64,
    pub elapsed: u32,
    pub active: bool,
    pub game_over: bool,
    pub won: bool,
    pub keep_playing: bool,
    pub notice: SlideNotice,
    pub notice_is_good: bool,
    pub show_stats: bool,
    pub show_history: bool,
}

impl View for SlideSession {
    type V = SlideView;

    open spec fn view(&self) -> SlideView {
        SlideView {
            board: self.board,
            past: self.prev_boards@,
            rng: self.rng.state,
            elapsed: self.elapsed,
            active: self.active,
            game_over: self.game_over,
            won: self.won,
            keep_playing: self.keep_playing,
            notice: self.notice,
            notice_is_good: self.notice_is_good,
            show_stats: self.show_stats,
            show_history: self.show_history,
        }
    }
}

/// What a fresh game leaves: two tiles spawned on an empty board by a
/// generator seeded from the system's random source, nothing to undo, the
/// clock at zero and running.
pub open spec fn fresh_game(v: SlideView) -> bool {
    &&& exists|b0: Board, seed: u64, b1: Board, s1: u64|
        blank_board(b0) && seed != 0 && #[trigger] spawned(b0, seed, b1, s1) && spawned(b1, s1, v.board, v.rng)
    &&& v.past.len() == 0
    &&& v.elapsed == 0
    &&& v.active
    &&& !v.game_over
    &&& !v.won
    &&& !v.keep_playing
    &&& v.notice == SlideNotice::Clear
    &&& !v.notice_is_good
}

/// A board as `Board::new` makes it: 16 empty cells, no score.
pub open spec fn blank_board(b: Board) -> bool {
    &&& forall|i: int| 0 <= i < 16 ==> #[trigger] b.cells@[i] == Cell::Empty
    &&& b.score == 0
    &&& b.highest == 0
    &&& b.merges == 0
}

/// `t` is `s` after the win check: the first time a 2048 tile shows (and
/// the player has not chosen to play on) the game is won.
pub open spec fn after_win_check(s: SlideView, t: SlideView) -> bool {
    if !s.won && !s.keep_playing && s.board.highest >= 2048 {
        t == SlideView { won: true, notice: SlideNotice::Reached2048, notice_is_good: true, ..s }
    } else {
        t == s
    }
}

/// `t` is `s` after the game-over check, with the record of a game that
/// ended.
pub open spec fn after_over_check(s: SlideView, t: SlideView, rec: Option<SlideRecord>) -> bool {
    if !movable(s.board.cells@) {
        &&& t == SlideView {
            game_over: true,
            active: false,
            notice: SlideNotice::GameOver { score: s.board.score, highest: s.board.highest },
            notice_is_good: false,
            ..s
        }
        &&& rec == Some(record_of(s.board, s.elapsed))
    } else {
        t == s && rec is None
    }
}

/// `t` and `res` are what a move in direction `d` makes of `s`. Once
/// over, nothing happens. A won game not yet played on is played on from
/// now. The board slides; when that changes it, the state before is kept
/// for undo, a tile spawns, and the game is checked for 2048 and for no
/// move left; `res` says whether the board changed, and holds the record
/// of a game that ended.
pub open spec fn move_result(s: SlideView, dir: Direction, t: SlideView, res: (bool, Option<SlideRecord>)) -> bool {
    if s.game_over {
        t == s && !res.0 && res.1 is None
    } else {
        let s1 = if s.won && !s.keep_playing {
            SlideView { keep_playing: true, notice: SlideNotice::Clear, ..s }
        } else {
            s
        };
        exists|b2: Board|
            #[trigger] slid(s.board, dir, b2) && if b2.cells@ == s.board.cells@ {
                t == (SlideView { board: b2, ..s1 }) && !res.0 && res.1 is None
            } else {
                res.0 && exists|b3: Board, st: u64|
                    #[trigger] spawned(b2, s.rng, b3, st) && exists|s3: SlideView|
                        after_win_check(
                            SlideView { board: b3, rng: st, past: s.past.push((s.board, s.elapsed)), ..s1 },
                            s3,
                        ) && #[trigger] after_over_check(s3, t, res.1)
            }
    }
}

/// The session after undo: the last move is taken back, with the clock as
/// it was then, and the game runs again; with nothing to undo, it says so.
pub open spec fn undone(v: SlideView) -> SlideView {
    if v.past.len() > 0 {
        SlideView {
            board: v.past.last().0,
            elapsed: v.past.last().1,
            past: v.past.drop_last(),
            game_over: false,
            notice: SlideNotice::Clear,
            notice_is_good: false,
            active: true,
            ..v
        }
    } else {
        SlideView { notice: SlideNotice::NothingToUndo, notice_is_good: false, ..v }
    }
}

/// Undo takes back a move: after a move that changed the board, undo
/// brings back the board and the clock from before the move, with the same
/// moves left to undo, and the game running.
pub proof fn lemma_undo_after_move(s: SlideView, dir: Direction, t: SlideView, rec: Option<SlideRecord>)
    requires
        move_result(s, dir, t, (true, rec)),
    ensures
        undone(t).board == s.board,
        undone(t).elapsed == s.elapsed,
        undone(t).past == s.past,
        !undone(t).game_over,
        undone(t).active,
{
    let s1 = if s.won && !s.keep_playing {
        SlideView { keep_playing: true, notice: SlideNotice::Clear, ..s }
    } else {
        s
    };
    let b2 = choose|b2: Board|
        #[trigger] slid(s.board, dir, b2) && if b2.cells@ == s.board.cells@ {
            t == (SlideView { board: b2, ..s1 }) && !(true) && rec is None
        } else {
            true && exists|b3: Board, st: u64|
                #[trigger] spawned(b2, s.rng, b3, st) && exists|s3: SlideView|
                    after_win_check(
                        SlideView { board: b3, rng: st, past: s.past.push((s.board, s.elapsed)), ..s1 },
                        s3,
                    ) && #[trigger] after_over_check(s3, t, rec)
        };
    let (b3, st) = choose|b3: Board, st: u64|
        #[trigger] spawned(b2, s.rng, b3, st) && exists|s3: SlideView|
            after_win_check(
                SlideView { board: b3, rng: st, past: s.past.push((s.board, s.elapsed)), ..s1 },
                s3,
            ) && #[trigger] after_over_check(s3, t, rec);
    let s2 = SlideView { board: b3, rng: st, past: s.past.push((s.board, s.elapsed)), ..s1 };
    let s3 = choose|s3: SlideView| after_win_check(s2, s3) && #[trigger] after_over_check(s3, t, rec);
    assert(t.past == s.past.push((s.board, s.elapsed)));
    assert(t.past.drop_last() =~= s.past);
}

impl SlideSession {
    /// A session on a fresh game.
    pub fn new() -> (s: Self)
        ensures
            fresh_game(s@),
            !s.show_stats,
            !s.show_history,
    {
        let mut s = SlideSession {
            board: Board::new(),
            prev_boards: Vec::new(),
            rng: Rng::from_entropy(),
            elapsed: 0,
            active: false,
            game_over: false,
            won: false,
            keep_playing: false,
            notice: SlideNotice::Clear,
            notice_is_good: false,
            show_stats: false,
            show_history: false,
        };
        s.start();
        s
    }

    /// A session on a saved game: the clock runs unless the board can no
    /// longer move (then the game is over), and a board that holds 2048
    /// counts as won and played on.
    pub fn resume(board: Board, elapsed: u32) -> (s: Self)
        ensures
            s@.board == board,
            s@.past.len() == 0,
            s@.rng != 0,
            s@.elapsed == elapsed,
            s@.game_over == !movable(board.cells@),
            s@.active == movable(board.cells@),
            s@.notice == if movable(board.cells@) {
                SlideNotice::Clear
            } else {
                SlideNotice::OverOnResume
            },
            !s@.notice_is_good,
            s@.won == (board.highest >= 2048),
            s@.keep_playing == (board.highest >= 2048),
            !s@.show_stats,
            !s@.show_history,
    {
        let mut s = SlideSession {
            board,
            prev_boards: Vec::new(),
            rng: Rng::from_entropy(),
            elapsed,
            active: true,
            game_over: false,
            won: false,
            keep_playing: false,
            notice: SlideNotice::Clear,
            notice_is_good: false,
            show_stats: false,
            show_history: false,
        };
        if s.board.is_game_over() {
            s.game_over = true;
            s.active = false;
            s.notice = SlideNotice::OverOnResume;
        }
        if s.board.highest >= 2048 {
            s.won = true;
            s.keep_playing = true;
        }
        s
    }

    /// Starts a fresh game: an empty board, a new generator, two tiles.
    pub fn start(&mut self)
        ensures
            fresh_game(final(self)@),
            final(self).show_stats == old(self).show_stats,
            final(self).show_history == old(self).show_history,
    {
        self.board = Board::new();
        self.rng = Rng::from_entropy();
        self.prev_boards = Vec::new();
        self.elapsed = 0;
        self.active = true;
        self.game_over = false;
        self.won = false;
        self.keep_playing = false;
        self.notice = SlideNotice::Clear;
        self.notice_is_good = false;
        let ghost b0 = self.board;
        let ghost seed = self.rng.state;
        spawn_tile(&mut self.board, &mut self.rng);
        let ghost b1 = self.board;
        let ghost s1 = self.rng.state;
        spawn_tile(&mut self.board, &mut self.rng);
        assert(blank_board(b0));
        assert(spawned(b0, seed, b1, s1));
    }

    /// New game: a game in progress and not over is reported, then a fresh
    /// one starts.
    pub fn new_game(&mut self) -> (rec: Option<SlideRecord>)
        ensures
            fresh_game(final(self)@),
            final(self).show_stats == old(self).show_stats,
            final(self).show_history == old(self).show_history,
            rec == if old(self).active && !old(self).game_over {
                Some(record_of(old(self).board, old(self).elapsed))
            } else {
                None
            },
    {
        let rec = if self.active && !self.game_over {
            Some(
                SlideRecord {
                    score: self.board.score,
                    highest: self.board.highest,
                    merges: self.board.merges,
                    elapsed: self.elapsed,
                },
            )
        } else {
            None
        };
        self.start();
        rec
    }

    /// A move in direction `dir`. Once over, nothing happens. A won game
    /// that was not yet played on is played on from now. The board slides;
    /// when that changes it, the state before is kept for undo, a tile
    /// spawns, and the game is checked for 2048 and for no move left.
    /// Returns whether the board changed, and the record of a game that
    /// ended.
    pub fn do_move(&mut self, dir: Direction) -> (res: (bool, Option<SlideRecord>))
        requires
            slide_fits(old(self).board, dir),
        ensures
            move_result(old(self)@, dir, final(self)@, res),
    {
        if self.game_over {
            return (false, None);
        }
        if self.won && !self.keep_playing {
            self.keep_playing = true;
            self.notice = SlideNotice::Clear;
        }
        let ghost s1 = self@;
        self.prev_boards.push((self.board, self.elapsed));
        let changed = self.board.slide(dir);
        let ghost b2 = self.board;
        if changed {
            spawn_tile(&mut self.board, &mut self.rng);
            let ghost s2 = self@;
            if !self.won && !self.keep_playing && self.board.highest >= 2048 {
                self.won = true;
                self.notice = SlideNotice::Reached2048;
                self.notice_is_good = true;
            }
            let ghost s3 = self@;
            let mut rec = None;
            if self.board.is_game_over() {
                self.game_over = true;
                self.active = false;
                self.notice = SlideNotice::GameOver { score: self.board.score, highest: self.board.highest };
                self.notice_is_good = false;
                rec = Some(
                    SlideRecord {
                        score: self.board.score,
                        highest: self.board.highest,
                        merges: self.board.merges,
                        elapsed: self.elapsed,
                    },
                );
            }
            proof {
                assert(slid(old(self).board, dir, b2));
                assert(spawned(b2, old(self).rng.state, s2.board, s2.rng));
                assert(after_win_check(s2, s3));
                assert(after_over_check(s3, self@, rec));
                assert(move_result(old(self)@, dir, self@, (true, rec)));
            }
            (true, rec)
        } else {
            self.prev_boards.pop();
            proof {
                assert(self.prev_boards@ =~= old(self).prev_boards@);
                assert(slid(old(self).board, dir, b2));
                assert(self@ == SlideView { board: b2, ..s1 });
                assert(move_result(old(self)@, dir, self@, (false, None)));
            }
            (false, None)
        }
    }

    /// Takes back the last move, with the clock as it was then; the game is
    /// running again. Reports when there is nothing to undo. Returns whether
    /// a move was taken back.
    pub fn undo(&mut self) -> (done: bool)
        ensures
            done == (old(self)@.past.len() > 0),
            final(self)@ == undone(old(self)@),
    {
        match self.prev_boards.pop() {
            Some((board, elapsed)) => {
                self.board = board;
                self.elapsed = elapsed;
                self.game_over = false;
                self.notice = SlideNotice::Clear;
                self.notice_is_good = false;
                self.active = true;
                true
            },
            None => {
                self.notice = SlideNotice::NothingToUndo;
                self.notice_is_good = false;
                false
            },
        }
    }

    /// One second of play: the clock moves while it runs. Returns whether it
    /// moved.
    pub fn tick(&mut self) -> (moved: bool)
        requires
            old(self).active ==> old(self).elapsed < u32::MAX,
        ensures
            moved == old(self).active,
            moved ==> final(self)@ == (SlideView { elapsed: (old(self).elapsed + 1) as u32, ..old(self)@ }),
            !moved ==> final(self)@ == old(self)@,
    {
        if self.active {
            self.elapsed = self.elapsed + 1;
            true
        } else {
            false
        }
    }

    /// Shows or hides the statistics.
    pub fn toggle_stats(&mut self)
        ensures
            final(self)@ == (SlideView { show_stats: !old(self).show_stats, ..old(self)@ }),
    {
        self.show_stats = !self.show_stats;
    }

    /// Shows or hides the history.
    pub fn toggle_history(&mut self)
        ensures
            final(self)@ == (SlideView { show_history: !old(self).show_history, ..old(self)@ }),
    {
        self.show_history = !self.show_history;
    }
}

} // verus!
