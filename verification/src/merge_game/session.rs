use vstd::prelude::*;
use vstd::string::StringExecFns;
use crate::merge_game::game::{Cell, GameState, MAX_TILES, Rng, empties_upto, mergeable, tiles_upto};
use crate::text::{decimal, push_decimal};
use crate::xorshift::xorshift;

verus! {

/// What the status line of a merge game says.
#[derive(Clone, Copy, Debug, PartialEq, Eq, Structural)]
pub enum Notice {
    Clear,
    /// A merge made a tile of this value.
    Merged(u32),
    Mismatch,
}

/// Text of a status line.
pub open spec fn notice_chars(n: Notice) -> Seq<char> {
    match n {
        Notice::Clear => Seq::empty(),
        Notice::Merged(v) => "Merged into "@ + decimal(v as nat) + "!"@,
        Notice::Mismatch => "Values don't match!"@,
    }
}

/// Renders a status line.
pub fn notice_text(n: Notice) -> (t: String)
    ensures
        t@ == notice_chars(n),
{
    match n {
        Notice::Clear => String::new(),
        Notice::Merged(v) => {
            let mut s = String::from_str("Merged into ");
            push_decimal(&mut s, v as u64);
            s.append("!");
            s
        },
        Notice::Mismatch => String::from_str("Values don't match!"),
    }
}

/// A game played, for the app to store.
#[derive(Clone, Copy, Debug, PartialEq, Eq, Structural)]
pub struct GameRecord {
    pub score: u64,
    pub highest: u32,
    pub merges: u32,
    pub elapsed: u32,
}

/// One spawn: a tile of value 1 on the empty cell that the next generator
/// state picks, when some cell is empty.
pub open spec fn spawn_step(cells: Seq<Cell>, st: u64) -> (Seq<Cell>, u64) {
    let e = empties_upto(cells, cells.len() as int);
    if e.len() == 0 {
        (cells, st)
    } else {
        let s1 = xorshift(st);
        (cells.update(e[(s1 % (e.len() as u64)) as int] as int, Cell::Value(1)), s1)
    }
}

/// `n` spawns in a row from generator state `st`.
pub open spec fn spawns(cells: Seq<Cell>, st: u64, n: nat) -> (Seq<Cell>, u64)
    decreases n,
{
    if n == 0 {
        (cells, st)
    } else {
        let (c, s) = spawns(cells, st, (n - 1) as nat);
        spawn_step(c, s)
    }
}

/// 64 empty cells.
pub open spec fn empty_board() -> Seq<Cell> {
    Seq::new(64, |i: int| Cell::Empty)
}

/// A merge game in play with the state of the controls around it.
pub struct MergeSession {
    pub game: GameState,
    pub rng: Rng,
    pub selected: Option<usize>,
    pub elapsed: u32,
    pub notice: Notice,
    pub notice_is_good: bool,
    pub show_stats: bool,
    pub show_history: bool,
}

/// What a fresh game leaves in a session: five tiles spawned on an empty
/// board by a generator seeded from the system's random source.
pub open spec fn fresh_game(s: MergeSession) -> bool {
    &&& exists|seed: u64| seed != 0 && #[trigger] spawns(empty_board(), seed, 5) == (s.game.cells@, s.rng.state)
    &&& s.game.score == 0
    &&& s.game.merges == 0
    &&& s.game.highest == 0
    &&& s.selected is None
    &&& s.elapsed == 0
    &&& s.notice == Notice::Clear
    &&& !s.notice_is_good
}

impl MergeSession {
    /// The session's invariant: 64 cells, and the selection is one of them.
    pub open spec fn wf(&self) -> bool {
        &&& self.game.cells@.len() == 64
        &&& self.selected matches Some(i) ==> i < 64
    }

    /// A session on a fresh game.
    pub fn new() -> (s: Self)
        ensures
            s.wf(),
            fresh_game(s),
            !s.show_stats,
            !s.show_history,
    {
        let mut s = MergeSession {
            game: GameState::new(),
            rng: Rng::from_entropy(),
            selected: None,
            elapsed: 0,
            notice: Notice::Clear,
            notice_is_good: false,
            show_stats: false,
            show_history: false,
        };
        s.start();
        s
    }

    /// A session on a saved game, with a generator seeded from the system's
    /// random source.
    pub fn resume(game: GameState, elapsed: u32) -> (s: Self)
        requires
            game.cells@.len() == 64,
        ensures
            s.wf(),
            s.game == game,
            s.rng.state != 0,
            s.selected is None,
            s.elapsed == elapsed,
            s.notice == Notice::Clear,
            !s.notice_is_good,
            !s.show_stats,
            !s.show_history,
    {
        MergeSession {
            game,
            rng: Rng::from_entropy(),
            selected: None,
            elapsed,
            notice: Notice::Clear,
            notice_is_good: false,
            show_stats: false,
            show_history: false,
        }
    }

    /// Starts a fresh game: an empty board, a new generator, five tiles.
    pub fn start(&mut self)
        ensures
            final(self).wf(),
            fresh_game(*final(self)),
            final(self).show_stats == old(self).show_stats,
            final(self).show_history == old(self).show_history,
    {
        self.game = GameState::new();
        self.rng = Rng::from_entropy();
        self.selected = None;
        self.elapsed = 0;
        self.notice = Notice::Clear;
        self.notice_is_good = false;
        let ghost seed = self.rng.state;
        assert(self.game.cells@ =~= empty_board());
        let mut k: usize = 0;
        while k < 5
            invariant
                k <= 5,
                seed != 0,
                self.game.cells@.len() == 64,
                spawns(empty_board(), seed, k as nat) == (self.game.cells@, self.rng.state),
                self.game.score == 0,
                self.game.merges == 0,
                self.game.highest == 0,
                self.selected is None,
                self.elapsed == 0,
                self.notice == Notice::Clear,
                !self.notice_is_good,
                self.show_stats == old(self).show_stats,
                self.show_history == old(self).show_history,
            decreases 5 - k,
        {
            self.game.spawn_tile(&mut self.rng);
            k += 1;
        }
    }

    /// New game: the game played so far is reported, then a fresh one
    /// starts.
    pub fn new_game(&mut self) -> (rec: GameRecord)
        ensures
            final(self).wf(),
            fresh_game(*final(self)),
            rec == (GameRecord {
                score: old(self).game.score,
                highest: old(self).game.highest,
                merges: old(self).game.merges,
                elapsed: old(self).elapsed,
            }),
            final(self).show_stats == old(self).show_stats,
            final(self).show_history == old(self).show_history,
    {
        let rec = GameRecord {
            score: self.game.score,
            highest: self.game.highest,
            merges: self.game.merges,
            elapsed: self.elapsed,
        };
        self.start();
        rec
    }

    /// A click on cell `idx`: an empty cell drops the selection; a tile
    /// is selected when nothing is, deselected when it is the selected
    /// one, merged into when it holds the selected tile's value, and
    /// selected instead otherwise. Returns whether a merge was made (the
    /// app then saves the game).
    pub fn click(&mut self, idx: usize) -> (merged: bool)
        requires
            old(self).wf(),
            idx < 64,
            match old(self).selected {
                Some(p) => mergeable(old(self).game.cells@, p as int, idx as int) ==> {
                    let v = old(self).game.cells@[p as int]->Value_0;
                    &&& 2 * v <= u32::MAX
                    &&& old(self).game.score + 2 * v <= u64::MAX
                    &&& old(self).game.merges < u32::MAX
                },
                None => true,
            },
        ensures
            final(self).wf(),
            ({
                let s = *old(self);
                let cells = s.game.cells@;
                if cells[idx as int] is Empty {
                    *final(self) == (MergeSession { selected: None, notice: Notice::Clear, ..s }) && !merged
                } else {
                    match s.selected {
                        None => *final(self) == (MergeSession { selected: Some(idx), notice: Notice::Clear, ..s })
                            && !merged,
                        Some(p) => if p == idx {
                            *final(self) == (MergeSession { selected: None, notice: Notice::Clear, ..s }) && !merged
                        } else if mergeable(cells, p as int, idx as int) {
                            let v = (2 * cells[p as int]->Value_0) as u32;
                            &&& merged
                            &&& final(self).game.cells@ == cells.update(idx as int, Cell::Value(v)).update(
                                p as int,
                                Cell::Empty,
                            )
                            &&& final(self).game.score == s.game.score + v
                            &&& final(self).game.merges == s.game.merges + 1
                            &&& final(self).game.highest == if v > s.game.highest {
                                v
                            } else {
                                s.game.highest
                            }
                            &&& final(self).selected is None
                            &&& final(self).notice == Notice::Merged(v)
                            &&& final(self).notice_is_good
                            &&& final(self).rng == s.rng
                            &&& final(self).elapsed == s.elapsed
                            &&& final(self).show_stats == s.show_stats
                            &&& final(self).show_history == s.show_history
                        } else {
                            *final(self) == (MergeSession {
                                selected: Some(idx),
                                notice: Notice::Mismatch,
                                notice_is_good: false,
                                ..s
                            }) && !merged
                        },
                    }
                }
            }),
    {
        match self.game.cells[idx] {
            Cell::Empty => {
                self.selected = None;
                self.notice = Notice::Clear;
                false
            },
            Cell::Value(_) => match self.selected {
                None => {
                    self.selected = Some(idx);
                    self.notice = Notice::Clear;
                    false
                },
                Some(p) => {
                    if p == idx {
                        self.selected = None;
                        self.notice = Notice::Clear;
                        false
                    } else if self.game.can_merge(p, idx) {
                        match self.game.merge(p, idx) {
                            Some(v) => {
                                self.selected = None;
                                self.notice = Notice::Merged(v);
                                self.notice_is_good = true;
                                true
                            },
                            None => false,
                        }
                    } else {
                        self.selected = Some(idx);
                        self.notice = Notice::Mismatch;
                        self.notice_is_good = false;
                        false
                    }
                },
            },
        }
    }

    /// How cell `idx` is marked: whether it is the selected tile, and
    /// whether it is a tile the selected one can merge into.
    pub fn tile_marks(&self, idx: usize) -> (m: (bool, bool))
        requires
            self.wf(),
            idx < 64,
        ensures
            m.0 == (self.selected == Some(idx)),
            m.1 == match self.selected {
                Some(p) => p != idx && mergeable(self.game.cells@, p as int, idx as int),
                None => false,
            },
    {
        let selected = self.selected == Some(idx);
        let target = match self.selected {
            Some(p) => p != idx && self.game.can_merge(p, idx),
            None => false,
        };
        (selected, target)
    }

    /// The spawn timer: a tile of value 1 appears while the board has room.
    /// Returns whether one did (the app then saves the game).
    pub fn spawn_tick(&mut self) -> (spawned: bool)
        requires
            old(self).wf(),
        ensures
            final(self).wf(),
            spawned == (tiles_upto(old(self).game.cells@, 64) < 64),
            spawned ==> (final(self).game.cells@, final(self).rng.state) == spawn_step(
                old(self).game.cells@,
                old(self).rng.state,
            ),
            !spawned ==> *final(self) == *old(self),
            final(self).game.score == old(self).game.score,
            final(self).game.merges == old(self).game.merges,
            final(self).game.highest == old(self).game.highest,
            final(self).selected == old(self).selected,
            final(self).elapsed == old(self).elapsed,
            final(self).notice == old(self).notice,
            final(self).notice_is_good == old(self).notice_is_good,
            final(self).show_stats == old(self).show_stats,
            final(self).show_history == old(self).show_history,
    {
        if self.game.tile_count() < MAX_TILES {
            proof {
                lemma_room_means_empty(self.game.cells@, 64);
            }
            self.game.spawn_tile(&mut self.rng);
            true
        } else {
            false
        }
    }

    /// The clock's second.
    pub fn timer_tick(&mut self)
        requires
            old(self).elapsed < u32::MAX,
        ensures
            *final(self) == (MergeSession { elapsed: (old(self).elapsed + 1) as u32, ..*old(self) }),
    {
        self.elapsed = self.elapsed + 1;
    }

    /// Shows or hides the statistics.
    pub fn toggle_stats(&mut self)
        ensures
            *final(self) == (MergeSession { show_stats: !old(self).show_stats, ..*old(self) }),
    {
        self.show_stats = !self.show_stats;
    }

    /// Shows or hides the history.
    pub fn toggle_history(&mut self)
        ensures
            *final(self) == (MergeSession { show_history: !old(self).show_history, ..*old(self) }),
    {
        self.show_history = !self.show_history;
    }
}

/// Fewer tiles than cells means an empty cell.
proof fn lemma_room_means_empty(cells: Seq<Cell>, n: int)
    requires
        0 <= n <= cells.len(),
        tiles_upto(cells, n) < n,
    ensures
        empties_upto(cells, n).len() > 0,
    decreases n,
{
    if n > 0 && cells[n - 1] is Value {
        lemma_room_means_empty(cells, n - 1);
    }
}

} // verus!
