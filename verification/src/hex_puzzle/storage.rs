use vstd::prelude::*;
use crate::records::{keep_recent, recent, lemma_recent_push};
use crate::hex_puzzle::game::GameState;
use crate::text::{format_clock, clock_text};

verus! {

/// Totals over all puzzles played.
#[derive(Clone, Copy, Debug)]
pub struct GameStats {
    pub puzzles_solved: u32,
    pub puzzles_attempted: u32,
    pub total_moves: u32,
    pub total_time: u32,
    pub best_time: Option<u32>,
}

impl Default for GameStats {
    fn default() -> (s: Self)
        ensures
            s.puzzles_solved == 0,
            s.puzzles_attempted == 0,
            s.total_moves == 0,
            s.total_time == 0,
            s.best_time is None,
    {
        GameStats { puzzles_solved: 0, puzzles_attempted: 0, total_moves: 0, total_time: 0, best_time: None }
    }
}

/// One puzzle played.
#[derive(Clone, Debug)]
pub struct HistoryEntry {
    pub date: String,
    pub difficulty: String,
    pub moves: u32,
    pub time_secs: u32,
    pub solved: bool,
}

/// A game saved to be resumed.
#[derive(Clone, Debug)]
pub struct SavedGame {
    pub game: GameState,
    pub elapsed: u32,
    pub difficulty: String,
}

/// The totals after one more puzzle: one more attempt, its moves and time
/// added, and when solved one more solved and the best time kept.
pub open spec fn recorded(s: GameStats, moves: u32, time_secs: u32, solved: bool) -> GameStats {
    GameStats {
        puzzles_attempted: (s.puzzles_attempted + 1) as u32,
        total_moves: (s.total_moves + moves) as u32,
        total_time: (s.total_time + time_secs) as u32,
        puzzles_solved: if solved {
            (s.puzzles_solved + 1) as u32
        } else {
            s.puzzles_solved
        },
        best_time: if solved {
            Some(
                match s.best_time {
                    Some(b) => if b < time_secs {
                        b
                    } else {
                        time_secs
                    },
                    None => time_secs,
                },
            )
        } else {
            s.best_time
        },
    }
}

/// Records a finished or abandoned puzzle: updates the totals and adds an
/// entry dated `date` to the history.
pub fn record_game(
    stats: &mut GameStats,
    history: &mut Vec<HistoryEntry>,
    difficulty: &str,
    moves: u32,
    time_secs: u32,
    solved: bool,
    date: String,
)
    requires
        old(stats).puzzles_attempted < u32::MAX,
        old(stats).total_moves + moves <= u32::MAX,
        old(stats).total_time + time_secs <= u32::MAX,
        solved ==> old(stats).puzzles_solved < u32::MAX,
    ensures
        *final(stats) == recorded(*old(stats), moves, time_secs, solved),
        final(history)@.len() > 0,
        final(history)@ == recent(old(history)@.push(final(history)@.last())),
        final(history)@.last().date@ == date@,
        final(history)@.last().difficulty@ == difficulty@,
        final(history)@.last().moves == moves,
        final(history)@.last().time_secs == time_secs,
        final(history)@.last().solved == solved,
{
    stats.puzzles_attempted += 1;
    stats.total_moves += moves;
    stats.total_time += time_secs;
    if solved {
        stats.puzzles_solved += 1;
        stats.best_time = Some(
            match stats.best_time {
                Some(b) => if b < time_secs {
                    b
                } else {
                    time_secs
                },
                None => time_secs,
            },
        );
    }
    history.push(HistoryEntry { date, difficulty: difficulty.to_string(), moves, time_secs, solved });
    let ghost pushed = history@;
    proof {
        assert(pushed =~= old(history)@.push(pushed.last()));
        lemma_recent_push(old(history)@, pushed.last());
    }
    keep_recent(history);
}

/// "mm:ss" text of a duration in seconds.
pub fn format_time(secs: u32) -> (t: String)
    ensures
        t@ == clock_text(secs as nat),
{
    format_clock(secs)
}

} // verus!
