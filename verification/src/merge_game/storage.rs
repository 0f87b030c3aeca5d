use vstd::prelude::*;
use crate::records::{keep_recent, recent, lemma_recent_push};
use crate::merge_game::board::Board;
use crate::text::{format_clock, clock_text};

verus! {

/// Totals over all games played.
#[derive(Clone, Copy, Debug)]
pub struct GameStats {
    pub games_played: u32,
    pub best_score: u64,
    pub highest_tile: u32,
    pub total_merges: u32,
    pub total_time: u32,
}

impl Default for GameStats {
    fn default() -> (s: Self)
        ensures
            s.games_played == 0,
            s.best_score == 0,
            s.highest_tile == 0,
            s.total_merges == 0,
            s.total_time == 0,
    {
        GameStats { games_played: 0, best_score: 0, highest_tile: 0, total_merges: 0, total_time: 0 }
    }
}

/// One game played.
#[derive(Clone, Debug)]
pub struct HistoryEntry {
    pub date: String,
    pub score: u64,
    pub highest_tile: u32,
    pub merges: u32,
    pub time_secs: u32,
}

/// A game saved to be resumed.
#[derive(Clone, Debug)]
pub struct SavedGame {
    pub board: Board,
    pub elapsed: u32,
}

/// The totals after one more game: one more played, merges and time
/// added, best score and highest tile kept.
pub open spec fn recorded(s: GameStats, score: u64, highest_tile: u32, merges: u32, time_secs: u32) -> GameStats {
    GameStats {
        games_played: (s.games_played + 1) as u32,
        total_merges: (s.total_merges + merges) as u32,
        total_time: (s.total_time + time_secs) as u32,
        best_score: if score > s.best_score {
            score
        } else {
            s.best_score
        },
        highest_tile: if highest_tile > s.highest_tile {
            highest_tile
        } else {
            s.highest_tile
        },
    }
}

/// Records a finished game: updates the totals and adds an entry dated
/// `date` to the history.
pub fn record_game(
    stats: &mut GameStats,
    history: &mut Vec<HistoryEntry>,
    score: u64,
    highest_tile: u32,
    merges: u32,
    time_secs: u32,
    date: String,
)
    requires
        old(stats).games_played < u32::MAX,
        old(stats).total_merges + merges <= u32::MAX,
        old(stats).total_time + time_secs <= u32::MAX,
    ensures
        *final(stats) == recorded(*old(stats), score, highest_tile, merges, time_secs),
        final(history)@.len() > 0,
        final(history)@ == recent(old(history)@.push(final(history)@.last())),
        final(history)@.last().date@ == date@,
        final(history)@.last().score == score,
        final(history)@.last().highest_tile == highest_tile,
        final(history)@.last().merges == merges,
        final(history)@.last().time_secs == time_secs,
{
    stats.games_played += 1;
    stats.total_merges += merges;
    stats.total_time += time_secs;
    if score > stats.best_score {
        stats.best_score = score;
    }
    if highest_tile > stats.highest_tile {
        stats.highest_tile = highest_tile;
    }
    history.push(HistoryEntry { date, score, highest_tile, merges, time_secs });
    let ghost pushed = history@;
    proof {
        assert(pushed =~= old(history)@.push(pushed.last()));
        lemma_recent_push(old(history)@, pushed.last());
    }
    keep_recent(history);
}

/// "mm:ss" text of a duration in seconds.
pub fn format_time(secs: u32) -> (t: String)
    ensures
        t@ == clock_text(secs as nat),
{
    format_clock(secs)
}

} // verus!
