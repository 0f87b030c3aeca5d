use vstd::prelude::*;
use crate::records::{keep_recent, recent, lemma_recent_push};
use vstd::string::StringExecFns;
use crate::text::{format_clock, clock_text};

verus! {

/// Totals over all games played.
#[derive(Clone, Copy, Debug)]
pub struct GameStats {
    pub played: u32,
    pub won: u32,
    pub best_score: Option<i32>,
    pub best_time: Option<u32>,
    pub total_time: u32,
}

impl Default for GameStats {
    fn default() -> (s: Self)
        ensures
            s.played == 0,
            s.won == 0,
            s.best_score is None,
            s.best_time is None,
            s.total_time == 0,
    {
        GameStats { played: 0, won: 0, best_score: None, best_time: None, total_time: 0 }
    }
}

/// One game played: "Won" or "Abandoned", with its numbers.
#[derive(Clone, Debug)]
pub struct HistoryEntry {
    pub date: String,
    pub result: String,
    pub score: i32,
    pub matches: u32,
    pub rows_added: u32,
    pub time_secs: u32,
}

/// The totals after a won game: one more played and won, time added,
/// best score and best (lowest) time kept.
pub open spec fn won_recorded(s: GameStats, score: i32, time_secs: u32) -> GameStats {
    GameStats {
        played: (s.played + 1) as u32,
        won: (s.won + 1) as u32,
        total_time: (s.total_time + time_secs) as u32,
        best_score: match s.best_score {
            Some(b) => if score > b {
                Some(score)
            } else {
                Some(b)
            },
            None => Some(score),
        },
        best_time: match s.best_time {
            Some(b) => if time_secs < b {
                Some(time_secs)
            } else {
                Some(b)
            },
            None => Some(time_secs),
        },
    }
}

/// The totals after an abandoned game: one more played, time added.
pub open spec fn abandon_recorded(s: GameStats, time_secs: u32) -> GameStats {
    GameStats { played: (s.played + 1) as u32, total_time: (s.total_time + time_secs) as u32, ..s }
}

/// The history with one more entry.
pub open spec fn entry_added(
    before: Seq<HistoryEntry>,
    after: Seq<HistoryEntry>,
    date: Seq<char>,
    result: Seq<char>,
    score: i32,
    matches: u32,
    rows_added: u32,
    time_secs: u32,
) -> bool {
    &&& after.len() > 0
    &&& after == recent(before.push(after.last()))
    &&& after.last().date@ == date
    &&& after.last().result@ == result
    &&& after.last().score == score
    &&& after.last().matches == matches
    &&& after.last().rows_added == rows_added
    &&& after.last().time_secs == time_secs
}

/// Records a won game: updates the totals and adds a "Won" entry dated
/// `date` to the history.
pub fn record_win(
    stats: &mut GameStats,
    history: &mut Vec<HistoryEntry>,
    score: i32,
    matches: u32,
    rows_added: u32,
    time_secs: u32,
    date: String,
)
    requires
        old(stats).played < u32::MAX,
        old(stats).won < u32::MAX,
        old(stats).total_time + time_secs <= u32::MAX,
    ensures
        *final(stats) == won_recorded(*old(stats), score, time_secs),
        entry_added(old(history)@, final(history)@, date@, "Won"@, score, matches, rows_added, time_secs),
{
    stats.played += 1;
    stats.won += 1;
    stats.total_time += time_secs;
    let better_score = match stats.best_score {
        Some(b) => score > b,
        None => true,
    };
    if better_score {
        stats.best_score = Some(score);
    }
    let better_time = match stats.best_time {
        Some(b) => time_secs < b,
        None => true,
    };
    if better_time {
        stats.best_time = Some(time_secs);
    }
    history.push(HistoryEntry { date, result: String::from_str("Won"), score, matches, rows_added, time_secs });
    let ghost pushed = history@;
    proof {
        assert(pushed =~= old(history)@.push(pushed.last()));
        lemma_recent_push(old(history)@, pushed.last());
    }
    keep_recent(history);
}

/// Records an abandoned game: updates the totals and adds an "Abandoned"
/// entry dated `date` to the history.
pub fn record_abandon(
    stats: &mut GameStats,
    history: &mut Vec<HistoryEntry>,
    score: i32,
    matches: u32,
    rows_added: u32,
    time_secs: u32,
    date: String,
)
    requires
        old(stats).played < u32::MAX,
        old(stats).total_time + time_secs <= u32::MAX,
    ensures
        *final(stats) == abandon_recorded(*old(stats), time_secs),
        entry_added(old(history)@, final(history)@, date@, "Abandoned"@, score, matches, rows_added, time_secs),
{
    stats.played += 1;
    stats.total_time += time_secs;
    history.push(HistoryEntry { date, result: String::from_str("Abandoned"), score, matches, rows_added, time_secs });
    let ghost pushed = history@;
    proof {
        assert(pushed =~= old(history)@.push(pushed.last()));
        lemma_recent_push(old(history)@, pushed.last());
    }
    keep_recent(history);
}

/// "mm:ss" text of a duration in seconds.
pub fn format_time(secs: u32) -> (t: String)
    ensures
        t@ == clock_text(secs as nat),
{
    format_clock(secs)
}

} // verus!
