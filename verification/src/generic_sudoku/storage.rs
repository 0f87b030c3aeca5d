use vstd::prelude::*;
use crate::records::{keep_recent, recent, lemma_recent_push};
use vstd::string::StringExecFns;
use crate::text::{format_clock, clock_text, str_eq};
use crate::generic_sudoku::config::PuzzleConfig;
use crate::generic_sudoku::generic_board::copy_config;

verus! {

/// Totals for one difficulty.
#[derive(Clone, Copy, Debug)]
pub struct DifficultyStats {
    pub played: u32,
    pub won: u32,
    pub best_time: Option<u32>,
    pub total_time: u32,
}

impl Default for DifficultyStats {
    fn default() -> (s: Self)
        ensures
            s.played == 0,
            s.won == 0,
            s.best_time is None,
            s.total_time == 0,
    {
        DifficultyStats { played: 0, won: 0, best_time: None, total_time: 0 }
    }
}

/// Totals before any game.
pub open spec fn no_games() -> DifficultyStats {
    DifficultyStats { played: 0, won: 0, best_time: None, total_time: 0 }
}

/// Totals per difficulty.
#[derive(Clone, Copy, Debug)]
pub struct Stats {
    pub easy: DifficultyStats,
    pub medium: DifficultyStats,
    pub hard: DifficultyStats,
}

impl Default for Stats {
    fn default() -> (s: Self)
        ensures
            s.easy == no_games(),
            s.medium == no_games(),
            s.hard == no_games(),
    {
        Stats { easy: DifficultyStats::default(), medium: DifficultyStats::default(), hard: DifficultyStats::default() }
    }
}

/// One puzzle played.
#[derive(Clone, Debug)]
pub struct HistoryEntry {
    pub date: String,
    pub config_name: String,
    pub difficulty: String,
    pub result: String,
    pub time_secs: u32,
}

/// The totals of the difficulty named `d`: "easy", "hard", anything else
/// is medium.
pub open spec fn stats_for(s: Stats, d: Seq<char>) -> DifficultyStats {
    if d == "easy"@ {
        s.easy
    } else if d == "hard"@ {
        s.hard
    } else {
        s.medium
    }
}

/// `s` with the totals of the difficulty named `d` replaced by `x`.
pub open spec fn with_stats(s: Stats, d: Seq<char>, x: DifficultyStats) -> Stats {
    if d == "easy"@ {
        Stats { easy: x, ..s }
    } else if d == "hard"@ {
        Stats { hard: x, ..s }
    } else {
        Stats { medium: x, ..s }
    }
}

impl Stats {
    /// The totals of the named difficulty.
    pub fn get(&self, difficulty: &str) -> (r: &DifficultyStats)
        ensures
            *r == stats_for(*self, difficulty@),
    {
        if str_eq(difficulty, "easy") {
            &self.easy
        } else if str_eq(difficulty, "hard") {
            &self.hard
        } else {
            &self.medium
        }
    }

    /// The totals of the named difficulty, to change in place.
    pub fn get_mut(&mut self, difficulty: &str) -> (r: &mut DifficultyStats)
        ensures
            *r == stats_for(*old(self), difficulty@),
            *final(self) == with_stats(*old(self), difficulty@, *final(r)),
    {
        if str_eq(difficulty, "easy") {
            &mut self.easy
        } else if str_eq(difficulty, "hard") {
            &mut self.hard
        } else {
            &mut self.medium
        }
    }
}

/// The totals after a won puzzle: one more played and won, time added,
/// best (lowest) time kept.
pub open spec fn won_recorded(s: DifficultyStats, time_secs: u32) -> DifficultyStats {
    DifficultyStats {
        played: (s.played + 1) as u32,
        won: (s.won + 1) as u32,
        total_time: (s.total_time + time_secs) as u32,
        best_time: match s.best_time {
            Some(b) => if time_secs < b {
                Some(time_secs)
            } else {
                Some(b)
            },
            None => Some(time_secs),
        },
    }
}

/// The totals after an abandoned puzzle: one more played, time added.
pub open spec fn abandon_recorded(s: DifficultyStats, time_secs: u32) -> DifficultyStats {
    DifficultyStats { played: (s.played + 1) as u32, total_time: (s.total_time + time_secs) as u32, ..s }
}

/// The history with one more entry.
pub open spec fn entry_added(
    before: Seq<HistoryEntry>,
    after: Seq<HistoryEntry>,
    date: Seq<char>,
    name: Seq<char>,
    difficulty: Seq<char>,
    result: Seq<char>,
    time_secs: u32,
) -> bool {
    &&& after.len() > 0
    &&& after == recent(before.push(after.last()))
    &&& after.last().date@ == date
    &&& after.last().config_name@ == name
    &&& after.last().difficulty@ == difficulty
    &&& after.last().result@ == result
    &&& after.last().time_secs == time_secs
}

/// Records a won puzzle of layout `config` at `difficulty`: updates that
/// difficulty's totals and adds a "Won" entry dated `date`.
pub fn record_win(
    stats: &mut Stats,
    history: &mut Vec<HistoryEntry>,
    config: &PuzzleConfig,
    difficulty: &str,
    time_secs: u32,
    date: String,
)
    requires
        stats_for(*old(stats), difficulty@).played < u32::MAX,
        stats_for(*old(stats), difficulty@).won < u32::MAX,
        stats_for(*old(stats), difficulty@).total_time + time_secs <= u32::MAX,
    ensures
        *final(stats) == with_stats(*old(stats), difficulty@, won_recorded(stats_for(*old(stats), difficulty@), time_secs)),
        entry_added(old(history)@, final(history)@, date@, config.name@, difficulty@, "Won"@, time_secs),
{
    let s = stats.get_mut(difficulty);
    s.played += 1;
    s.won += 1;
    s.total_time += time_secs;
    let better = match s.best_time {
        Some(b) => time_secs < b,
        None => true,
    };
    if better {
        s.best_time = Some(time_secs);
    }
    history.push(
        HistoryEntry {
            date,
            config_name: config.name.clone(),
            difficulty: difficulty.to_string(),
            result: String::from_str("Won"),
            time_secs,
        },
    );
    let ghost pushed = history@;
    proof {
        assert(pushed =~= old(history)@.push(pushed.last()));
        lemma_recent_push(old(history)@, pushed.last());
    }
    keep_recent(history);
}

/// Records an abandoned puzzle of layout `config` at `difficulty`: updates
/// that difficulty's totals and adds an "Abandoned" entry dated `date`.
pub fn record_abandon(
    stats: &mut Stats,
    history: &mut Vec<HistoryEntry>,
    config: &PuzzleConfig,
    difficulty: &str,
    time_secs: u32,
    date: String,
)
    requires
        stats_for(*old(stats), difficulty@).played < u32::MAX,
        stats_for(*old(stats), difficulty@).total_time + time_secs <= u32::MAX,
    ensures
        *final(stats) == with_stats(*old(stats), difficulty@, abandon_recorded(stats_for(*old(stats), difficulty@), time_secs)),
        entry_added(old(history)@, final(history)@, date@, config.name@, difficulty@, "Abandoned"@, time_secs),
{
    let s = stats.get_mut(difficulty);
    s.played += 1;
    s.total_time += time_secs;
    history.push(
        HistoryEntry {
            date,
            config_name: config.name.clone(),
            difficulty: difficulty.to_string(),
            result: String::from_str("Abandoned"),
            time_secs,
        },
    );
    let ghost pushed = history@;
    proof {
        assert(pushed =~= old(history)@.push(pushed.last()));
        lemma_recent_push(old(history)@, pushed.last());
    }
    keep_recent(history);
}

/// "mm:ss" text of a duration in seconds.
pub fn format_time(secs: u32) -> (t: String)
    ensures
        t@ == clock_text(secs as nat),
{
    format_clock(secs)
}

/// The configurations whose name is not `name`, in order.
pub open spec fn without_name(v: Seq<PuzzleConfig>, name: Seq<char>) -> Seq<PuzzleConfig>
    decreases v.len(),
{
    if v.len() == 0 {
        Seq::empty()
    } else {
        let rest = without_name(v.drop_last(), name);
        if v.last().name@ == name {
            rest
        } else {
            rest.push(v.last())
        }
    }
}

/// Removes every configuration named `name`, keeping the others in order.
pub fn remove_named(configs: &mut Vec<PuzzleConfig>, name: &str)
    ensures
        final(configs)@ == without_name(old(configs)@, name@),
{
    let mut kept: Vec<PuzzleConfig> = Vec::new();
    let ghost c0 = configs@;
    while configs.len() > 0
        invariant
            without_name(c0, name@) == without_name(configs@, name@) + kept@,
        decreases configs@.len(),
    {
        let ghost before = configs@;
        let c = configs.pop().unwrap();
        assert(configs@ == before.drop_last());
        if !str_eq(c.name.as_str(), name) {
            kept.insert(0, c);
            proof {
                assert(without_name(before, name@) == without_name(configs@, name@).push(before.last()));
                assert(without_name(configs@, name@).push(before.last()) + kept@.drop_first() =~= without_name(
                    configs@,
                    name@,
                ) + kept@);
            }
        }
    }
    assert(without_name(configs@, name@) =~= Seq::<PuzzleConfig>::empty());
    assert(kept@ =~= without_name(c0, name@));
    *configs = kept;
}

/// Adds `config` to the saved list, replacing any configuration of the
/// same name.
pub fn upsert_config(configs: &mut Vec<PuzzleConfig>, config: &PuzzleConfig)
    ensures
        final(configs)@.drop_last() == without_name(old(configs)@, config.name@),
        final(configs)@.len() > 0,
        final(configs)@.last().name@ == config.name@,
        final(configs)@.last().boards@ == config.boards@,
{
    remove_named(configs, config.name.as_str());
    let ghost mid = configs@;
    configs.push(copy_config(config));
    assert(configs@.drop_last() =~= mid);
}

} // verus!
