use vstd::prelude::*;
use crate::text::str_eq;

verus! {

/// Puzzle sizes offered to the player.
#[derive(Clone, Copy, Debug, PartialEq, Eq, Structural)]
pub enum Difficulty {
    Easy,
    Medium,
    Hard,
    Expert,
    Master,
}

impl Difficulty {
    /// Name shown to the player.
    pub fn label(self) -> (s: &'static str)
        ensures
            s@ == match self {
                Difficulty::Easy => "Easy"@,
                Difficulty::Medium => "Medium"@,
                Difficulty::Hard => "Hard"@,
                Difficulty::Expert => "Expert"@,
                Difficulty::Master => "Master"@,
            },
    {
        match self {
            Difficulty::Easy => "Easy",
            Difficulty::Medium => "Medium",
            Difficulty::Hard => "Hard",
            Difficulty::Expert => "Expert",
            Difficulty::Master => "Master",
        }
    }

    /// The difficulty a saved game names by its label: "Easy", "Hard",
    /// "Expert" or "Master"; any other text is Medium.
    pub fn from_label(s: &str) -> (d: Difficulty)
        ensures
            d == if s@ == "Easy"@ {
                Difficulty::Easy
            } else if s@ == "Hard"@ {
                Difficulty::Hard
            } else if s@ == "Expert"@ {
                Difficulty::Expert
            } else if s@ == "Master"@ {
                Difficulty::Master
            } else {
                Difficulty::Medium
            },
    {
        if str_eq(s, "Easy") {
            Difficulty::Easy
        } else if str_eq(s, "Hard") {
            Difficulty::Hard
        } else if str_eq(s, "Expert") {
            Difficulty::Expert
        } else if str_eq(s, "Master") {
            Difficulty::Master
        } else {
            Difficulty::Medium
        }
    }

    /// Board radius: 2, 3, 3, 4, 4.
    pub fn radius(self) -> (r: i32)
        ensures
            r == match self {
                Difficulty::Easy => 2i32,
                Difficulty::Medium => 3,
                Difficulty::Hard => 3,
                Difficulty::Expert => 4,
                Difficulty::Master => 4,
            },
    {
        match self {
            Difficulty::Easy => 2,
            Difficulty::Medium => 3,
            Difficulty::Hard => 3,
            Difficulty::Expert => 4,
            Difficulty::Master => 4,
        }
    }

    /// Tiles asked of the generator: 8, 14, 22, 32, 50.
    pub fn tiles(self) -> (n: u32)
        ensures
            n == match self {
                Difficulty::Easy => 8u32,
                Difficulty::Medium => 14,
                Difficulty::Hard => 22,
                Difficulty::Expert => 32,
                Difficulty::Master => 50,
            },
    {
        match self {
            Difficulty::Easy => 8,
            Difficulty::Medium => 14,
            Difficulty::Hard => 22,
            Difficulty::Expert => 32,
            Difficulty::Master => 50,
        }
    }
}

} // verus!
