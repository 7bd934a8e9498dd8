//! Difficulty levels of a puzzle.
use vstd::prelude::*;

verus! {

/// Highest difficulty level of the strategies needed to solve a puzzle.
#[derive(Clone, Copy, Debug, PartialEq, Eq, Structural, PartialOrd, Ord, Hash)]
pub enum Level {
    Easy,
    Standard,
    Hard,
    Expert,
    Extreme,
}

impl Level {
    /// The position of the level, from 0 (easy) to 4 (extreme).
    pub open spec fn rank_of(self) -> nat {
        match self {
            Level::Easy => 0,
            Level::Standard => 1,
            Level::Hard => 2,
            Level::Expert => 3,
            Level::Extreme => 4,
        }
    }

    /// Returns the position of the level, from 0 (easy) to 4 (extreme).
    pub fn rank(&self) -> (r: u8)
        ensures
            r == self.rank_of(),
    {
        match self {
            Level::Easy => 0,
            Level::Standard => 1,
            Level::Hard => 2,
            Level::Expert => 3,
            Level::Extreme => 4,
        }
    }
}

} // verus!
