//! The score: one point for each destructive kill.

use vstd::prelude::*;

verus! {

/// The points collected since the last reset.
#[derive(Debug, Clone, Copy, PartialEq, Eq, Structural, Hash)]
pub struct Score {
    pub score: u16,
}

impl Default for Score {
    /// Nothing scored yet.
    fn default() -> (score: Self)
        ensures
            score.score == 0,
    {
        Score { score: 0 }
    }
}

/// Raised once for each destructive kill.
#[derive(Debug, Clone, Copy, PartialEq, Eq, Structural, Hash)]
pub struct Scored;

/// Adds one point for each event of the tick.
pub fn update_score(score: &mut Score, events: &Vec<Scored>)
    requires
        old(score).score + events@.len() <= u16::MAX,
    ensures
        final(score).score == old(score).score + events@.len(),
{
    let mut i: usize = 0;
    while i < events.len()
        invariant
            i <= events.len(),
            old(score).score + events@.len() <= u16::MAX,
            score.score == old(score).score + i,
        decreases events.len() - i,
    {
        score.score += 1;
        i += 1;
    }
}

/// Starts the count over.
pub fn reset_score(score: &mut Score)
    ensures
        final(score).score == 0,
{
    score.score = 0;
}

} // verus!
