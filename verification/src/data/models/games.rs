//! A played match.

use vstd::prelude::*;
use crate::data::db::TeamID;
use crate::outcome::Outcome;

verus! {

/// A finished match: who played and the final score, away side first.
#[derive(Clone, Copy, Debug)]
pub struct Game {
    pub id: i64,
    pub away_id: TeamID,
    pub home_id: TeamID,
    pub score: (u32, u32),
}

impl Game {
    /// The two sides, away first.
    pub fn ids(&self) -> (r: (TeamID, TeamID))
        ensures
            r == (self.away_id, self.home_id),
    {
        (self.away_id, self.home_id)
    }

    /// The result read off the score: a win for the away side when it
    /// scored more, a loss otherwise. A level score counts for the home side.
    pub open spec fn spec_outcome(self) -> Outcome {
        if self.score.0 > self.score.1 {
            Outcome::Win
        } else {
            Outcome::Loss
        }
    }

    /// The result of the match from the away side's point of view.
    pub fn outcome(&self) -> (r: Outcome)
        ensures
            r == self.spec_outcome(),
    {
        if self.score.0 > self.score.1 {
            Outcome::Win
        } else {
            Outcome::Loss
        }
    }
}

} // verus!
