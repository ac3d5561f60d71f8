//! The record of one side against one opponent.

use vstd::prelude::*;
use crate::data::db::TeamID;
use crate::data::models::probability::Prob;
use crate::outcome::Outcome;

verus! {

/// How often `team1` has met `team2` and how often it won. The record is
/// directional: the meetings seen from `team2` are a record of their own.
#[derive(Clone, Copy, Debug, PartialEq, Eq, Structural)]
pub struct Head2Head {
    pub team1: TeamID,
    pub team2: TeamID,
    pub total_games: u32,
    pub team_wins: u32,
}

impl Head2Head {
    /// No more wins than games.
    pub open spec fn wf(self) -> bool {
        self.team_wins <= self.total_games
    }

    /// The share of games won, and one half while no game has been played.
    pub open spec fn spec_win_freq(self) -> Prob {
        if self.total_games == 0 {
            Prob { num: 1, den: 2 }
        } else {
            Prob { num: self.team_wins as u64, den: self.total_games as u64 }
        }
    }

    /// The record after one more game, won or not by `team1`.
    pub open spec fn spec_update(self, won: Outcome) -> Head2Head {
        Head2Head {
            team1: self.team1,
            team2: self.team2,
            total_games: (self.total_games + 1) as u32,
            team_wins: if won == Outcome::Win {
                (self.team_wins + 1) as u32
            } else {
                self.team_wins
            },
        }
    }

    /// A record with no game played.
    pub fn new(team1: TeamID, team2: TeamID) -> (r: Head2Head)
        ensures
            r == (Head2Head { team1, team2, total_games: 0, team_wins: 0 }),
            r.wf(),
    {
        Head2Head { team1, team2, total_games: 0, team_wins: 0 }
    }

    /// Whether the record keeps its invariant.
    pub fn is_valid(&self) -> (r: bool)
        ensures
            r == self.wf(),
    {
        self.team_wins <= self.total_games
    }

    /// The empirical win frequency of `team1` against `team2`.
    pub fn team_win_freq(&self) -> (r: Prob)
        ensures
            r == self.spec_win_freq(),
            self.wf() ==> r.wf(),
    {
        if self.total_games == 0 {
            Prob::half()
        } else {
            Prob { num: self.team_wins as u64, den: self.total_games as u64 }
        }
    }

    /// Counts one more game; `won` tells whether `team1` won it.
    pub fn update(&mut self, won: Outcome)
        requires
            old(self).wf(),
            old(self).total_games < u32::MAX,
        ensures
            *final(self) == old(self).spec_update(won),
            final(self).wf(),
    {
        if won == Outcome::Win {
            self.team_wins += 1;
        }
        self.total_games += 1;
    }
}

} // verus!
