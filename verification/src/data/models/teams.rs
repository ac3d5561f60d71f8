//! Competitors.

use vstd::prelude::*;
use crate::data::db::TeamID;
use crate::data::models::head2head::Head2Head;
use crate::rating::openskill::Rating;

verus! {

/// A competitor and its current skill rating.
#[derive(Debug)]
pub struct Team {
    pub id: TeamID,
    pub name: String,
    pub abbrev: String,
    pub rating: Rating,
}

impl Clone for Team {
    fn clone(&self) -> (r: Team)
        ensures
            r == *self,
    {
        Team {
            id: self.id,
            name: self.name.clone(),
            abbrev: self.abbrev.clone(),
            rating: self.rating,
        }
    }
}

impl Team {
    /// The competitor with another rating.
    pub open spec fn spec_update(self, rating: Rating) -> Team {
        Team { id: self.id, name: self.name, abbrev: self.abbrev, rating }
    }

    /// Replaces the rating.
    pub fn update(&mut self, rating: Rating)
        ensures
            *final(self) == old(self).spec_update(rating),
    {
        self.rating = rating;
    }

    /// The empty record of this competitor against `team`.
    pub fn vs(&self, team: &Team) -> (r: Head2Head)
        ensures
            r == (Head2Head { team1: self.id, team2: team.id, total_games: 0, team_wins: 0 }),
    {
        Head2Head { team1: self.id, team2: team.id, total_games: 0, team_wins: 0 }
    }
}

/// The list of competitors as a league directory publishes it.
#[derive(Debug)]
pub struct TeamsResponse {
    pub teams: Vec<TeamResponse>,
}

/// One entry of a league directory.
#[derive(Debug)]
pub struct TeamResponse {
    pub id: i64,
    pub franchise_id: Option<i64>,
    pub full_name: String,
    pub league_id: u64,
    pub raw_tricode: String,
    pub tri_code: String,
}

} // verus!
