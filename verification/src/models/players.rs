//! Players as a league directory publishes them.

use vstd::prelude::*;

verus! {

/// One entry of the directory of players.
#[derive(Debug)]
pub struct PlayerResponse {
    pub id: i32,
    pub name: String,
    pub position: String,
    pub team_id: i32,
}

/// What one player did in one game.
#[derive(Debug)]
pub struct PlayerStats {
    pub id: i32,
    pub number: i32,
    pub name: String,
    pub position: String,
    pub goals: i32,
    pub assists: i32,
    pub pm: i32,
    pub pim: i32,
    pub hits: i32,
    pub pp: i32,
    pub faceoff: i32,
    pub sog: i32,
    pub toi: String,
    pub blocks: i32,
    pub shifts: i32,
    pub giveaways: i32,
    pub takeaways: i32,
}

} // verus!
