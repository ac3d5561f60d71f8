//! Small helpers shared by the models.

use vstd::prelude::*;
use crate::data::models::probability::Prob;
use crate::outcome::Outcome;

verus! {

/// The outcome that two expectations announce: a draw when they differ by
/// less than the tolerance, otherwise a win for the side with the larger
/// expectation.
pub open spec fn spec_outcome_from_prob(exp_away: Prob, exp_home: Prob) -> Outcome {
    if exp_away.spec_near(exp_home) {
        Outcome::Draw
    } else if exp_away.spec_gt(exp_home) {
        Outcome::Win
    } else {
        Outcome::Loss
    }
}

/// Turns the expectations of the two sides into a predicted outcome.
pub fn outcome_from_prob(exp_away: Prob, exp_home: Prob) -> (r: Outcome)
    requires
        exp_away.wf(),
        exp_home.wf(),
    ensures
        r == spec_outcome_from_prob(exp_away, exp_home),
{
    if exp_away.near(exp_home) {
        Outcome::Draw
    } else if exp_away.gt(exp_home) {
        Outcome::Win
    } else {
        Outcome::Loss
    }
}

/// Whether a calendar month belongs to the playing season, which runs from
/// October through April. The year and the day do not matter.
pub open spec fn spec_in_season(month: u32) -> bool {
    month >= 10 || month <= 4
}

/// Tells whether a date falls inside the playing season.
pub fn in_season(_year: i32, month: u32, _day: u32) -> (r: bool)
    ensures
        r == spec_in_season(month),
{
    month >= 10 || 4 >= month
}

/// A date inside the season stays; a date outside it moves to the first of
/// October of the same year.
pub open spec fn spec_to_season(year: i32, month: u32, day: u32) -> (i32, u32, u32) {
    if spec_in_season(month) {
        (year, month, day)
    } else {
        (year, 10, 1)
    }
}

/// Moves a date that falls outside the season forward to the day the next
/// season opens.
pub fn to_season(year: i32, month: u32, day: u32) -> (r: (i32, u32, u32))
    ensures
        r == spec_to_season(year, month, day),
        spec_in_season(r.1),
{
    if in_season(year, month, day) {
        (year, month, day)
    } else {
        (year, 10, 1)
    }
}

/// The date after a date on a calendar whose months all have 31 days: the
/// day after the 31st is the first of the next month, and the month after
/// the twelfth is the first of the next year.
pub open spec fn spec_next_day(year: i32, month: u32, day: u32) -> (int, int, int) {
    let (m, d) = if day + 1 > 31 {
        (month + 1, 1int)
    } else {
        (month as int, day + 1)
    };
    if m > 12 {
        (year + 1, 1, d)
    } else {
        (year as int, m, d)
    }
}

/// Steps a date forward by one day on a calendar that gives every month 31
/// days, so that no real day is skipped.
pub fn next_day(year: i32, month: u32, day: u32) -> (r: (i32, u32, u32))
    requires
        year < i32::MAX,
        month < u32::MAX,
        day < u32::MAX,
    ensures
        (r.0 as int, r.1 as int, r.2 as int) == spec_next_day(year, month, day),
{
    let mut year = year;
    let mut month = month;
    let mut day = day + 1;
    if day > 31 {
        month += 1;
        day = 1;
    }
    if month > 12 {
        year += 1;
        month = 1;
    }
    (year, month, day)
}

} // verus!
