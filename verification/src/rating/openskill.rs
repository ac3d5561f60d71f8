//! Fixed-point skill ratings and the rating shown to people.

use vstd::prelude::*;
use crate::data::models::probability::Prob;

verus! {

/// One rating point, in the fixed-point units that ratings are held in.
pub const RATING_UNIT: i64 = 1_000_000_000;

/// The mean given to a competitor seen for the first time: 25.
pub const DEFAULT_RATING: i64 = 25_000_000_000;

/// The uncertainty given to a competitor seen for the first time: 8.33.
pub const DEFAULT_UNCERTAINTY: i64 = 8_330_000_000;

/// The displayed rating of a competitor whose conservative estimate is zero.
pub const DEFMMR: i64 = 1000;

/// How many uncertainties are taken off the mean for a conservative estimate.
pub const K: i64 = 3;

/// Displayed points per rating point.
pub const SCALE: i64 = 40;

/// A skill estimate: a mean and the uncertainty about it, both counted in
/// units of `1 / RATING_UNIT`.
#[derive(Clone, Copy, Debug, PartialEq, Eq, Structural)]
pub struct Rating {
    pub rating: i64,
    pub uncertainty: i64,
}

/// What the rating system concluded about one match: the chance it gave
/// the away side before the match, and the ratings of both sides after it.
#[derive(Clone, Copy, Debug, PartialEq, Eq, Structural)]
pub struct RatingStep {
    pub exp_away: Prob,
    pub away: Rating,
    pub home: Rating,
}

impl RatingStep {
    /// The chance given to the away side is a probability.
    pub open spec fn wf(self) -> bool {
        self.exp_away.wf()
    }
}

/// A count of rating units rounded to whole rating points, halves away
/// from zero.
pub open spec fn round_half_away(x: int) -> int {
    if x >= 0 {
        (x + 500_000_000) / 1_000_000_000
    } else {
        -((-x + 500_000_000) / 1_000_000_000)
    }
}

/// The displayed rating: `DEFMMR + (mu - K * sigma) * SCALE`, rounded to the
/// nearest integer, never below zero and never above `i32::MAX`. The mean
/// and the uncertainty are counted in rating units, and so is the sum
/// before it is rounded; the constants are written out.
pub open spec fn spec_rating_to_mmr(mu: int, sigma: int) -> int {
    let exact = 1000 * 1_000_000_000 + (mu - 3 * sigma) * 40;
    let rounded = round_half_away(exact);
    if rounded < 0 {
        0
    } else if rounded > i32::MAX {
        i32::MAX as int
    } else {
        rounded
    }
}

/// Anything that can be shown as a single conservative number.
pub trait SkillRating {
    /// The number that `mmr` returns.
    spec fn spec_mmr(&self) -> int;

    /// The conservative rating for display.
    fn mmr(&self) -> (r: i32)
        ensures
            r == self.spec_mmr(),
    ;
}

impl SkillRating for Rating {
    open spec fn spec_mmr(&self) -> int {
        spec_rating_to_mmr(self.rating as int, self.uncertainty as int)
    }

    fn mmr(&self) -> (r: i32) {
        rating_to_mmr(self.rating, self.uncertainty)
    }
}

impl Rating {
    /// The rating of a competitor seen for the first time.
    pub fn new() -> (r: Rating)
        ensures
            r == (Rating { rating: DEFAULT_RATING, uncertainty: DEFAULT_UNCERTAINTY }),
    {
        Rating { rating: DEFAULT_RATING, uncertainty: DEFAULT_UNCERTAINTY }
    }
}

/// Computes the displayed rating from a mean and an uncertainty, both in
/// fixed-point units.
pub fn rating_to_mmr(mu: i64, sigma: i64) -> (r: i32)
    ensures
        r == spec_rating_to_mmr(mu as int, sigma as int),
        r >= 0,
{
    assert((K as int) * (sigma as int) == 3 * sigma) by (nonlinear_arith)
        requires K == 3;
    let spread: i128 = (K as i128) * (sigma as i128);
    assert((mu - spread) * (SCALE as int) == 40 * (mu - spread)) by (nonlinear_arith)
        requires SCALE == 40;
    let margin: i128 = ((mu as i128) - spread) * (SCALE as i128);
    assert((DEFMMR as int) * (RATING_UNIT as int) == 1_000_000_000_000) by (nonlinear_arith)
        requires DEFMMR == 1000, RATING_UNIT == 1_000_000_000;
    let exact: i128 = (DEFMMR as i128) * (RATING_UNIT as i128) + margin;
    if exact < 0 {
        0
    } else {
        let rounded: u128 = ((exact as u128) + (RATING_UNIT as u128) / 2) / (RATING_UNIT as u128);
        if rounded > i32::MAX as u128 {
            i32::MAX
        } else {
            rounded as i32
        }
    }
}

} // verus!
