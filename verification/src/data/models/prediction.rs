//! What a model says about a match before it is played.

use vstd::prelude::*;
use crate::data::models::probability::Prob;
use crate::outcome::Outcome;
use crate::utils::{outcome_from_prob, spec_outcome_from_prob};

verus! {

/// The expectation of each side and the outcome they announce.
#[derive(Clone, Copy, Debug, PartialEq, Eq, Structural)]
pub struct Prediction {
    pub exp_away: Prob,
    pub exp_home: Prob,
    pub outcome: Outcome,
}

impl Prediction {
    /// Both expectations are probabilities and the outcome is the one they
    /// announce.
    pub open spec fn wf(self) -> bool {
        &&& self.exp_away.wf()
        &&& self.exp_home.wf()
        &&& self.outcome == spec_outcome_from_prob(self.exp_away, self.exp_home)
    }

    /// The prediction that two expectations make.
    pub open spec fn spec_from_expectations(exp_away: Prob, exp_home: Prob) -> Prediction {
        Prediction { exp_away, exp_home, outcome: spec_outcome_from_prob(exp_away, exp_home) }
    }

    /// Builds the prediction that two expectations make.
    pub fn from_expectations(exp_away: Prob, exp_home: Prob) -> (r: Prediction)
        requires
            exp_away.wf(),
            exp_home.wf(),
        ensures
            r == Self::spec_from_expectations(exp_away, exp_home),
            r.wf(),
    {
        Prediction { exp_away, exp_home, outcome: outcome_from_prob(exp_away, exp_home) }
    }

    /// The expectation of the side that the given result favours: the away
    /// side after an away win, the home side otherwise.
    pub open spec fn spec_winner_expectation(self, outcome: Outcome) -> Prob {
        if outcome == Outcome::Win {
            self.exp_away
        } else {
            self.exp_home
        }
    }

    /// The expectation that the model had given to the side that won.
    pub fn winner_expectation(&self, outcome: Outcome) -> (r: Prob)
        ensures
            r == self.spec_winner_expectation(outcome),
    {
        match outcome {
            Outcome::Win => self.exp_away,
            _ => self.exp_home,
        }
    }

    /// The larger of the two expectations; the home side's when they tie.
    pub open spec fn spec_favoured_expectation(self) -> Prob {
        if self.exp_away.spec_gt(self.exp_home) {
            self.exp_away
        } else {
            self.exp_home
        }
    }

    /// The expectation of the side that the model favours.
    pub fn favoured_expectation(&self) -> (r: Prob)
        ensures
            r == self.spec_favoured_expectation(),
    {
        if self.exp_away.gt(self.exp_home) {
            self.exp_away
        } else {
            self.exp_home
        }
    }
}

} // verus!
