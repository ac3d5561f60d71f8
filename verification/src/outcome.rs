//! The result of one match and the ways a query can fail.

use vstd::prelude::*;

verus! {

/// How a match ended, always told from the away side's point of view:
/// `Win` means the away side won, `Loss` means the home side won.
#[derive(Clone, Copy, Debug, PartialEq, Eq, Structural)]
pub enum Outcome {
    Win,
    Loss,
    Draw,
}

impl Outcome {
    /// The same result seen from the other side: a win for one side is a
    /// loss for the other, and a draw is a draw for both.
    pub open spec fn spec_reversed(self) -> Outcome {
        match self {
            Outcome::Win => Outcome::Loss,
            Outcome::Loss => Outcome::Win,
            Outcome::Draw => Outcome::Draw,
        }
    }

    /// The result of the match from the home side's point of view.
    pub fn reversed(self) -> (r: Outcome)
        ensures
            r == self.spec_reversed(),
    {
        match self {
            Outcome::Win => Outcome::Loss,
            Outcome::Loss => Outcome::Win,
            Outcome::Draw => Outcome::Draw,
        }
    }

    /// The label of the away side in a training example: one after a win,
    /// zero otherwise.
    pub open spec fn spec_label(self) -> u8 {
        if self == Outcome::Win {
            1
        } else {
            0
        }
    }

    /// The label of the away side in a training example.
    pub fn label(self) -> (r: u8)
        ensures
            r == self.spec_label(),
    {
        match self {
            Outcome::Win => 1,
            _ => 0,
        }
    }
}

/// Why a query or an update was refused.
#[derive(Clone, Copy, Debug, PartialEq, Eq, Structural)]
pub enum Error {
    /// A competitor, a pairing or a form record was never registered.
    NotFound,
    /// A stored record breaks its own invariant, or a counter has reached
    /// the largest value its type can hold.
    InvariantViolation,
}

} // verus!
