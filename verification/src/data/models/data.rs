//! One match as a training example: what each model expected of each side,
//! and whether that side won.

use vstd::prelude::*;
use vstd::std_specs::convert::FromSpecImpl;
use crate::data::models::prediction::Prediction;
use crate::data::models::probability::Prob;

verus! {

/// What the three models expected of one side of a match, and the label:
/// one if that side won, zero if not.
#[derive(Clone, Copy, Debug, PartialEq, Eq, Structural)]
pub struct Data {
    pub rank_score: Prob,
    pub hist_score: Prob,
    pub la10_score: Prob,
    pub outcome: u8,
}

/// The two examples that one match gives, one for each side.
#[derive(Clone, Copy, Debug, PartialEq, Eq, Structural)]
pub struct DataPackage {
    pub away_data: Data,
    pub home_data: Data,
}

/// A match as one flat row: the expectations of both sides, model by model,
/// and the label of the away side.
#[derive(Clone, Copy, Debug, PartialEq, Eq, Structural)]
pub struct SerializableDataPackage {
    pub away_rank: Prob,
    pub home_rank: Prob,
    pub away_hist: Prob,
    pub home_hist: Prob,
    pub away_la10: Prob,
    pub home_la10: Prob,
    pub outcome: u8,
}

impl Data {
    /// Whether the example tells a learner nothing: the rating model was
    /// undecided, or the history model was certain either way.
    pub open spec fn spec_is_trivial(self) -> bool {
        ||| self.rank_score.spec_same(Prob { num: 1, den: 2 })
        ||| self.hist_score.num == 0
        ||| self.hist_score.num == self.hist_score.den
    }

    /// Whether the example is left out of the training rows.
    pub fn is_trivial(&self) -> (r: bool)
        ensures
            r == self.spec_is_trivial(),
    {
        self.rank_score.same(Prob::half()) || self.hist_score.num == 0 || self.hist_score.num
            == self.hist_score.den
    }
}

impl SerializableDataPackage {
    /// The two examples that the row stands for. The label of the home
    /// side is the label of the away side with its lowest bit flipped.
    pub open spec fn spec_unpacked(self) -> DataPackage {
        DataPackage {
            away_data: Data {
                rank_score: self.away_rank,
                hist_score: self.away_hist,
                la10_score: self.away_la10,
                outcome: self.outcome,
            },
            home_data: Data {
                rank_score: self.home_rank,
                hist_score: self.home_hist,
                la10_score: self.home_la10,
                outcome: self.outcome ^ 1,
            },
        }
    }

    fn new(
        away_rank: Prob,
        home_rank: Prob,
        away_hist: Prob,
        home_hist: Prob,
        away_la10: Prob,
        home_la10: Prob,
        outcome: u8,
    ) -> (r: SerializableDataPackage)
        ensures
            r == (SerializableDataPackage {
                away_rank,
                home_rank,
                away_hist,
                home_hist,
                away_la10,
                home_la10,
                outcome,
            }),
    {
        SerializableDataPackage {
            away_rank,
            home_rank,
            away_hist,
            home_hist,
            away_la10,
            home_la10,
            outcome,
        }
    }
}

impl DataPackage {
    /// The examples made of three predictions, in the order rating,
    /// history, form, and the label of the away side.
    pub open spec fn spec_new(
        rank: Prediction,
        hist: Prediction,
        la10: Prediction,
        outcome: u8,
    ) -> DataPackage {
        DataPackage {
            away_data: Data {
                rank_score: rank.exp_away,
                hist_score: hist.exp_away,
                la10_score: la10.exp_away,
                outcome,
            },
            home_data: Data {
                rank_score: rank.exp_home,
                hist_score: hist.exp_home,
                la10_score: la10.exp_home,
                outcome: outcome ^ 1,
            },
        }
    }

    /// The package as one flat row.
    pub open spec fn spec_serialize(self) -> SerializableDataPackage {
        SerializableDataPackage {
            away_rank: self.away_data.rank_score,
            home_rank: self.home_data.rank_score,
            away_hist: self.away_data.hist_score,
            home_hist: self.home_data.hist_score,
            away_la10: self.away_data.la10_score,
            home_la10: self.home_data.la10_score,
            outcome: self.away_data.outcome,
        }
    }

    /// Splits the three predictions of a match into the example of the
    /// away side and the example of the home side.
    pub fn new(predictions: [Prediction; 3], outcome: u8) -> (r: DataPackage)
        ensures
            r == Self::spec_new(predictions[0], predictions[1], predictions[2], outcome),
    {
        let rank = predictions[0];
        let hist = predictions[1];
        let la10 = predictions[2];
        let away_data = Data {
            rank_score: rank.exp_away,
            hist_score: hist.exp_away,
            la10_score: la10.exp_away,
            outcome,
        };
        let home_data = Data {
            rank_score: rank.exp_home,
            hist_score: hist.exp_home,
            la10_score: la10.exp_home,
            outcome: outcome ^ 1,
        };
        DataPackage { away_data, home_data }
    }

    /// Whether the match is worth a training row: neither of its two
    /// examples is trivial.
    pub fn is_informative(&self) -> (r: bool)
        ensures
            r == (!self.away_data.spec_is_trivial() && !self.home_data.spec_is_trivial()),
    {
        !self.away_data.is_trivial() && !self.home_data.is_trivial()
    }

    /// The six features of a match for a learner: for each model, in the
    /// order rating, history, form, what it expected of the away side and
    /// of the home side.
    pub fn features(&self) -> (r: [Prob; 6])
        ensures
            r@ == seq![
                self.away_data.rank_score,
                self.home_data.rank_score,
                self.away_data.hist_score,
                self.home_data.hist_score,
                self.away_data.la10_score,
                self.home_data.la10_score,
            ],
    {
        let r = [
            self.away_data.rank_score,
            self.home_data.rank_score,
            self.away_data.hist_score,
            self.home_data.hist_score,
            self.away_data.la10_score,
            self.home_data.la10_score,
        ];
        proof {
            assert(r@ =~= seq![
                self.away_data.rank_score,
                self.home_data.rank_score,
                self.away_data.hist_score,
                self.home_data.hist_score,
                self.away_data.la10_score,
                self.home_data.la10_score,
            ]);
        }
        r
    }

    /// Lays the package out as one flat row.
    pub fn serialize(&self) -> (r: SerializableDataPackage)
        ensures
            r == self.spec_serialize(),
    {
        SerializableDataPackage::new(
            self.away_data.rank_score,
            self.home_data.rank_score,
            self.away_data.hist_score,
            self.home_data.hist_score,
            self.away_data.la10_score,
            self.home_data.la10_score,
            self.away_data.outcome,
        )
    }
}

impl From<SerializableDataPackage> for DataPackage {
    fn from(serdatapack: SerializableDataPackage) -> (r: DataPackage) {
        DataPackage {
            away_data: Data {
                rank_score: serdatapack.away_rank,
                hist_score: serdatapack.away_hist,
                la10_score: serdatapack.away_la10,
                outcome: serdatapack.outcome,
            },
            home_data: Data {
                rank_score: serdatapack.home_rank,
                hist_score: serdatapack.home_hist,
                la10_score: serdatapack.home_la10,
                outcome: serdatapack.outcome ^ 1,
            },
        }
    }
}

impl FromSpecImpl<SerializableDataPackage> for DataPackage {
    open spec fn obeys_from_spec() -> bool {
        true
    }

    open spec fn from_spec(serdatapack: SerializableDataPackage) -> DataPackage {
        serdatapack.spec_unpacked()
    }
}

/// The examples whose label is one, in the order they come in.
pub open spec fn spec_wins(rows: Seq<Data>) -> Seq<Data> {
    rows.filter(|d: Data| d.outcome == 1)
}

/// The examples whose label is not one, in the order they come in.
pub open spec fn spec_losses(rows: Seq<Data>) -> Seq<Data> {
    rows.filter(|d: Data| d.outcome != 1)
}

/// Parts examples by their label: those of the side that won, and the
/// others. Each part keeps the order of the rows.
pub fn split_by_label(rows: &Vec<Data>) -> (r: (Vec<Data>, Vec<Data>))
    ensures
        r.0@ == spec_wins(rows@),
        r.1@ == spec_losses(rows@),
{
    let mut wins: Vec<Data> = Vec::new();
    let mut losses: Vec<Data> = Vec::new();
    let mut i: usize = 0;
    proof {
        assert(rows@.subrange(0, 0) =~= Seq::<Data>::empty());
    }
    while i < rows.len()
        invariant
            i <= rows@.len(),
            wins@ == spec_wins(rows@.subrange(0, i as int)),
            losses@ == spec_losses(rows@.subrange(0, i as int)),
        decreases rows@.len() - i,
    {
        proof {
            let seen = rows@.subrange(0, i as int);
            let more = rows@.subrange(0, i + 1);
            assert(more =~= seen.push(rows@[i as int]));
            lemma_filter_push(seen, rows@[i as int], |d: Data| d.outcome == 1);
            lemma_filter_push(seen, rows@[i as int], |d: Data| d.outcome != 1);
        }
        if rows[i].outcome == 1 {
            wins.push(rows[i]);
        } else {
            losses.push(rows[i]);
        }
        i += 1;
    }
    proof {
        assert(rows@.subrange(0, rows@.len() as int) =~= rows@);
    }
    (wins, losses)
}

/// Filtering a sequence with one more element filters the sequence and
/// then decides on the element.
proof fn lemma_filter_push(rows: Seq<Data>, last: Data, keep: spec_fn(Data) -> bool)
    ensures
        rows.push(last).filter(keep) == if keep(last) {
            rows.filter(keep).push(last)
        } else {
            rows.filter(keep)
        },
{
    reveal(Seq::filter);
    assert(rows.push(last).drop_last() =~= rows);
}

/// A package made from predictions, laid out as a row and read back, is
/// the same package.
pub proof fn lemma_row_round_trip(rank: Prediction, hist: Prediction, la10: Prediction, outcome: u8)
    ensures
        DataPackage::spec_new(rank, hist, la10, outcome).spec_serialize().spec_unpacked()
            == DataPackage::spec_new(rank, hist, la10, outcome),
{
}

} // verus!
