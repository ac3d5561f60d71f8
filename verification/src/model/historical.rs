//! The model that predicts from the meetings two competitors have had.

use vstd::prelude::*;
use crate::data::db::{DataBase, DataBaseView, TeamID};
use crate::data::models::head2head::Head2Head;
use crate::data::models::prediction::Prediction;
use crate::data::models::probability::{spec_cdf, spec_pmf, total, DiscreteProb, Prob};
use crate::model::model::{Model, ModelBase, ModelBaseView};
use crate::outcome::{Error, Outcome};

verus! {

/// The largest bucket of this model's histogram: expectations are told
/// apart to one part in a thousand.
pub const HISTORICAL_RESOLUTION: usize = 1000;

/// Predicts a match from the share of past meetings that each side won.
#[derive(Debug)]
pub struct HistoricalMatchupModel {
    pub base: ModelBase,
}

/// What one game adds to the record of the away side against the home side,
/// and to the record of the home side against the away side: exactly one of
/// the two gets a win, and a game that the away side did not win counts for
/// the home side.
pub open spec fn side_results(outcome: Outcome) -> (Outcome, Outcome) {
    if outcome == Outcome::Win {
        (Outcome::Win, Outcome::Loss)
    } else {
        (Outcome::Loss, Outcome::Win)
    }
}

impl HistoricalMatchupModel {
    /// A model that has seen no match.
    pub fn new() -> (r: HistoricalMatchupModel)
        ensures
            r.wf(),
            r.base@ == ModelBaseView::fresh(HISTORICAL_RESOLUTION),
    {
        HistoricalMatchupModel { base: ModelBase::new(HISTORICAL_RESOLUTION) }
    }

    /// How many matches the model has recorded.
    pub fn get_hits(&self) -> (r: usize)
        requires
            self.wf(),
        ensures
            r == total(self.base.dist@),
            r == self.base.hits,
    {
        self.base.get_hits()
    }

    /// The empirical distribution of the expectations that the model had
    /// given to the winners.
    pub fn get_prob(&self) -> (r: DiscreteProb)
        requires
            self.wf(),
        ensures
            r.pmf@ == spec_pmf(self.base.dist@),
            r.cdf@ == spec_cdf(self.base.dist@),
            r.wf(),
    {
        self.base.get_prob()
    }

    /// The bucket of this model's histogram that an expectation falls into.
    pub fn exp2idx(&self, exp: Prob) -> (r: usize)
        requires
            self.wf(),
            exp.wf(),
        ensures
            r == exp.bucket(HISTORICAL_RESOLUTION as int),
            r <= HISTORICAL_RESOLUTION,
    {
        self.base.exp2idx(exp)
    }

    /// Counts a match whose records and prediction are already at hand and
    /// whose counters all have room.
    pub(crate) fn apply(
        &mut self,
        db: &mut DataBase,
        away: TeamID,
        home: TeamID,
        h2h_away: Head2Head,
        h2h_home: Head2Head,
        predic: Prediction,
        outcome: Outcome,
    )
        requires
            old(self).wf(),
            old(db).wf(),
            Self::spec_predict(old(db)@, away, home, ()) == Ok::<Prediction, Error>(predic),
            Self::holds(old(db)@, away, home, h2h_away, h2h_home),
            h2h_away.total_games < u32::MAX,
            h2h_home.total_games < u32::MAX,
            old(self).base.hits < usize::MAX,
        ensures
            final(self).wf(),
            final(db).wf(),
            Self::spec_predict_and_update(old(self).base@, old(db)@, away, home, outcome, ())
                == Ok::<(ModelBaseView, DataBaseView, Prediction), Error>(
                (final(self).base@, final(db)@, predic),
            ),
    {
        let mut h2h_away = h2h_away;
        let mut h2h_home = h2h_home;
        let winexp = predic.winner_expectation(outcome);
        if outcome == Outcome::Win {
            h2h_away.update(Outcome::Win);
            h2h_home.update(Outcome::Loss);
        } else {
            h2h_away.update(Outcome::Loss);
            h2h_home.update(Outcome::Win);
        }
        db.update_h2h(h2h_away);
        db.update_h2h(h2h_home);
        let idx = self.base.exp2idx(winexp);
        self.base.record(idx, predic.outcome == outcome);
    }
}

impl Model for HistoricalMatchupModel {
    type Record = Head2Head;

    type Evidence = ();

    open spec fn wf(&self) -> bool {
        self.base@.wf() && self.base@.resolution() == HISTORICAL_RESOLUTION
    }

    open spec fn books(&self) -> ModelBaseView {
        self.base@
    }

    open spec fn evidence_wf(evidence: ()) -> bool {
        true
    }

    /// The records are those of the away side against the home side and of
    /// the home side against the away side.
    open spec fn holds(
        db: DataBaseView,
        away: TeamID,
        home: TeamID,
        away_record: Head2Head,
        home_record: Head2Head,
    ) -> bool {
        &&& db.h2h.contains_key((away, home))
        &&& db.h2h.contains_key((home, away))
        &&& away_record == db.h2h[(away, home)]
        &&& home_record == db.h2h[(home, away)]
    }

    /// Each side is given the share of the meetings it has won, and one
    /// half while there has been no meeting. Both directions of the pairing
    /// must be registered, and both records must be well formed.
    open spec fn spec_predict(db: DataBaseView, away: TeamID, home: TeamID, evidence: ()) -> Result<
        Prediction,
        Error,
    > {
        if !db.h2h.contains_key((away, home)) || !db.h2h.contains_key((home, away)) {
            Err(Error::NotFound)
        } else if !db.h2h[(away, home)].wf() || !db.h2h[(home, away)].wf() {
            Err(Error::InvariantViolation)
        } else {
            Ok(
                Prediction::spec_from_expectations(
                    db.h2h[(away, home)].spec_win_freq(),
                    db.h2h[(home, away)].spec_win_freq(),
                ),
            )
        }
    }

    /// Both records count one more game and the winner's record one more
    /// win; the histogram gets one sample at the expectation that had been
    /// given to the winner. Nothing is counted when a counter is at the end
    /// of its range.
    open spec fn spec_predict_and_update(
        books: ModelBaseView,
        db: DataBaseView,
        away: TeamID,
        home: TeamID,
        outcome: Outcome,
        evidence: (),
    ) -> Result<(ModelBaseView, DataBaseView, Prediction), Error> {
        match Self::spec_predict(db, away, home, ()) {
            Err(e) => Err(e),
            Ok(prediction) => {
                let h2h_away = db.h2h[(away, home)];
                let h2h_home = db.h2h[(home, away)];
                if h2h_away.total_games == u32::MAX || h2h_home.total_games == u32::MAX
                    || books.hits == usize::MAX {
                    Err(Error::InvariantViolation)
                } else {
                    Ok(
                        (
                            books.spec_record(
                                prediction.spec_winner_expectation(outcome).bucket(
                                    HISTORICAL_RESOLUTION as int,
                                ),
                                prediction.outcome == outcome,
                            ),
                            db.spec_update_h2h(
                                h2h_away.spec_update(side_results(outcome).0),
                            ).spec_update_h2h(h2h_home.spec_update(side_results(outcome).1)),
                            prediction,
                        ),
                    )
                }
            },
        }
    }

    proof fn lemma_predicts_then_updates(
        books: ModelBaseView,
        db: DataBaseView,
        away: TeamID,
        home: TeamID,
        outcome: Outcome,
        evidence: (),
    ) {
    }

    fn predict(&self, db: &DataBase, away: TeamID, home: TeamID, evidence: &()) -> (r: Result<
        Prediction,
        Error,
    >) {
        match self.predict_and_get(db, away, home, evidence) {
            Ok((_, _, prediction)) => Ok(prediction),
            Err(e) => Err(e),
        }
    }

    fn predict_and_get(&self, db: &DataBase, away: TeamID, home: TeamID, evidence: &()) -> (r:
        Result<(Head2Head, Head2Head, Prediction), Error>) {
        let h2h_away = match db.get_h2h(away, home) {
            Ok(record) => record,
            Err(e) => {
                return Err(e);
            },
        };
        let h2h_home = match db.get_h2h(home, away) {
            Ok(record) => record,
            Err(e) => {
                return Err(e);
            },
        };
        if !h2h_away.is_valid() || !h2h_home.is_valid() {
            return Err(Error::InvariantViolation);
        }
        let prediction = Prediction::from_expectations(
            h2h_away.team_win_freq(),
            h2h_home.team_win_freq(),
        );
        Ok((h2h_away, h2h_home, prediction))
    }

    fn update(
        &mut self,
        db: &mut DataBase,
        away: TeamID,
        home: TeamID,
        outcome: Outcome,
        evidence: &(),
    ) -> (r: Result<(), Error>) {
        match self.predict_and_update(db, away, home, outcome, evidence) {
            Ok(_) => Ok(()),
            Err(e) => Err(e),
        }
    }

    fn predict_and_update(
        &mut self,
        db: &mut DataBase,
        away: TeamID,
        home: TeamID,
        outcome: Outcome,
        evidence: &(),
    ) -> (r: Result<Prediction, Error>) {
        let (h2h_away, h2h_home, predic) = match self.predict_and_get(db, away, home, evidence) {
            Ok(found) => found,
            Err(e) => {
                return Err(e);
            },
        };
        if h2h_away.total_games == u32::MAX || h2h_home.total_games == u32::MAX || self.base.hits
            == usize::MAX {
            return Err(Error::InvariantViolation);
        }
        self.apply(db, away, home, h2h_away, h2h_home, predic, outcome);
        Ok(predic)
    }
}

/// A pairing that has never been played is predicted as even: each side is
/// given exactly one half, and the outcome announced is a draw.
pub proof fn lemma_unplayed_pairing_is_even(db: DataBaseView, away: TeamID, home: TeamID)
    requires
        db.h2h.contains_key((away, home)),
        db.h2h.contains_key((home, away)),
        db.h2h[(away, home)].total_games == 0,
        db.h2h[(home, away)].total_games == 0,
        db.h2h[(away, home)].wf(),
        db.h2h[(home, away)].wf(),
    ensures
        HistoricalMatchupModel::spec_predict(db, away, home, ()) == Ok::<Prediction, Error>(
            Prediction {
                exp_away: Prob { num: 1, den: 2 },
                exp_home: Prob { num: 1, den: 2 },
                outcome: Outcome::Draw,
            },
        ),
{
}

} // verus!
