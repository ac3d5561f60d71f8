//! The model that predicts from the recent form of each side.

use vstd::prelude::*;
use crate::data::db::{DataBase, DataBaseView, TeamID};
use crate::data::models::last10::Last10;
use crate::data::models::prediction::Prediction;
use crate::data::models::probability::{spec_cdf, spec_pmf, total, DiscreteProb, Prob};
use crate::model::model::{Model, ModelBase, ModelBaseView};
use crate::outcome::{Error, Outcome};

verus! {

/// The largest bucket of this model's histogram: a window of ten results
/// tells expectations apart to one part in ten.
pub const LAST10_RESOLUTION: usize = 10;

/// Predicts a match from the share of wins in the latest results of each
/// side, whoever the opponents were.
#[derive(Debug)]
pub struct Last10GamesModel {
    pub base: ModelBase,
}

impl Last10GamesModel {
    /// A model that has seen no match.
    pub fn new() -> (r: Last10GamesModel)
        ensures
            r.wf(),
            r.base@ == ModelBaseView::fresh(LAST10_RESOLUTION),
    {
        Last10GamesModel { base: ModelBase::new(LAST10_RESOLUTION) }
    }

    /// How many matches the model has recorded.
    pub fn get_hits(&self) -> (r: usize)
        requires
            self.wf(),
        ensures
            r == total(self.base.dist@),
            r == self.base.hits,
    {
        self.base.get_hits()
    }

    /// The empirical distribution of the expectations that the model had
    /// given to the winners.
    pub fn get_prob(&self) -> (r: DiscreteProb)
        requires
            self.wf(),
        ensures
            r.pmf@ == spec_pmf(self.base.dist@),
            r.cdf@ == spec_cdf(self.base.dist@),
            r.wf(),
    {
        self.base.get_prob()
    }

    /// The bucket of this model's histogram that an expectation falls into.
    pub fn exp2idx(&self, exp: Prob) -> (r: usize)
        requires
            self.wf(),
            exp.wf(),
        ensures
            r == exp.bucket(LAST10_RESOLUTION as int),
            r <= LAST10_RESOLUTION,
    {
        self.base.exp2idx(exp)
    }

    /// Counts a match whose form records and prediction are already at
    /// hand, when the count of recorded matches has room.
    pub(crate) fn apply(
        &mut self,
        db: &mut DataBase,
        away: TeamID,
        home: TeamID,
        away10: Last10,
        home10: Last10,
        prediction: Prediction,
        outcome: Outcome,
    )
        requires
            old(self).wf(),
            old(db).wf(),
            Self::spec_predict(old(db)@, away, home, ()) == Ok::<Prediction, Error>(prediction),
            Self::holds(old(db)@, away, home, away10, home10),
            old(self).base.hits < usize::MAX,
        ensures
            final(self).wf(),
            final(db).wf(),
            Self::spec_predict_and_update(old(self).base@, old(db)@, away, home, outcome, ())
                == Ok::<(ModelBaseView, DataBaseView, Prediction), Error>(
                (final(self).base@, final(db)@, prediction),
            ),
    {
        let mut away10 = away10;
        let mut home10 = home10;
        let idx = self.base.exp2idx(prediction.winner_expectation(outcome));
        self.base.record(idx, prediction.outcome == outcome);
        away10.update(outcome);
        home10.update(outcome.reversed());
        db.update_last10(away10);
        db.update_last10(home10);
    }
}

impl Model for Last10GamesModel {
    type Record = Last10;

    type Evidence = ();

    open spec fn wf(&self) -> bool {
        self.base@.wf() && self.base@.resolution() == LAST10_RESOLUTION
    }

    open spec fn books(&self) -> ModelBaseView {
        self.base@
    }

    open spec fn evidence_wf(evidence: ()) -> bool {
        true
    }

    /// The records are the form records of the two competitors.
    open spec fn holds(
        db: DataBaseView,
        away: TeamID,
        home: TeamID,
        away_record: Last10,
        home_record: Last10,
    ) -> bool {
        &&& db.last10.contains_key(away)
        &&& db.last10.contains_key(home)
        &&& away_record@ == db.last10[away]
        &&& home_record@ == db.last10[home]
    }

    /// Each side is given its wins among its latest results, over the
    /// capacity of the window. Both competitors must have a form record,
    /// and both records must be well formed.
    open spec fn spec_predict(db: DataBaseView, away: TeamID, home: TeamID, evidence: ()) -> Result<
        Prediction,
        Error,
    > {
        if !db.last10.contains_key(away) || !db.last10.contains_key(home) {
            Err(Error::NotFound)
        } else if !db.last10[away].wf() || !db.last10[home].wf() {
            Err(Error::InvariantViolation)
        } else {
            Ok(
                Prediction::spec_from_expectations(
                    db.last10[away].spec_estimate(),
                    db.last10[home].spec_estimate(),
                ),
            )
        }
    }

    /// Each side's own result enters its own window: the away side's is
    /// the outcome as given, the home side's is the same outcome seen from
    /// the other side. The histogram gets one sample at the expectation
    /// that had been given to the winner. Nothing is counted when the count
    /// of recorded matches is at the end of its range.
    open spec fn spec_predict_and_update(
        books: ModelBaseView,
        db: DataBaseView,
        away: TeamID,
        home: TeamID,
        outcome: Outcome,
        evidence: (),
    ) -> Result<(ModelBaseView, DataBaseView, Prediction), Error> {
        match Self::spec_predict(db, away, home, ()) {
            Err(e) => Err(e),
            Ok(prediction) => {
                if books.hits == usize::MAX {
                    Err(Error::InvariantViolation)
                } else {
                    Ok(
                        (
                            books.spec_record(
                                prediction.spec_winner_expectation(outcome).bucket(
                                    LAST10_RESOLUTION as int,
                                ),
                                prediction.outcome == outcome,
                            ),
                            db.spec_update_last10(
                                db.last10[away].spec_update(outcome),
                            ).spec_update_last10(
                                db.last10[home].spec_update(outcome.spec_reversed()),
                            ),
                            prediction,
                        ),
                    )
                }
            },
        }
    }

    proof fn lemma_predicts_then_updates(
        books: ModelBaseView,
        db: DataBaseView,
        away: TeamID,
        home: TeamID,
        outcome: Outcome,
        evidence: (),
    ) {
    }

    fn predict(&self, db: &DataBase, away: TeamID, home: TeamID, evidence: &()) -> (r: Result<
        Prediction,
        Error,
    >) {
        match self.predict_and_get(db, away, home, evidence) {
            Ok((_, _, prediction)) => Ok(prediction),
            Err(e) => Err(e),
        }
    }

    fn predict_and_get(&self, db: &DataBase, away: TeamID, home: TeamID, evidence: &()) -> (r:
        Result<(Last10, Last10, Prediction), Error>) {
        let away10 = match db.get_last10(away) {
            Ok(record) => record,
            Err(e) => {
                return Err(e);
            },
        };
        let home10 = match db.get_last10(home) {
            Ok(record) => record,
            Err(e) => {
                return Err(e);
            },
        };
        if !away10.is_valid() || !home10.is_valid() {
            return Err(Error::InvariantViolation);
        }
        let prediction = Prediction::from_expectations(away10.estimate(), home10.estimate());
        Ok((away10, home10, prediction))
    }

    fn update(
        &mut self,
        db: &mut DataBase,
        away: TeamID,
        home: TeamID,
        outcome: Outcome,
        evidence: &(),
    ) -> (r: Result<(), Error>) {
        match self.predict_and_update(db, away, home, outcome, evidence) {
            Ok(_) => Ok(()),
            Err(e) => Err(e),
        }
    }

    fn predict_and_update(
        &mut self,
        db: &mut DataBase,
        away: TeamID,
        home: TeamID,
        outcome: Outcome,
        evidence: &(),
    ) -> (r: Result<Prediction, Error>) {
        let (away10, home10, prediction) = match self.predict_and_get(db, away, home, evidence) {
            Ok(found) => found,
            Err(e) => {
                return Err(e);
            },
        };
        if self.base.hits == usize::MAX {
            return Err(Error::InvariantViolation);
        }
        self.apply(db, away, home, away10, home10, prediction, outcome);
        Ok(prediction)
    }
}

/// When two different competitors meet, the form record of each takes its
/// own result of the match and nothing else: the away side the outcome as
/// given, the home side the outcome seen from the other side. No other form
/// record changes.
pub proof fn lemma_each_side_records_its_own_result(
    books: ModelBaseView,
    db: DataBaseView,
    away: TeamID,
    home: TeamID,
    outcome: Outcome,
)
    requires
        db.keyed(),
        away != home,
        Last10GamesModel::spec_predict_and_update(books, db, away, home, outcome, ()) is Ok,
    ensures
        ({
            let after = Last10GamesModel::spec_predict_and_update(
                books,
                db,
                away,
                home,
                outcome,
                (),
            )->Ok_0.1;
            &&& after.last10[away] == db.last10[away].spec_update(outcome)
            &&& after.last10[home] == db.last10[home].spec_update(outcome.spec_reversed())
            &&& after.last10.dom() == db.last10.dom()
            &&& forall|id: TeamID|
                id != away && id != home && db.last10.contains_key(id) ==> #[trigger] after.last10[id]
                    == db.last10[id]
            &&& after.teams == db.teams
            &&& after.h2h == db.h2h
        }),
{
    let first = db.spec_update_last10(db.last10[away].spec_update(outcome));
    let after = first.spec_update_last10(db.last10[home].spec_update(outcome.spec_reversed()));
    assert(db.last10[away].spec_update(outcome).id == away);
    assert(db.last10[home].spec_update(outcome.spec_reversed()).id == home);
    assert(first.last10.dom() =~= db.last10.dom());
    assert(after.last10.dom() =~= db.last10.dom());
}

} // verus!
