//! The model that predicts from skill ratings.
//!
//! The ratings live in the store. The rating system itself works on real
//! numbers and stands outside this crate: for every match its caller hands
//! in what the system concluded, and this model keeps the books.

use vstd::prelude::*;
use crate::data::db::{DataBase, DataBaseView, TeamID};
use crate::data::models::prediction::Prediction;
use crate::data::models::probability::{spec_cdf, spec_pmf, total, DiscreteProb, Prob};
use crate::data::models::teams::Team;
use crate::model::model::{Model, ModelBase, ModelBaseView};
use crate::outcome::{Error, Outcome};
use crate::rating::openskill::RatingStep;

verus! {

/// The largest bucket of this model's histogram: expectations are told
/// apart to one part in a thousand.
pub const RANKING_RESOLUTION: usize = 1000;

/// Predicts a match from the skill ratings of the two sides.
#[derive(Debug)]
pub struct RankingModel {
    pub base: ModelBase,
}

impl RankingModel {
    /// The prediction that the chance of the away side makes: the home side
    /// gets the rest.
    pub open spec fn spec_outlook(exp_away: Prob) -> Prediction {
        Prediction::spec_from_expectations(
            exp_away,
            Prob { num: (exp_away.den - exp_away.num) as u64, den: exp_away.den },
        )
    }

    /// A model that has seen no match.
    pub fn new() -> (r: RankingModel)
        ensures
            r.wf(),
            r.base@ == ModelBaseView::fresh(RANKING_RESOLUTION),
    {
        RankingModel { base: ModelBase::new(RANKING_RESOLUTION) }
    }

    /// How many matches the model has recorded.
    pub fn get_hits(&self) -> (r: usize)
        requires
            self.wf(),
        ensures
            r == total(self.base.dist@),
            r == self.base.hits,
    {
        self.base.get_hits()
    }

    /// The empirical distribution of the expectations that the model had
    /// given to the winners.
    pub fn get_prob(&self) -> (r: DiscreteProb)
        requires
            self.wf(),
        ensures
            r.pmf@ == spec_pmf(self.base.dist@),
            r.cdf@ == spec_cdf(self.base.dist@),
            r.wf(),
    {
        self.base.get_prob()
    }

    /// The bucket of this model's histogram that an expectation falls into.
    pub fn exp2idx(&self, exp: Prob) -> (r: usize)
        requires
            self.wf(),
            exp.wf(),
        ensures
            r == exp.bucket(RANKING_RESOLUTION as int),
            r <= RANKING_RESOLUTION,
    {
        self.base.exp2idx(exp)
    }

    /// Stores the new ratings and counts a match whose competitors and
    /// prediction are already at hand, when the count of recorded matches
    /// has room.
    pub(crate) fn apply(
        &mut self,
        db: &mut DataBase,
        away: TeamID,
        home: TeamID,
        away_team: Team,
        home_team: Team,
        predic: Prediction,
        outcome: Outcome,
        step: RatingStep,
    )
        requires
            old(self).wf(),
            old(db).wf(),
            step.wf(),
            Self::spec_predict(old(db)@, away, home, step) == Ok::<Prediction, Error>(predic),
            Self::holds(old(db)@, away, home, away_team, home_team),
            old(self).base.hits < usize::MAX,
        ensures
            final(self).wf(),
            final(db).wf(),
            Self::spec_predict_and_update(old(self).base@, old(db)@, away, home, outcome, step)
                == Ok::<(ModelBaseView, DataBaseView, Prediction), Error>(
                (final(self).base@, final(db)@, predic),
            ),
    {
        proof {
            db.lemma_keyed();
        }
        let mut away_team = away_team;
        let mut home_team = home_team;
        away_team.update(step.away);
        home_team.update(step.home);
        db.update_team_rating(away_team.id, away_team.rating);
        db.update_team_rating(home_team.id, home_team.rating);
        let winexp = predic.winner_expectation(outcome);
        let idx = self.base.exp2idx(winexp);
        self.base.record(idx, predic.outcome == outcome);
    }
}

impl Model for RankingModel {
    type Record = Team;

    /// What the rating system concluded about the match. A prediction
    /// reads the chance of the away side only.
    type Evidence = RatingStep;

    open spec fn wf(&self) -> bool {
        self.base@.wf() && self.base@.resolution() == RANKING_RESOLUTION
    }

    open spec fn books(&self) -> ModelBaseView {
        self.base@
    }

    open spec fn evidence_wf(evidence: RatingStep) -> bool {
        evidence.wf()
    }

    /// The records are the two competitors.
    open spec fn holds(
        db: DataBaseView,
        away: TeamID,
        home: TeamID,
        away_record: Team,
        home_record: Team,
    ) -> bool {
        &&& db.teams.contains_key(away)
        &&& db.teams.contains_key(home)
        &&& away_record == db.teams[away]
        &&& home_record == db.teams[home]
    }

    /// The away side is given the chance that the rating system gives it,
    /// the home side the rest. Both competitors must be registered.
    open spec fn spec_predict(
        db: DataBaseView,
        away: TeamID,
        home: TeamID,
        evidence: RatingStep,
    ) -> Result<Prediction, Error> {
        if !db.teams.contains_key(away) || !db.teams.contains_key(home) {
            Err(Error::NotFound)
        } else {
            Ok(Self::spec_outlook(evidence.exp_away))
        }
    }

    /// The away side gets its new rating first, then the home side; the
    /// histogram gets one sample at the expectation that had been given to
    /// the winner. Nothing changes when the count of recorded matches is at
    /// the end of its range.
    open spec fn spec_predict_and_update(
        books: ModelBaseView,
        db: DataBaseView,
        away: TeamID,
        home: TeamID,
        outcome: Outcome,
        evidence: RatingStep,
    ) -> Result<(ModelBaseView, DataBaseView, Prediction), Error> {
        match Self::spec_predict(db, away, home, evidence) {
            Err(e) => Err(e),
            Ok(prediction) => {
                if books.hits == usize::MAX {
                    Err(Error::InvariantViolation)
                } else {
                    Ok(
                        (
                            books.spec_record(
                                prediction.spec_winner_expectation(outcome).bucket(
                                    RANKING_RESOLUTION as int,
                                ),
                                prediction.outcome == outcome,
                            ),
                            db.spec_update_team_rating(away, evidence.away).spec_update_team_rating(
                                home,
                                evidence.home,
                            ),
                            prediction,
                        ),
                    )
                }
            },
        }
    }

    proof fn lemma_predicts_then_updates(
        books: ModelBaseView,
        db: DataBaseView,
        away: TeamID,
        home: TeamID,
        outcome: Outcome,
        evidence: RatingStep,
    ) {
    }

    fn predict(&self, db: &DataBase, away: TeamID, home: TeamID, evidence: &RatingStep) -> (r:
        Result<Prediction, Error>)
        ensures
            r is Ok ==> r->Ok_0.exp_away.num + r->Ok_0.exp_home.num == r->Ok_0.exp_away.den,
            r is Ok ==> r->Ok_0.exp_home.den == r->Ok_0.exp_away.den,
    {
        match self.predict_and_get(db, away, home, evidence) {
            Ok((_, _, prediction)) => Ok(prediction),
            Err(e) => Err(e),
        }
    }

    fn predict_and_get(&self, db: &DataBase, away: TeamID, home: TeamID, evidence: &RatingStep) -> (r:
        Result<(Team, Team, Prediction), Error>) {
        let team1 = match db.get_team(away) {
            Ok(team) => team,
            Err(e) => {
                return Err(e);
            },
        };
        let team2 = match db.get_team(home) {
            Ok(team) => team,
            Err(e) => {
                return Err(e);
            },
        };
        let exp_away = evidence.exp_away;
        let prediction = Prediction::from_expectations(exp_away, exp_away.complement());
        Ok((team1, team2, prediction))
    }

    fn update(
        &mut self,
        db: &mut DataBase,
        away: TeamID,
        home: TeamID,
        outcome: Outcome,
        evidence: &RatingStep,
    ) -> (r: Result<(), Error>) {
        match self.predict_and_update(db, away, home, outcome, evidence) {
            Ok(_) => Ok(()),
            Err(e) => Err(e),
        }
    }

    fn predict_and_update(
        &mut self,
        db: &mut DataBase,
        away: TeamID,
        home: TeamID,
        outcome: Outcome,
        evidence: &RatingStep,
    ) -> (r: Result<Prediction, Error>) {
        let (away_team, home_team, predic) = match self.predict_and_get(db, away, home, evidence) {
            Ok(found) => found,
            Err(e) => {
                return Err(e);
            },
        };
        if self.base.hits == usize::MAX {
            return Err(Error::InvariantViolation);
        }
        self.apply(db, away, home, away_team, home_team, predic, outcome, *evidence);
        Ok(predic)
    }
}

/// The two expectations of a rating prediction add up to one: they are
/// fractions over the same denominator whose numerators add up to it.
pub proof fn lemma_ranking_expectations_sum_to_one(exp_away: Prob)
    requires
        exp_away.wf(),
    ensures
        RankingModel::spec_outlook(exp_away).exp_away.den == RankingModel::spec_outlook(
            exp_away,
        ).exp_home.den,
        RankingModel::spec_outlook(exp_away).exp_away.num + RankingModel::spec_outlook(
            exp_away,
        ).exp_home.num == RankingModel::spec_outlook(exp_away).exp_away.den,
{
}

/// When two different competitors meet, each is stored with exactly the
/// rating that the rating system concluded for it, under its own name, and
/// nobody else's row changes. How the ratings move is the rating system's
/// matter.
pub proof fn lemma_update_stores_the_step(
    books: ModelBaseView,
    db: DataBaseView,
    away: TeamID,
    home: TeamID,
    outcome: Outcome,
    step: RatingStep,
)
    requires
        away != home,
        RankingModel::spec_predict_and_update(books, db, away, home, outcome, step) is Ok,
    ensures
        ({
            let after = RankingModel::spec_predict_and_update(
                books,
                db,
                away,
                home,
                outcome,
                step,
            )->Ok_0.1;
            &&& after.teams[away] == db.teams[away].spec_update(step.away)
            &&& after.teams[home] == db.teams[home].spec_update(step.home)
            &&& after.teams.dom() == db.teams.dom()
            &&& forall|id: TeamID|
                id != away && id != home && db.teams.contains_key(id) ==> #[trigger] after.teams[id]
                    == db.teams[id]
            &&& after.h2h == db.h2h
            &&& after.last10 == db.last10
        }),
{
    let first = db.spec_update_team_rating(away, step.away);
    let after = first.spec_update_team_rating(home, step.home);
    assert(first.teams.dom() =~= db.teams.dom());
    assert(after.teams.dom() =~= db.teams.dom());
}

} // verus!
