//! The orchestrator: three models fed the same matches in the same order.

use vstd::prelude::*;
use crate::data::db::{in_listing, DataBase, DataBaseView, TeamID};
use crate::data::models::teams::TeamResponse;
use crate::data::models::games::Game;
use crate::data::models::prediction::Prediction;
use crate::data::models::probability::{
    lemma_bucket_bound, lemma_total_bounds_each, lemma_total_update, lemma_total_zero, total, Prob,
};
use crate::model::historical::{HistoricalMatchupModel, HISTORICAL_RESOLUTION};
use crate::model::last10::{Last10GamesModel, LAST10_RESOLUTION};
use crate::model::model::{lemma_record_counts_one, Model, ModelBaseView};
use crate::model::ranker::{RankingModel, RANKING_RESOLUTION};
use crate::outcome::Error;
use crate::rating::openskill::RatingStep;

verus! {

/// The number of cells of the joint histogram: one for every triple of a
/// rating bucket, a history bucket and a form bucket.
pub const JOINT_CELLS: usize = 11_022_011;

/// Three models over one store, the joint histogram of what they favoured,
/// and the number of matches processed.
pub struct State {
    db: DataBase,
    ranker: RankingModel,
    hist: HistoricalMatchupModel,
    last10: Last10GamesModel,
    dist: Vec<usize>,
    ngames: usize,
}

/// The content of a [`State`].
pub struct StateView {
    pub db: DataBaseView,
    pub ranker: ModelBaseView,
    pub hist: ModelBaseView,
    pub last10: ModelBaseView,
    pub dist: Seq<usize>,
    pub ngames: usize,
}

/// The cell of the joint histogram for a rating bucket, a history bucket and
/// a form bucket: the cells are laid out with the form bucket running
/// fastest and the rating bucket slowest.
pub open spec fn joint_index(rank: int, hist: int, last10: int) -> int {
    (rank * (HISTORICAL_RESOLUTION + 1) + hist) * (LAST10_RESOLUTION + 1) + last10
}

/// Every triple of buckets has a cell of its own.
pub proof fn lemma_joint_index_bound(rank: int, hist: int, last10: int)
    requires
        0 <= rank <= RANKING_RESOLUTION,
        0 <= hist <= HISTORICAL_RESOLUTION,
        0 <= last10 <= LAST10_RESOLUTION,
    ensures
        0 <= joint_index(rank, hist, last10) < JOINT_CELLS,
        joint_index(rank, hist, last10) == rank * 11011 + hist * 11 + last10,
{
    assert(rank * (HISTORICAL_RESOLUTION + 1) == rank * 1001) by (nonlinear_arith)
        requires HISTORICAL_RESOLUTION == 1000;
    assert((rank * 1001 + hist) * (LAST10_RESOLUTION + 1) == rank * 11011 + hist * 11)
        by (nonlinear_arith)
        requires LAST10_RESOLUTION == 10;
}

/// Two triples of buckets share a cell only when they are the same triple.
pub proof fn lemma_joint_index_injective(r1: int, h1: int, l1: int, r2: int, h2: int, l2: int)
    requires
        0 <= r1 <= RANKING_RESOLUTION,
        0 <= h1 <= HISTORICAL_RESOLUTION,
        0 <= l1 <= LAST10_RESOLUTION,
        0 <= r2 <= RANKING_RESOLUTION,
        0 <= h2 <= HISTORICAL_RESOLUTION,
        0 <= l2 <= LAST10_RESOLUTION,
        joint_index(r1, h1, l1) == joint_index(r2, h2, l2),
    ensures
        r1 == r2 && h1 == h2 && l1 == l2,
{
    lemma_joint_index_bound(r1, h1, l1);
    lemma_joint_index_bound(r2, h2, l2);
}

impl StateView {
    /// The orchestrator over `db` before any match.
    pub open spec fn fresh(db: DataBaseView) -> StateView {
        StateView {
            db,
            ranker: ModelBaseView::fresh(RANKING_RESOLUTION),
            hist: ModelBaseView::fresh(HISTORICAL_RESOLUTION),
            last10: ModelBaseView::fresh(LAST10_RESOLUTION),
            dist: Seq::new(JOINT_CELLS as nat, |i: int| 0usize),
            ngames: 0,
        }
    }

    /// The count in the cell of a triple of buckets.
    pub open spec fn joint(self, rank: int, hist: int, last10: int) -> usize {
        self.dist[joint_index(rank, hist, last10)]
    }

    /// The cell that the three predictions of one match fall into: each
    /// model's favoured expectation, in that model's own buckets.
    pub open spec fn spec_cell(predictions: (Prediction, Prediction, Prediction)) -> int {
        joint_index(
            predictions.0.spec_favoured_expectation().bucket(RANKING_RESOLUTION as int),
            predictions.1.spec_favoured_expectation().bucket(HISTORICAL_RESOLUTION as int),
            predictions.2.spec_favoured_expectation().bucket(LAST10_RESOLUTION as int),
        )
    }

    /// The state after one match and the three predictions made for it, in
    /// the order rating, history, form. The models are fed in that order;
    /// the first one that refuses decides the error, and then nothing at
    /// all has changed.
    pub open spec fn spec_process_game(self, game: Game, step: RatingStep) -> Result<
        (StateView, (Prediction, Prediction, Prediction)),
        Error,
    > {
        let away = game.away_id;
        let home = game.home_id;
        let outcome = game.spec_outcome();
        match RankingModel::spec_predict_and_update(self.ranker, self.db, away, home, outcome, step) {
            Err(e) => Err(e),
            Ok((ranker, db1, pred1)) => match HistoricalMatchupModel::spec_predict_and_update(
                self.hist,
                db1,
                away,
                home,
                outcome,
                (),
            ) {
                Err(e) => Err(e),
                Ok((hist, db2, pred2)) => match Last10GamesModel::spec_predict_and_update(
                    self.last10,
                    db2,
                    away,
                    home,
                    outcome,
                    (),
                ) {
                    Err(e) => Err(e),
                    Ok((last10, db3, pred3)) => {
                        if self.ngames == usize::MAX {
                            Err(Error::InvariantViolation)
                        } else {
                            let cell = Self::spec_cell((pred1, pred2, pred3));
                            Ok(
                                (
                                    StateView {
                                        db: db3,
                                        ranker,
                                        hist,
                                        last10,
                                        dist: self.dist.update(
                                            cell,
                                            (self.dist[cell] + 1) as usize,
                                        ),
                                        ngames: (self.ngames + 1) as usize,
                                    },
                                    (pred1, pred2, pred3),
                                ),
                            )
                        }
                    },
                },
            },
        }
    }

    /// The state after the matches of `events` were processed in order,
    /// and how the run ended. The run stops at the first match that is
    /// refused; the matches before it stay counted.
    pub open spec fn spec_process_games(self, events: Seq<(Game, RatingStep)>) -> (
        StateView,
        Result<(), Error>,
    )
        decreases events.len(),
    {
        if events.len() == 0 {
            (self, Ok(()))
        } else {
            match self.spec_process_game(events[0].0, events[0].1) {
                Err(e) => (self, Err(e)),
                Ok((next, _)) => next.spec_process_games(events.drop_first()),
            }
        }
    }

    /// For each model, in the order rating, history, form: the predictions
    /// that came true, the matches processed, and the one over the other.
    pub open spec fn spec_accuracy(self) -> Seq<(usize, usize, Prob)> {
        seq![
            (
                self.ranker.succ,
                self.ngames,
                Prob { num: self.ranker.succ as u64, den: self.ngames as u64 },
            ),
            (
                self.hist.succ,
                self.ngames,
                Prob { num: self.hist.succ as u64, den: self.ngames as u64 },
            ),
            (
                self.last10.succ,
                self.ngames,
                Prob { num: self.last10.succ as u64, den: self.ngames as u64 },
            ),
        ]
    }
}

impl StateView {
    /// The joint histogram has all its cells, and it and the histogram of
    /// every model hold exactly one sample per match processed.
    pub open spec fn counted(self) -> bool {
        &&& self.dist.len() == JOINT_CELLS
        &&& total(self.dist) == self.ngames
        &&& self.ranker.wf() && self.ranker.resolution() == RANKING_RESOLUTION
        &&& self.hist.wf() && self.hist.resolution() == HISTORICAL_RESOLUTION
        &&& self.last10.wf() && self.last10.resolution() == LAST10_RESOLUTION
        &&& self.ranker.hits == self.ngames
        &&& self.hist.hits == self.ngames
        &&& self.last10.hits == self.ngames
    }
}

/// Every match that is accepted adds exactly one sample to the joint
/// histogram and to the histogram of each model, and one to the number of
/// matches processed.
pub proof fn lemma_game_counts_once(state: StateView, game: Game, step: RatingStep)
    requires
        state.counted(),
        step.wf(),
        state.spec_process_game(game, step) is Ok,
    ensures
        state.spec_process_game(game, step)->Ok_0.0.counted(),
        state.spec_process_game(game, step)->Ok_0.0.ngames == state.ngames + 1,
{
    let away = game.away_id;
    let home = game.home_id;
    let outcome = game.spec_outcome();
    let first = RankingModel::spec_predict_and_update(
        state.ranker,
        state.db,
        away,
        home,
        outcome,
        step,
    );
    let (ranker, db1, pred1) = first->Ok_0;
    let second = HistoricalMatchupModel::spec_predict_and_update(
        state.hist,
        db1,
        away,
        home,
        outcome,
        (),
    );
    let (hist, db2, pred2) = second->Ok_0;
    let third = Last10GamesModel::spec_predict_and_update(
        state.last10,
        db2,
        away,
        home,
        outcome,
        (),
    );
    let (last10, db3, pred3) = third->Ok_0;
    assert(pred1.exp_away.wf() && pred1.exp_home.wf());
    assert(pred2.exp_away.wf() && pred2.exp_home.wf());
    assert(pred3.exp_away.wf() && pred3.exp_home.wf()) by {
        crate::data::models::last10::lemma_count_wins_bound(db2.last10[away].games);
        crate::data::models::last10::lemma_count_wins_bound(db2.last10[home].games);
    }
    lemma_bucket_bound(pred1.spec_winner_expectation(outcome), RANKING_RESOLUTION as int);
    lemma_bucket_bound(pred2.spec_winner_expectation(outcome), HISTORICAL_RESOLUTION as int);
    lemma_bucket_bound(pred3.spec_winner_expectation(outcome), LAST10_RESOLUTION as int);
    lemma_bucket_bound(pred1.spec_favoured_expectation(), RANKING_RESOLUTION as int);
    lemma_bucket_bound(pred2.spec_favoured_expectation(), HISTORICAL_RESOLUTION as int);
    lemma_bucket_bound(pred3.spec_favoured_expectation(), LAST10_RESOLUTION as int);
    lemma_record_counts_one(
        state.ranker,
        pred1.spec_winner_expectation(outcome).bucket(RANKING_RESOLUTION as int),
        pred1.outcome == outcome,
    );
    lemma_record_counts_one(
        state.hist,
        pred2.spec_winner_expectation(outcome).bucket(HISTORICAL_RESOLUTION as int),
        pred2.outcome == outcome,
    );
    lemma_record_counts_one(
        state.last10,
        pred3.spec_winner_expectation(outcome).bucket(LAST10_RESOLUTION as int),
        pred3.outcome == outcome,
    );
    let cell = StateView::spec_cell((pred1, pred2, pred3));
    lemma_joint_index_bound(
        pred1.spec_favoured_expectation().bucket(RANKING_RESOLUTION as int),
        pred2.spec_favoured_expectation().bucket(HISTORICAL_RESOLUTION as int),
        pred3.spec_favoured_expectation().bucket(LAST10_RESOLUTION as int),
    );
    lemma_total_bounds_each(state.dist, cell);
    lemma_total_update(state.dist, cell, (state.dist[cell] + 1) as usize);
}

/// However many matches are fed, the histograms hold one sample per match
/// that was accepted.
pub proof fn lemma_games_count_once(state: StateView, events: Seq<(Game, RatingStep)>)
    requires
        state.counted(),
        forall|i: int| 0 <= i < events.len() ==> (#[trigger] events[i]).1.wf(),
    ensures
        state.spec_process_games(events).0.counted(),
        state.ngames <= state.spec_process_games(events).0.ngames <= state.ngames + events.len(),
        state.spec_process_games(events).1 is Ok ==> state.spec_process_games(events).0.ngames
            == state.ngames + events.len(),
    decreases events.len(),
{
    if events.len() > 0 {
        let first = state.spec_process_game(events[0].0, events[0].1);
        if first is Ok {
            lemma_game_counts_once(state, events[0].0, events[0].1);
            let rest = events.drop_first();
            assert forall|i: int| 0 <= i < rest.len() implies (#[trigger] rest[i]).1.wf() by {
                assert(rest[i] == events[i + 1]);
            }
            lemma_games_count_once(first->Ok_0.0, rest);
        }
    }
}

impl View for State {
    type V = StateView;

    closed spec fn view(&self) -> StateView {
        StateView {
            db: self.db@,
            ranker: self.ranker.base@,
            hist: self.hist.base@,
            last10: self.last10.base@,
            dist: self.dist@,
            ngames: self.ngames,
        }
    }
}

impl State {
    /// The store and the three models are well formed, the joint histogram
    /// has all its cells, and it and every model have counted exactly the
    /// matches processed.
    pub closed spec fn wf(&self) -> bool {
        &&& self.db.wf()
        &&& self.ranker.wf()
        &&& self.hist.wf()
        &&& self.last10.wf()
        &&& self.dist@.len() == JOINT_CELLS
        &&& total(self.dist@) == self.ngames
        &&& self.ranker.base.hits == self.ngames
        &&& self.hist.base.hits == self.ngames
        &&& self.last10.base.hits == self.ngames
    }

    /// In a well-formed state the joint histogram and the histogram of
    /// every model hold one sample per match processed, and no model has
    /// more predictions come true than matches were processed.
    pub proof fn lemma_counts(&self)
        requires
            self.wf(),
        ensures
            self@.counted(),
            total(self@.dist) == self@.ngames,
            total(self@.ranker.dist) == self@.ngames,
            total(self@.hist.dist) == self@.ngames,
            total(self@.last10.dist) == self@.ngames,
            self@.ranker.succ <= self@.ngames,
            self@.hist.succ <= self@.ngames,
            self@.last10.succ <= self@.ngames,
    {
    }

    /// An orchestrator over `db` that has processed no match.
    pub fn new(db: DataBase) -> (r: State)
        requires
            db.wf(),
        ensures
            r.wf(),
            r@ == StateView::fresh(db@),
    {
        let mut dist: Vec<usize> = Vec::new();
        let mut i: usize = 0;
        while i < JOINT_CELLS
            invariant
                i <= JOINT_CELLS,
                dist@.len() == i,
                forall|j: int| 0 <= j < i ==> dist@[j] == 0,
            decreases JOINT_CELLS - i,
        {
            dist.push(0);
            i += 1;
        }
        proof {
            lemma_total_zero(dist@);
            assert(dist@ =~= StateView::fresh(db@).dist);
        }
        State {
            db,
            ranker: RankingModel::new(),
            hist: HistoricalMatchupModel::new(),
            last10: Last10GamesModel::new(),
            dist,
            ngames: 0,
        }
    }

    /// The store.
    pub fn database(&self) -> (r: &DataBase)
        ensures
            r@ == self@.db,
            self.wf() ==> r.wf(),
    {
        &self.db
    }

    /// Gives the store back and ends the run.
    pub fn into_database(self) -> (r: DataBase)
        ensures
            r@ == self@.db,
            self.wf() ==> r.wf(),
    {
        self.db
    }

    /// The rating model.
    pub fn ranker(&self) -> (r: &RankingModel)
        ensures
            r.base@ == self@.ranker,
            self.wf() ==> r.wf(),
    {
        &self.ranker
    }

    /// The history model.
    pub fn hist(&self) -> (r: &HistoricalMatchupModel)
        ensures
            r.base@ == self@.hist,
            self.wf() ==> r.wf(),
    {
        &self.hist
    }

    /// The form model.
    pub fn last10(&self) -> (r: &Last10GamesModel)
        ensures
            r.base@ == self@.last10,
            self.wf() ==> r.wf(),
    {
        &self.last10
    }

    /// How many matches have been processed.
    pub fn ngames(&self) -> (r: usize)
        ensures
            r == self@.ngames,
    {
        self.ngames
    }

    /// How many matches fell into the cell of a triple of buckets.
    pub fn joint(&self, rank: usize, hist: usize, last10: usize) -> (r: usize)
        requires
            self.wf(),
            rank <= RANKING_RESOLUTION,
            hist <= HISTORICAL_RESOLUTION,
            last10 <= LAST10_RESOLUTION,
        ensures
            r == self@.joint(rank as int, hist as int, last10 as int),
    {
        proof {
            lemma_joint_index_bound(rank as int, hist as int, last10 as int);
        }
        assert(rank * (HISTORICAL_RESOLUTION + 1) == rank * 1001) by (nonlinear_arith)
            requires HISTORICAL_RESOLUTION == 1000;
        assert((rank * 1001 + hist) * (LAST10_RESOLUTION + 1) == rank * 11011 + hist * 11)
            by (nonlinear_arith)
            requires LAST10_RESOLUTION == 10;
        self.dist[(rank * (HISTORICAL_RESOLUTION + 1) + hist) * (LAST10_RESOLUTION + 1) + last10]
    }

    /// Feeds one match to the three models, in the order rating, history,
    /// form, and counts it in the joint histogram. Either the match is
    /// counted everywhere or nothing changes.
    #[verifier::rlimit(40)]
    pub fn process_game(&mut self, game: &Game, step: RatingStep) -> (r: Result<
        [Prediction; 3],
        Error,
    >)
        requires
            old(self).wf(),
            step.wf(),
        ensures
            final(self).wf(),
            match r {
                Ok(predictions) => {
                    &&& old(self)@.spec_process_game(*game, step) == Ok::<
                        (StateView, (Prediction, Prediction, Prediction)),
                        Error,
                    >((final(self)@, (predictions[0], predictions[1], predictions[2])))
                    &&& predictions[0].wf() && predictions[1].wf() && predictions[2].wf()
                },
                Err(e) => {
                    &&& old(self)@.spec_process_game(*game, step) == Err::<
                        (StateView, (Prediction, Prediction, Prediction)),
                        Error,
                    >(e)
                    &&& final(self)@ == old(self)@
                },
            },
    {
        let (away, home) = game.ids();
        let outcome = game.outcome();
        let (away_team, home_team, pred1) = match self.ranker.predict_and_get(
            &self.db,
            away,
            home,
            &step,
        ) {
            Ok(found) => found,
            Err(e) => {
                return Err(e);
            },
        };
        if self.ngames == usize::MAX {
            return Err(Error::InvariantViolation);
        }
        let (h2h_away, h2h_home, pred2) = match self.hist.predict_and_get(
            &self.db,
            away,
            home,
            &(),
        ) {
            Ok(found) => found,
            Err(e) => {
                return Err(e);
            },
        };
        if h2h_away.total_games == u32::MAX || h2h_home.total_games == u32::MAX {
            return Err(Error::InvariantViolation);
        }
        let (away10, home10, pred3) = match self.last10.predict_and_get(
            &self.db,
            away,
            home,
            &(),
        ) {
            Ok(found) => found,
            Err(e) => {
                return Err(e);
            },
        };
        let idxr = self.ranker.exp2idx(pred1.favoured_expectation());
        let idxh = self.hist.exp2idx(pred2.favoured_expectation());
        let idx10 = self.last10.exp2idx(pred3.favoured_expectation());
        proof {
            lemma_joint_index_bound(idxr as int, idxh as int, idx10 as int);
        }
        assert(idxr * (HISTORICAL_RESOLUTION + 1) == idxr * 1001) by (nonlinear_arith)
            requires HISTORICAL_RESOLUTION == 1000;
        assert((idxr * 1001 + idxh) * (LAST10_RESOLUTION + 1) == idxr * 11011 + idxh * 11)
            by (nonlinear_arith)
            requires LAST10_RESOLUTION == 10;
        let cell = (idxr * (HISTORICAL_RESOLUTION + 1) + idxh) * (LAST10_RESOLUTION + 1) + idx10;
        proof {
            lemma_total_bounds_each(self.dist@, cell as int);
            lemma_total_update(self.dist@, cell as int, (self.dist@[cell as int] + 1) as usize);
        }
        let ghost db0 = self.db@;
        self.ranker.apply(&mut self.db, away, home, away_team, home_team, pred1, outcome, step);
        let ghost db1 = self.db@;
        proof {
            assert(db1 == db0.spec_update_team_rating(away, step.away).spec_update_team_rating(
                home,
                step.home,
            ));
            assert(db1.h2h == db0.h2h);
            assert(db1.last10 == db0.last10);
        }
        self.hist.apply(&mut self.db, away, home, h2h_away, h2h_home, pred2, outcome);
        let ghost db2 = self.db@;
        proof {
            assert(db2.last10 == db1.last10);
        }
        self.last10.apply(&mut self.db, away, home, away10, home10, pred3, outcome);
        let count = self.dist[cell];
        self.dist.set(cell, count + 1);
        self.ngames += 1;
        Ok([pred1, pred2, pred3])
    }

    /// Processes the matches of `events` in order, each with what the
    /// rating system concluded about it, and stops at the first one that is
    /// refused.
    pub fn process_games(&mut self, events: &Vec<(Game, RatingStep)>) -> (r: Result<(), Error>)
        requires
            old(self).wf(),
            forall|i: int| 0 <= i < events@.len() ==> (#[trigger] events@[i]).1.wf(),
        ensures
            final(self).wf(),
            (final(self)@, r) == old(self)@.spec_process_games(events@),
    {
        let mut i: usize = 0;
        proof {
            assert(events@.subrange(0, events@.len() as int) =~= events@);
        }
        while i < events.len()
            invariant
                i <= events@.len(),
                self.wf(),
                forall|j: int| 0 <= j < events@.len() ==> (#[trigger] events@[j]).1.wf(),
                old(self)@.spec_process_games(events@) == self@.spec_process_games(
                    events@.subrange(i as int, events@.len() as int),
                ),
            decreases events@.len() - i,
        {
            let ghost rest = events@.subrange(i as int, events@.len() as int);
            proof {
                assert(rest[0] == events@[i as int]);
                assert(rest.drop_first() =~= events@.subrange(i + 1, events@.len() as int));
            }
            let game = events[i].0;
            let step = events[i].1;
            match self.process_game(&game, step) {
                Ok(_) => {},
                Err(e) => {
                    return Err(e);
                },
            }
            i += 1;
        }
        Ok(())
    }

    /// The running accuracy of each model, in the order rating, history,
    /// form.
    pub fn get_accuracy(&self) -> (r: Vec<(usize, usize, Prob)>)
        ensures
            r@ == self@.spec_accuracy(),
    {
        let mut acc: Vec<(usize, usize, Prob)> = Vec::new();
        let h1 = self.ranker.base.succ;
        acc.push((h1, self.ngames, Prob { num: h1 as u64, den: self.ngames as u64 }));
        let h2 = self.hist.base.succ;
        acc.push((h2, self.ngames, Prob { num: h2 as u64, den: self.ngames as u64 }));
        let h3 = self.last10.base.succ;
        acc.push((h3, self.ngames, Prob { num: h3 as u64, den: self.ngames as u64 }));
        proof {
            assert(acc@ =~= self@.spec_accuracy());
        }
        acc
    }
}

/// Once a league is registered, no model is at a loss for a record when
/// two different competitors of the directory meet.
pub proof fn lemma_registered_league_is_found(
    before: DataBaseView,
    listing: Seq<TeamResponse>,
    after: DataBaseView,
    away: TeamID,
    home: TeamID,
    step: RatingStep,
)
    requires
        before.spec_registered(listing, after),
        in_listing(listing, away),
        in_listing(listing, home),
        away != home,
    ensures
        RankingModel::spec_predict(after, away, home, step) is Ok,
        HistoricalMatchupModel::spec_predict(after, away, home, ()) != Err::<Prediction, Error>(
            Error::NotFound,
        ),
        Last10GamesModel::spec_predict(after, away, home, ()) != Err::<Prediction, Error>(
            Error::NotFound,
        ),
{
    assert(after.teams.contains_key(away) && after.teams.contains_key(home));
    assert(after.last10.contains_key(away) && after.last10.contains_key(home));
    assert(after.h2h.contains_key((away, home)) && after.h2h.contains_key((home, away)));
}

/// Replaying the same matches from the same state always ends in the same
/// state with the same result: two orchestrators freshly built over stores
/// with the same content agree on every rating, counter and histogram
/// after the same sequence of matches.
pub proof fn lemma_replay_is_deterministic(
    db_one: DataBaseView,
    db_two: DataBaseView,
    events: Seq<(Game, RatingStep)>,
)
    requires
        db_one == db_two,
    ensures
        StateView::fresh(db_one).spec_process_games(events) == StateView::fresh(
            db_two,
        ).spec_process_games(events),
{
}

} // verus!
