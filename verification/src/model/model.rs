//! What every model keeps besides its records: a calibration histogram and
//! a count of the predictions that came true.

use vstd::prelude::*;
use crate::data::db::{DataBase, DataBaseView, TeamID};
use crate::data::models::prediction::Prediction;
use crate::data::models::probability::{
    lemma_counts_give_distribution, lemma_total_bounds_each, lemma_total_prefix,
    lemma_total_update, lemma_total_zero, spec_cdf, spec_denominator, spec_pmf, total,
    DiscreteProb, Prob,
};
use crate::outcome::{Error, Outcome};

verus! {

/// The bookkeeping of one model. `dist` has one cell per bucket of
/// probability; a model with resolution `m` has `m + 1` cells. `hits` is
/// the number of matches recorded and `succ` the number of those whose
/// outcome the model had predicted.
#[derive(Debug)]
pub struct ModelBase {
    pub dist: Vec<usize>,
    pub succ: usize,
    pub hits: usize,
}

/// The mathematical content of a [`ModelBase`].
pub struct ModelBaseView {
    pub dist: Seq<usize>,
    pub succ: usize,
    pub hits: usize,
}

impl View for ModelBase {
    type V = ModelBaseView;

    open spec fn view(&self) -> ModelBaseView {
        ModelBaseView { dist: self.dist@, succ: self.succ, hits: self.hits }
    }
}

impl ModelBaseView {
    /// The histogram has at least two cells, its counts add up to the
    /// number of recorded matches, and no more predictions came true than
    /// were made.
    pub open spec fn wf(self) -> bool {
        &&& 2 <= self.dist.len() <= u32::MAX
        &&& total(self.dist) == self.hits
        &&& self.succ <= self.hits
    }

    /// The largest bucket index: a model with resolution `m` sorts
    /// expectations into `m + 1` buckets.
    pub open spec fn resolution(self) -> int {
        self.dist.len() - 1
    }

    /// The bookkeeping of a model that has seen no match.
    pub open spec fn fresh(resolution: usize) -> ModelBaseView {
        ModelBaseView { dist: Seq::new((resolution + 1) as nat, |i: int| 0usize), succ: 0, hits: 0 }
    }

    /// The bookkeeping after one more match, whose winner the model had
    /// given the expectation that falls into `bucket`; `hit` tells whether
    /// the predicted outcome came true.
    pub open spec fn spec_record(self, bucket: int, hit: bool) -> ModelBaseView {
        ModelBaseView {
            dist: self.dist.update(bucket, (self.dist[bucket] + 1) as usize),
            succ: if hit {
                (self.succ + 1) as usize
            } else {
                self.succ
            },
            hits: (self.hits + 1) as usize,
        }
    }
}

impl ModelBaseView {
    /// The bookkeeping after the matches of `samples` are recorded one by
    /// one, each given as the bucket of the winner's expectation and
    /// whether the prediction came true.
    pub open spec fn spec_record_all(self, samples: Seq<(int, bool)>) -> ModelBaseView
        decreases samples.len(),
    {
        if samples.len() == 0 {
            self
        } else {
            self.spec_record_all(samples.drop_last()).spec_record(
                samples.last().0,
                samples.last().1,
            )
        }
    }
}

/// After any number of matches the histogram holds exactly one sample per
/// match recorded: its counts add up to the number of matches.
pub proof fn lemma_histogram_counts_updates(base: ModelBaseView, samples: Seq<(int, bool)>)
    requires
        base.wf(),
        base.hits + samples.len() <= usize::MAX,
        forall|i: int|
            0 <= i < samples.len() ==> 0 <= (#[trigger] samples[i]).0 <= base.resolution(),
    ensures
        base.spec_record_all(samples).wf(),
        base.spec_record_all(samples).resolution() == base.resolution(),
        base.spec_record_all(samples).hits == base.hits + samples.len(),
        total(base.spec_record_all(samples).dist) == total(base.dist) + samples.len(),
    decreases samples.len(),
{
    if samples.len() > 0 {
        let init = samples.drop_last();
        assert forall|i: int| 0 <= i < init.len() implies 0 <= (#[trigger] init[i]).0
            <= base.resolution() by {
            assert(init[i] == samples[i]);
        }
        lemma_histogram_counts_updates(base, init);
        lemma_record_counts_one(base.spec_record_all(init), samples.last().0, samples.last().1);
    }
}

/// Recording a match keeps the bookkeeping well formed and adds exactly one
/// sample to the histogram.
pub proof fn lemma_record_counts_one(base: ModelBaseView, bucket: int, hit: bool)
    requires
        base.wf(),
        0 <= bucket <= base.resolution(),
        base.hits < usize::MAX,
    ensures
        base.spec_record(bucket, hit).wf(),
        base.spec_record(bucket, hit).resolution() == base.resolution(),
        total(base.spec_record(bucket, hit).dist) == total(base.dist) + 1,
{
    lemma_total_bounds_each(base.dist, bucket);
    lemma_total_update(base.dist, bucket, (base.dist[bucket] + 1) as usize);
}

impl ModelBase {
    /// The bookkeeping of a model with the given resolution that has seen
    /// no match.
    pub fn new(resolution: usize) -> (r: ModelBase)
        requires
            1 <= resolution < u32::MAX,
        ensures
            r@ == ModelBaseView::fresh(resolution),
            r@.wf(),
            r@.resolution() == resolution,
    {
        let mut dist: Vec<usize> = Vec::new();
        let mut i: usize = 0;
        while i <= resolution
            invariant
                i <= resolution + 1,
                resolution < u32::MAX,
                dist@.len() == i,
                forall|j: int| 0 <= j < i ==> dist@[j] == 0,
            decreases resolution + 1 - i,
        {
            dist.push(0);
            i += 1;
        }
        proof {
            lemma_total_zero(dist@);
            assert(dist@ =~= ModelBaseView::fresh(resolution).dist);
        }
        ModelBase { dist, succ: 0, hits: 0 }
    }

    /// How many matches have been recorded: the sum of the histogram.
    pub fn get_hits(&self) -> (r: usize)
        requires
            self@.wf(),
        ensures
            r == total(self.dist@),
    {
        self.hits
    }

    /// The bucket that an expectation falls into.
    pub fn exp2idx(&self, exp: Prob) -> (r: usize)
        requires
            self@.wf(),
            exp.wf(),
        ensures
            r == exp.bucket(self@.resolution()),
            r <= self@.resolution(),
    {
        exp.to_bucket(self.dist.len() - 1)
    }

    /// Records one match.
    pub fn record(&mut self, bucket: usize, hit: bool)
        requires
            old(self)@.wf(),
            bucket <= old(self)@.resolution(),
            old(self).hits < usize::MAX,
        ensures
            final(self)@ == old(self)@.spec_record(bucket as int, hit),
            final(self)@.wf(),
            final(self)@.resolution() == old(self)@.resolution(),
    {
        proof {
            lemma_record_counts_one(self@, bucket as int, hit);
            lemma_total_bounds_each(self.dist@, bucket as int);
        }
        let count = self.dist[bucket];
        self.dist.set(bucket, count + 1);
        if hit {
            self.succ += 1;
        }
        self.hits += 1;
    }

    /// The empirical distribution of the recorded expectations.
    pub fn get_prob(&self) -> (r: DiscreteProb)
        requires
            self@.wf(),
        ensures
            r.pmf@ == spec_pmf(self.dist@),
            r.cdf@ == spec_cdf(self.dist@),
            r.wf(),
    {
        let n = self.dist.len();
        let den: u64 = if self.hits == 0 { 1 } else { self.hits as u64 };
        let mut pmf: Vec<Prob> = Vec::new();
        let mut cdf: Vec<Prob> = Vec::new();
        let mut sum: usize = 0;
        let mut i: usize = 0;
        while i < n
            invariant
                i <= n,
                n == self.dist@.len(),
                total(self.dist@) == self.hits,
                den == spec_denominator(self.dist@),
                sum == total(self.dist@.subrange(0, i as int)),
                pmf@.len() == i,
                cdf@.len() == i,
                forall|j: int| 0 <= j < i ==> pmf@[j] == spec_pmf(self.dist@)[j],
                forall|j: int| 0 <= j < i ==> cdf@[j] == spec_cdf(self.dist@)[j],
            decreases n - i,
        {
            proof {
                lemma_total_prefix(self.dist@, i as int, i + 1);
                lemma_total_prefix(self.dist@, i + 1, n as int);
                assert(self.dist@.subrange(0, n as int) =~= self.dist@);
                assert(self.dist@.subrange(0, i + 1).drop_last() =~= self.dist@.subrange(
                    0,
                    i as int,
                ));
            }
            let count = self.dist[i];
            sum = sum + count;
            pmf.push(Prob { num: count as u64, den });
            if i == n - 1 {
                cdf.push(Prob { num: den, den });
            } else {
                cdf.push(Prob { num: sum as u64, den });
            }
            i += 1;
        }
        proof {
            assert(pmf@ =~= spec_pmf(self.dist@));
            assert(cdf@ =~= spec_cdf(self.dist@));
            lemma_counts_give_distribution(self.dist@);
        }
        DiscreteProb { pmf, cdf }
    }
}

/// What every model offers: a prediction for a match, and the bookkeeping
/// of a match once it has been played. `Record` is what the model keeps in
/// the store for each side of a match. `Evidence` is what a model needs
/// from outside the store to judge one match; a model that predicts from
/// its records alone needs nothing.
pub trait Model: Sized {
    type Record;

    type Evidence;

    /// The bookkeeping is well formed and has the model's resolution.
    spec fn wf(&self) -> bool;

    /// The bookkeeping of the model.
    spec fn books(&self) -> ModelBaseView;

    /// Whether the evidence can be used.
    spec fn evidence_wf(evidence: Self::Evidence) -> bool;

    /// Whether `away_record` and `home_record` are what the store holds
    /// for the two sides of the match `away` at `home`.
    spec fn holds(
        db: DataBaseView,
        away: TeamID,
        home: TeamID,
        away_record: Self::Record,
        home_record: Self::Record,
    ) -> bool;

    /// The prediction for `away` at `home`, or the reason there is none.
    spec fn spec_predict(
        db: DataBaseView,
        away: TeamID,
        home: TeamID,
        evidence: Self::Evidence,
    ) -> Result<Prediction, Error>;

    /// The bookkeeping, the store and the prediction once the match `away`
    /// at `home` has ended with `outcome`, or the reason the match cannot
    /// be counted.
    spec fn spec_predict_and_update(
        books: ModelBaseView,
        db: DataBaseView,
        away: TeamID,
        home: TeamID,
        outcome: Outcome,
        evidence: Self::Evidence,
    ) -> Result<(ModelBaseView, DataBaseView, Prediction), Error>;

    /// Counting a match starts with predicting it: a match that cannot be
    /// predicted is refused for the same reason, and the prediction handed
    /// out with the update is the one made before it.
    proof fn lemma_predicts_then_updates(
        books: ModelBaseView,
        db: DataBaseView,
        away: TeamID,
        home: TeamID,
        outcome: Outcome,
        evidence: Self::Evidence,
    )
        ensures
            Self::spec_predict(db, away, home, evidence) is Err ==> Self::spec_predict_and_update(
                books,
                db,
                away,
                home,
                outcome,
                evidence,
            ) == Err::<(ModelBaseView, DataBaseView, Prediction), Error>(
                Self::spec_predict(db, away, home, evidence)->Err_0,
            ),
            Self::spec_predict_and_update(books, db, away, home, outcome, evidence) is Ok
                ==> Self::spec_predict(db, away, home, evidence) == Ok::<Prediction, Error>(
                Self::spec_predict_and_update(books, db, away, home, outcome, evidence)->Ok_0.2,
            ),
    ;

    /// Predicts the match `away` at `home`.
    fn predict(&self, db: &DataBase, away: TeamID, home: TeamID, evidence: &Self::Evidence) -> (r:
        Result<Prediction, Error>)
        requires
            db.wf(),
            Self::evidence_wf(*evidence),
        ensures
            r == Self::spec_predict(db@, away, home, *evidence),
            r is Ok ==> r->Ok_0.wf(),
    ;

    /// Predicts the match `away` at `home` and hands out the two records
    /// that the store holds for it.
    fn predict_and_get(
        &self,
        db: &DataBase,
        away: TeamID,
        home: TeamID,
        evidence: &Self::Evidence,
    ) -> (r: Result<(Self::Record, Self::Record, Prediction), Error>)
        requires
            db.wf(),
            Self::evidence_wf(*evidence),
        ensures
            match r {
                Ok((away_record, home_record, prediction)) => {
                    &&& Self::spec_predict(db@, away, home, *evidence) == Ok::<Prediction, Error>(
                        prediction,
                    )
                    &&& Self::holds(db@, away, home, away_record, home_record)
                    &&& prediction.wf()
                },
                Err(e) => Self::spec_predict(db@, away, home, *evidence) == Err::<
                    Prediction,
                    Error,
                >(e),
            },
    ;

    /// Counts the match `away` at `home` that ended with `outcome`. Either
    /// everything is counted or nothing changes.
    fn update(
        &mut self,
        db: &mut DataBase,
        away: TeamID,
        home: TeamID,
        outcome: Outcome,
        evidence: &Self::Evidence,
    ) -> (r: Result<(), Error>)
        requires
            old(self).wf(),
            old(db).wf(),
            Self::evidence_wf(*evidence),
        ensures
            final(self).wf(),
            final(db).wf(),
            match r {
                Ok(_) => {
                    let next = Self::spec_predict_and_update(
                        old(self).books(),
                        old(db)@,
                        away,
                        home,
                        outcome,
                        *evidence,
                    );
                    &&& next is Ok
                    &&& next->Ok_0.0 == final(self).books()
                    &&& next->Ok_0.1 == final(db)@
                },
                Err(e) => {
                    &&& Self::spec_predict_and_update(
                        old(self).books(),
                        old(db)@,
                        away,
                        home,
                        outcome,
                        *evidence,
                    ) == Err::<(ModelBaseView, DataBaseView, Prediction), Error>(e)
                    &&& final(self).books() == old(self).books()
                    &&& final(db)@ == old(db)@
                },
            },
    ;

    /// Predicts the match `away` at `home`, then counts it with the outcome
    /// it had. Either everything is counted or nothing changes.
    fn predict_and_update(
        &mut self,
        db: &mut DataBase,
        away: TeamID,
        home: TeamID,
        outcome: Outcome,
        evidence: &Self::Evidence,
    ) -> (r: Result<Prediction, Error>)
        requires
            old(self).wf(),
            old(db).wf(),
            Self::evidence_wf(*evidence),
        ensures
            final(self).wf(),
            final(db).wf(),
            match r {
                Ok(prediction) => {
                    &&& Self::spec_predict_and_update(
                        old(self).books(),
                        old(db)@,
                        away,
                        home,
                        outcome,
                        *evidence,
                    ) == Ok::<(ModelBaseView, DataBaseView, Prediction), Error>(
                        (final(self).books(), final(db)@, prediction),
                    )
                    &&& prediction.wf()
                },
                Err(e) => {
                    &&& Self::spec_predict_and_update(
                        old(self).books(),
                        old(db)@,
                        away,
                        home,
                        outcome,
                        *evidence,
                    ) == Err::<(ModelBaseView, DataBaseView, Prediction), Error>(e)
                    &&& final(self).books() == old(self).books()
                    &&& final(db)@ == old(db)@
                },
            },
    ;
}

} // verus!
