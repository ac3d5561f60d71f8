use std::collections::VecDeque;

use nhl_ranker::data::db::DataBase;
use nhl_ranker::data::models::head2head::Head2Head;
use nhl_ranker::data::models::last10::Last10;
use nhl_ranker::data::models::prediction::Prediction;
use nhl_ranker::data::models::probability::Prob;
use nhl_ranker::model::historical::{HistoricalMatchupModel, HISTORICAL_RESOLUTION};
use nhl_ranker::model::last10::{Last10GamesModel, LAST10_RESOLUTION};
use nhl_ranker::model::model::{Model, ModelBase};
use nhl_ranker::model::ranker::{RankingModel, RANKING_RESOLUTION};
use nhl_ranker::outcome::{Error, Outcome};
use nhl_ranker::rating::openskill::{Rating, RatingStep};

const A: i64 = 8;
const B: i64 = 10;

fn store() -> DataBase {
    let mut db = DataBase::new();
    for (id, name, abbrev) in [(A, "Montreal Canadiens", "MTL"), (B, "Toronto Maple Leafs", "TOR")] {
        db.add_team(id, String::from(name), String::from(abbrev));
        db.add_last10(id);
    }
    db.add_h2h(&Head2Head::new(A, B));
    db.add_h2h(&Head2Head::new(B, A));
    db
}

fn value(p: Prob) -> f64 {
    p.num as f64 / p.den as f64
}

fn step(ppb: u64) -> RatingStep {
    RatingStep {
        exp_away: Prob { num: ppb, den: 1_000_000_000 },
        away: Rating { rating: 26_000_000_000, uncertainty: 8_000_000_000 },
        home: Rating { rating: 24_000_000_000, uncertainty: 8_100_000_000 },
    }
}

#[test]
fn resolutions_are_a_thousand_a_thousand_and_ten() {
    assert_eq!(RANKING_RESOLUTION, 1000);
    assert_eq!(HISTORICAL_RESOLUTION, 1000);
    assert_eq!(LAST10_RESOLUTION, 10);
    assert_eq!(RankingModel::new().base.dist.len(), 1001);
    assert_eq!(HistoricalMatchupModel::new().base.dist.len(), 1001);
    assert_eq!(Last10GamesModel::new().base.dist.len(), 11);
}

#[test]
fn a_fresh_model_has_counted_nothing() {
    let model = HistoricalMatchupModel::new();
    assert_eq!(model.get_hits(), 0);
    assert_eq!(model.base.succ, 0);
    assert!(model.base.dist.iter().all(|c| *c == 0));
}

#[test]
fn exp2idx_uses_each_models_own_resolution() {
    let p = Prob { num: 637, den: 1000 };
    assert_eq!(RankingModel::new().exp2idx(p), 637);
    assert_eq!(HistoricalMatchupModel::new().exp2idx(p), 637);
    assert_eq!(Last10GamesModel::new().exp2idx(p), 6);
    assert_eq!(Last10GamesModel::new().exp2idx(Prob { num: 65, den: 100 }), 7);
    assert_eq!(RankingModel::new().exp2idx(Prob { num: 1, den: 1 }), 1000);
    assert_eq!(Last10GamesModel::new().exp2idx(Prob { num: 0, den: 1 }), 0);
}

#[test]
fn history_without_games_predicts_one_half_both_ways() {
    let db = store();
    let model = HistoricalMatchupModel::new();
    let there = model.predict(&db, A, B, &()).unwrap();
    assert_eq!(there.exp_away, Prob { num: 1, den: 2 });
    assert_eq!(there.exp_home, Prob { num: 1, den: 2 });
    assert_eq!(value(there.exp_away), 0.5);
    assert_eq!(value(there.exp_home), 0.5);
    assert_eq!(there.outcome, Outcome::Draw);
    let back = model.predict(&db, B, A, &()).unwrap();
    assert_eq!(value(back.exp_away), 0.5);
    assert_eq!(value(back.exp_home), 0.5);
}

#[test]
fn history_after_one_win_is_certain_both_ways() {
    let mut db = store();
    let mut model = HistoricalMatchupModel::new();
    model.update(&mut db, A, B, Outcome::Win, &()).unwrap();
    assert_eq!(db.get_h2h(A, B), Ok(Head2Head { team1: A, team2: B, total_games: 1, team_wins: 1 }));
    assert_eq!(db.get_h2h(B, A), Ok(Head2Head { team1: B, team2: A, total_games: 1, team_wins: 0 }));
    let there = model.predict(&db, A, B, &()).unwrap();
    assert_eq!(value(there.exp_away), 1.0);
    assert_eq!(value(there.exp_home), 0.0);
    assert_eq!(there.outcome, Outcome::Win);
    let back = model.predict(&db, B, A, &()).unwrap();
    assert_eq!(value(back.exp_away), 0.0);
    assert_eq!(value(back.exp_home), 1.0);
    assert_eq!(back.outcome, Outcome::Loss);
}

#[test]
fn history_frequencies_need_not_add_up_to_one() {
    let mut db = DataBase::new();
    db.add_h2h(&Head2Head { team1: A, team2: B, total_games: 4, team_wins: 3 });
    db.add_h2h(&Head2Head { team1: B, team2: A, total_games: 5, team_wins: 4 });
    let p = HistoricalMatchupModel::new().predict(&db, A, B, &()).unwrap();
    assert_eq!(p.exp_away, Prob { num: 3, den: 4 });
    assert_eq!(p.exp_home, Prob { num: 4, den: 5 });
    assert_eq!(value(p.exp_away) + value(p.exp_home), 1.55);
    assert_eq!(p.outcome, Outcome::Loss);
}

#[test]
fn history_counts_a_game_the_away_side_did_not_win_for_the_home_side() {
    let mut db = store();
    let mut model = HistoricalMatchupModel::new();
    model.update(&mut db, A, B, Outcome::Loss, &()).unwrap();
    model.update(&mut db, A, B, Outcome::Draw, &()).unwrap();
    assert_eq!(db.get_h2h(A, B), Ok(Head2Head { team1: A, team2: B, total_games: 2, team_wins: 0 }));
    assert_eq!(db.get_h2h(B, A), Ok(Head2Head { team1: B, team2: A, total_games: 2, team_wins: 2 }));
}

#[test]
fn history_predict_and_get_hands_out_both_records() {
    let mut db = DataBase::new();
    db.add_h2h(&Head2Head { team1: A, team2: B, total_games: 4, team_wins: 1 });
    db.add_h2h(&Head2Head { team1: B, team2: A, total_games: 4, team_wins: 3 });
    let (away, home, p) = HistoricalMatchupModel::new().predict_and_get(&db, A, B, &()).unwrap();
    assert_eq!(away, Head2Head { team1: A, team2: B, total_games: 4, team_wins: 1 });
    assert_eq!(home, Head2Head { team1: B, team2: A, total_games: 4, team_wins: 3 });
    assert_eq!(p, Prediction {
        exp_away: Prob { num: 1, den: 4 },
        exp_home: Prob { num: 3, den: 4 },
        outcome: Outcome::Loss,
    });
}

#[test]
fn history_returns_the_prediction_made_before_the_update() {
    let mut db = store();
    let mut model = HistoricalMatchupModel::new();
    let first = model.predict_and_update(&mut db, A, B, Outcome::Win, &()).unwrap();
    assert_eq!(first.exp_away, Prob { num: 1, den: 2 });
    assert_eq!(first.outcome, Outcome::Draw);
    let second = model.predict_and_update(&mut db, A, B, Outcome::Win, &()).unwrap();
    assert_eq!(second.exp_away, Prob { num: 1, den: 1 });
    assert_eq!(second.exp_home, Prob { num: 0, den: 1 });
    assert_eq!(second.outcome, Outcome::Win);
}

#[test]
fn history_keys_the_histogram_by_the_winners_expectation() {
    let mut db = DataBase::new();
    db.add_h2h(&Head2Head { team1: A, team2: B, total_games: 4, team_wins: 3 });
    db.add_h2h(&Head2Head { team1: B, team2: A, total_games: 4, team_wins: 1 });
    let mut model = HistoricalMatchupModel::new();
    // away won: its expectation was 3/4, predicted and came true
    model.predict_and_update(&mut db, A, B, Outcome::Win, &()).unwrap();
    assert_eq!(model.base.dist[750], 1);
    assert_eq!(model.base.succ, 1);
    // now 4/5 against 1/5; home won: its expectation was 0.2, prediction failed
    model.predict_and_update(&mut db, A, B, Outcome::Loss, &()).unwrap();
    assert_eq!(model.base.dist[200], 1);
    assert_eq!(model.base.succ, 1);
    assert_eq!(model.get_hits(), 2);
    assert_eq!(model.base.dist.iter().sum::<usize>(), 2);
}

#[test]
fn history_needs_both_directions_registered() {
    let mut db = DataBase::new();
    db.add_h2h(&Head2Head::new(A, B));
    let mut model = HistoricalMatchupModel::new();
    assert_eq!(model.predict(&db, A, B, &()), Err(Error::NotFound));
    assert_eq!(model.predict(&db, B, A, &()), Err(Error::NotFound));
    assert_eq!(model.predict_and_get(&db, A, B, &()).err(), Some(Error::NotFound));
    assert_eq!(model.update(&mut db, A, B, Outcome::Win, &()), Err(Error::NotFound));
    assert_eq!(model.predict_and_update(&mut db, A, B, Outcome::Win, &()), Err(Error::NotFound));
    assert_eq!(db.get_h2h(A, B), Ok(Head2Head::new(A, B)));
    assert_eq!(model.get_hits(), 0);
}

#[test]
fn history_refuses_a_record_with_more_wins_than_games() {
    let mut db = DataBase::new();
    db.add_h2h(&Head2Head { team1: A, team2: B, total_games: 1, team_wins: 2 });
    db.add_h2h(&Head2Head::new(B, A));
    let mut model = HistoricalMatchupModel::new();
    assert_eq!(model.predict(&db, A, B, &()), Err(Error::InvariantViolation));
    assert_eq!(
        model.predict_and_update(&mut db, B, A, Outcome::Win, &()),
        Err(Error::InvariantViolation)
    );
    assert_eq!(db.get_h2h(B, A), Ok(Head2Head::new(B, A)));
}

#[test]
fn history_refuses_to_count_past_the_largest_number_of_games() {
    let mut db = DataBase::new();
    let full = Head2Head { team1: A, team2: B, total_games: u32::MAX, team_wins: 7 };
    db.add_h2h(&full);
    db.add_h2h(&Head2Head::new(B, A));
    let mut model = HistoricalMatchupModel::new();
    assert!(model.predict(&db, A, B, &()).is_ok());
    assert_eq!(
        model.predict_and_update(&mut db, A, B, Outcome::Win, &()),
        Err(Error::InvariantViolation)
    );
    assert_eq!(db.get_h2h(A, B), Ok(full));
    assert_eq!(db.get_h2h(B, A), Ok(Head2Head::new(B, A)));
    assert_eq!(model.get_hits(), 0);
}

#[test]
fn form_predicts_wins_over_ten() {
    let mut db = store();
    let mut model = Last10GamesModel::new();
    let first = model.predict(&db, A, B, &()).unwrap();
    assert_eq!(first.exp_away, Prob { num: 0, den: 10 });
    assert_eq!(first.exp_home, Prob { num: 0, den: 10 });
    assert_eq!(first.outcome, Outcome::Draw);
    for _ in 0..3 {
        model.update(&mut db, A, 99, Outcome::Win, &()).unwrap_err();
    }
    let mut a = db.get_last10(A).unwrap();
    a.update(Outcome::Win);
    a.update(Outcome::Win);
    a.update(Outcome::Loss);
    db.update_last10(a);
    let p = model.predict(&db, A, B, &()).unwrap();
    assert_eq!(p.exp_away, Prob { num: 2, den: 10 });
    assert_eq!(value(p.exp_away), 0.2);
    assert_eq!(p.exp_home, Prob { num: 0, den: 10 });
    assert_eq!(p.outcome, Outcome::Win);
}

#[test]
fn ten_straight_wins_predict_certainty_and_an_eleventh_keeps_the_window() {
    let mut db = store();
    let mut model = Last10GamesModel::new();
    for _ in 0..10 {
        model.predict_and_update(&mut db, A, B, Outcome::Win, &()).unwrap();
    }
    let eleventh = model.predict(&db, A, B, &()).unwrap();
    assert_eq!(value(eleventh.exp_away), 1.0);
    assert_eq!(eleventh.exp_away, Prob { num: 10, den: 10 });
    assert_eq!(eleventh.exp_home, Prob { num: 0, den: 10 });
    assert_eq!(eleventh.outcome, Outcome::Win);
    model.predict_and_update(&mut db, A, B, Outcome::Win, &()).unwrap();
    let away = db.get_last10(A).unwrap();
    assert_eq!(away.games.len(), 10);
    assert_eq!((away.wins, away.loss), (10, 0));
    assert!(away.games.iter().all(|o| *o == Outcome::Win));
    let home = db.get_last10(B).unwrap();
    assert_eq!(home.games.len(), 10);
    assert_eq!((home.wins, home.loss), (0, 10));
}

#[test]
fn ten_straight_wins_at_home_predict_certainty_on_the_road() {
    let mut db = store();
    let mut model = Last10GamesModel::new();
    // the away side loses ten times: ten wins for the home side
    for _ in 0..10 {
        model.predict_and_update(&mut db, A, B, Outcome::Loss, &()).unwrap();
    }
    let home = db.get_last10(B).unwrap();
    assert_eq!((home.wins, home.loss), (10, 0));
    let on_the_road = model.predict(&db, B, A, &()).unwrap();
    assert_eq!(value(on_the_road.exp_away), 1.0);
    assert_eq!(value(on_the_road.exp_home), 0.0);
    assert_eq!(on_the_road.outcome, Outcome::Win);
}

#[test]
fn a_single_win_at_home_counts_as_a_win_of_the_home_side() {
    let mut db = store();
    let mut model = Last10GamesModel::new();
    model.predict_and_update(&mut db, A, B, Outcome::Loss, &()).unwrap();
    let winner = db.get_last10(B).unwrap();
    assert_eq!((winner.wins, winner.loss), (1, 0));
    let next = model.predict(&db, B, A, &()).unwrap();
    assert_eq!(next.exp_away, Prob { num: 1, den: 10 });
    assert_eq!(next.exp_home, Prob { num: 0, den: 10 });
}

#[test]
fn form_enters_each_sides_own_result_into_its_own_window() {
    let mut db = store();
    let mut model = Last10GamesModel::new();
    model.predict_and_update(&mut db, A, B, Outcome::Win, &()).unwrap();
    let away = db.get_last10(A).unwrap();
    let home = db.get_last10(B).unwrap();
    assert_eq!((away.wins, away.loss), (1, 0));
    assert_eq!((home.wins, home.loss), (0, 1));
    model.predict_and_update(&mut db, A, B, Outcome::Loss, &()).unwrap();
    let away = db.get_last10(A).unwrap();
    let home = db.get_last10(B).unwrap();
    assert_eq!(
        away.games.iter().copied().collect::<Vec<_>>(),
        vec![Outcome::Win, Outcome::Loss]
    );
    assert_eq!(
        home.games.iter().copied().collect::<Vec<_>>(),
        vec![Outcome::Loss, Outcome::Win]
    );
    assert_eq!((away.wins, away.loss), (1, 1));
    assert_eq!((home.wins, home.loss), (1, 1));
}

#[test]
fn form_enters_a_draw_into_both_windows_as_a_draw() {
    let mut db = store();
    let mut model = Last10GamesModel::new();
    model.predict_and_update(&mut db, A, B, Outcome::Draw, &()).unwrap();
    let away = db.get_last10(A).unwrap();
    let home = db.get_last10(B).unwrap();
    assert_eq!(away.games.iter().copied().collect::<Vec<_>>(), vec![Outcome::Draw]);
    assert_eq!(home.games.iter().copied().collect::<Vec<_>>(), vec![Outcome::Draw]);
    assert_eq!((away.wins, away.loss), (0, 1));
    assert_eq!((home.wins, home.loss), (0, 1));
}

#[test]
fn form_keys_the_histogram_by_the_winners_wins() {
    let mut db = store();
    let mut a = db.get_last10(A).unwrap();
    for _ in 0..7 {
        a.update(Outcome::Win);
    }
    db.update_last10(a);
    let mut b = db.get_last10(B).unwrap();
    for _ in 0..4 {
        b.update(Outcome::Win);
    }
    db.update_last10(b);
    let mut model = Last10GamesModel::new();
    let p = model.predict_and_update(&mut db, A, B, Outcome::Win, &()).unwrap();
    assert_eq!(p.outcome, Outcome::Win);
    assert_eq!(model.base.dist[7], 1);
    assert_eq!(model.base.succ, 1);
    let q = model.predict_and_update(&mut db, A, B, Outcome::Loss, &()).unwrap();
    assert_eq!(q.exp_away, Prob { num: 8, den: 10 });
    assert_eq!(q.exp_home, Prob { num: 4, den: 10 });
    assert_eq!(model.base.dist[4], 1);
    assert_eq!(model.base.succ, 1);
    assert_eq!(model.get_hits(), 2);
}

#[test]
fn form_needs_both_records_registered() {
    let mut db = DataBase::new();
    db.add_last10(A);
    let mut model = Last10GamesModel::new();
    assert_eq!(model.predict(&db, A, B, &()), Err(Error::NotFound));
    assert_eq!(model.predict(&db, B, A, &()), Err(Error::NotFound));
    assert_eq!(model.predict_and_update(&mut db, A, B, Outcome::Win, &()), Err(Error::NotFound));
    assert!(db.get_last10(A).unwrap().games.is_empty());
    assert_eq!(model.get_hits(), 0);
}

#[test]
fn form_refuses_a_window_whose_counts_are_wrong() {
    let mut db = store();
    let mut games = VecDeque::new();
    games.push_back(Outcome::Win);
    db.update_last10(Last10 { id: A, wins: 5, loss: 0, games });
    let mut model = Last10GamesModel::new();
    assert_eq!(model.predict(&db, A, B, &()), Err(Error::InvariantViolation));
    assert_eq!(
        model.predict_and_update(&mut db, B, A, Outcome::Win, &()),
        Err(Error::InvariantViolation)
    );
    assert!(db.get_last10(B).unwrap().games.is_empty());
}

#[test]
fn form_refuses_a_window_over_its_capacity() {
    let mut db = store();
    let mut games = VecDeque::new();
    for _ in 0..11 {
        games.push_back(Outcome::Loss);
    }
    db.update_last10(Last10 { id: B, wins: 0, loss: 11, games });
    assert_eq!(
        Last10GamesModel::new().predict(&db, A, B, &()),
        Err(Error::InvariantViolation)
    );
}

#[test]
fn rating_expectations_add_up_to_one() {
    let db = store();
    let model = RankingModel::new();
    for ppb in [0, 1, 333_333_333, 500_000_000, 622_459_331, 999_999_999, 1_000_000_000] {
        let p = model.predict(&db, A, B, &step(ppb)).unwrap();
        assert_eq!(p.exp_away.den, p.exp_home.den);
        assert_eq!(p.exp_away.num + p.exp_home.num, p.exp_away.den);
        assert_eq!(p.exp_away, Prob { num: ppb, den: 1_000_000_000 });
    }
}

#[test]
fn rating_prediction_follows_the_larger_expectation() {
    let db = store();
    let model = RankingModel::new();
    assert_eq!(model.predict(&db, A, B, &step(622_459_331)).unwrap().outcome, Outcome::Win);
    assert_eq!(model.predict(&db, A, B, &step(377_540_669)).unwrap().outcome, Outcome::Loss);
    assert_eq!(model.predict(&db, A, B, &step(500_000_000)).unwrap().outcome, Outcome::Draw);
    // 0.500004 against 0.499996: a gap of 0.000008
    assert_eq!(model.predict(&db, A, B, &step(500_004_000)).unwrap().outcome, Outcome::Draw);
    // 0.500005 against 0.499995: a gap of exactly 0.00001
    assert_eq!(model.predict(&db, A, B, &step(500_005_000)).unwrap().outcome, Outcome::Win);
}

#[test]
fn rating_predict_and_get_hands_out_both_competitors() {
    let db = store();
    let (away, home, p) = RankingModel::new().predict_and_get(&db, A, B, &step(600_000_000)).unwrap();
    assert_eq!((away.id, away.abbrev.as_str()), (A, "MTL"));
    assert_eq!((home.id, home.abbrev.as_str()), (B, "TOR"));
    assert_eq!(away.rating, Rating::new());
    assert_eq!(p.exp_home, Prob { num: 400_000_000, den: 1_000_000_000 });
}

#[test]
fn rating_update_stores_both_new_ratings() {
    let mut db = store();
    let mut model = RankingModel::new();
    let s = step(500_000_000);
    let p = model.predict_and_update(&mut db, A, B, Outcome::Win, &s).unwrap();
    assert_eq!(p.outcome, Outcome::Draw);
    assert_eq!(db.get_team(A).unwrap().rating, s.away);
    assert_eq!(db.get_team(B).unwrap().rating, s.home);
    assert_eq!(db.get_team(A).unwrap().name, "Montreal Canadiens");
    assert_eq!(model.base.dist[500], 1);
    assert_eq!(model.base.succ, 0);
    assert_eq!(model.get_hits(), 1);
}

#[test]
fn rating_keys_the_histogram_by_the_winners_expectation() {
    let mut db = store();
    let mut model = RankingModel::new();
    model.update(&mut db, A, B, Outcome::Win, &step(622_459_331)).unwrap();
    assert_eq!(model.base.dist[622], 1);
    assert_eq!(model.base.succ, 1);
    model.update(&mut db, A, B, Outcome::Loss, &step(622_459_331)).unwrap();
    assert_eq!(model.base.dist[378], 1);
    assert_eq!(model.base.succ, 1);
    model.update(&mut db, A, B, Outcome::Loss, &step(100_500_000)).unwrap();
    assert_eq!(model.base.dist[900], 1);
    assert_eq!(model.base.succ, 2);
    assert_eq!(model.get_hits(), 3);
}

#[test]
fn rating_needs_both_competitors_registered() {
    let mut db = store();
    let mut model = RankingModel::new();
    let s = step(600_000_000);
    assert_eq!(model.predict(&db, A, 99, &s), Err(Error::NotFound));
    assert_eq!(model.predict(&db, 99, B, &s), Err(Error::NotFound));
    assert_eq!(model.predict_and_get(&db, 99, 98, &s).err(), Some(Error::NotFound));
    assert_eq!(model.update(&mut db, A, 99, Outcome::Win, &s), Err(Error::NotFound));
    assert_eq!(model.predict_and_update(&mut db, 99, B, Outcome::Win, &s), Err(Error::NotFound));
    assert_eq!(db.get_team(A).unwrap().rating, Rating::new());
    assert_eq!(db.get_team(B).unwrap().rating, Rating::new());
    assert_eq!(model.get_hits(), 0);
}

#[test]
fn a_model_at_the_end_of_its_count_refuses_and_changes_nothing() {
    let mut db = store();
    let mut dist = vec![0usize; 1001];
    dist[7] = usize::MAX;
    let mut model = RankingModel { base: ModelBase { dist, succ: 3, hits: usize::MAX } };
    let s = step(600_000_000);
    assert!(model.predict(&db, A, B, &s).is_ok());
    assert_eq!(
        model.predict_and_update(&mut db, A, B, Outcome::Win, &s),
        Err(Error::InvariantViolation)
    );
    assert_eq!(db.get_team(A).unwrap().rating, Rating::new());
    assert_eq!(model.base.dist[7], usize::MAX);
    assert_eq!(model.base.dist[600], 0);
    assert_eq!(model.base.succ, 3);
}

#[test]
fn the_histogram_holds_one_sample_per_update() {
    let mut db = store();
    let mut rank = RankingModel::new();
    let mut hist = HistoricalMatchupModel::new();
    let mut form = Last10GamesModel::new();
    let outcomes = [Outcome::Win, Outcome::Loss, Outcome::Loss, Outcome::Win, Outcome::Win];
    for (n, outcome) in outcomes.iter().enumerate() {
        rank.update(&mut db, A, B, *outcome, &step(100_000_000 * (n as u64 + 1))).unwrap();
        hist.update(&mut db, A, B, *outcome, &()).unwrap();
        form.update(&mut db, B, A, *outcome, &()).unwrap();
        assert_eq!(rank.base.dist.iter().sum::<usize>(), n + 1);
        assert_eq!(hist.base.dist.iter().sum::<usize>(), n + 1);
        assert_eq!(form.base.dist.iter().sum::<usize>(), n + 1);
        assert_eq!(rank.get_hits(), n + 1);
        assert_eq!(hist.get_hits(), n + 1);
        assert_eq!(form.get_hits(), n + 1);
        assert!(rank.base.succ <= n + 1);
    }
}

#[test]
fn the_distribution_is_counts_over_samples() {
    let mut dist = vec![0usize; 11];
    dist[0] = 1;
    dist[3] = 2;
    dist[7] = 1;
    let model = Last10GamesModel { base: ModelBase { dist, succ: 2, hits: 4 } };
    let d = model.get_prob();
    assert_eq!(d.pmf.len(), 11);
    assert_eq!(d.cdf.len(), 11);
    assert_eq!(d.pmf[0], Prob { num: 1, den: 4 });
    assert_eq!(d.pmf[1], Prob { num: 0, den: 4 });
    assert_eq!(d.pmf[3], Prob { num: 2, den: 4 });
    assert_eq!(value(d.pmf[3]), 0.5);
    assert_eq!(d.pmf[7], Prob { num: 1, den: 4 });
    let cumulative: Vec<u64> = d.cdf.iter().map(|p| p.num).collect();
    assert_eq!(cumulative, vec![1, 1, 1, 3, 3, 3, 3, 4, 4, 4, 4]);
    assert!(d.cdf.iter().all(|p| p.den == 4));
    assert_eq!(value(d.cdf[10]), 1.0);
    assert_eq!(d.pmf.iter().map(|p| p.num).sum::<u64>(), 4);
}

#[test]
fn the_cumulative_distribution_never_decreases_and_ends_at_one() {
    let mut db = store();
    let mut hist = HistoricalMatchupModel::new();
    let outcomes = [
        Outcome::Win, Outcome::Win, Outcome::Loss, Outcome::Win, Outcome::Loss, Outcome::Loss,
        Outcome::Win, Outcome::Win, Outcome::Win, Outcome::Loss, Outcome::Win,
    ];
    for outcome in outcomes {
        hist.update(&mut db, A, B, outcome, &()).unwrap();
    }
    let d = hist.get_prob();
    assert_eq!(d.cdf.len(), 1001);
    for i in 1..d.cdf.len() {
        assert!(d.cdf[i - 1].num <= d.cdf[i].num);
        assert_eq!(d.cdf[i].den, 11);
        assert!(d.cdf[i].is_valid());
        assert!(d.pmf[i].is_valid());
    }
    assert_eq!(value(d.cdf[1000]), 1.0);
    assert_eq!(d.cdf[1000], Prob { num: 11, den: 11 });
}

#[test]
fn the_distribution_of_a_fresh_model_is_all_zero_but_ends_at_one() {
    let d = RankingModel::new().get_prob();
    assert_eq!(d.pmf.len(), 1001);
    assert!(d.pmf.iter().all(|p| *p == Prob { num: 0, den: 1 }));
    assert!(d.cdf[..1000].iter().all(|p| *p == Prob { num: 0, den: 1 }));
    assert_eq!(d.cdf[1000], Prob { num: 1, den: 1 });
    assert_eq!(value(d.cdf[1000]), 1.0);
}
