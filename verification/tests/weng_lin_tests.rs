use nhl_ranker::data::db::DataBase;
use nhl_ranker::data::models::games::Game;
use nhl_ranker::data::models::head2head::Head2Head;
use nhl_ranker::data::models::probability::Prob;
use nhl_ranker::model::model::Model;
use nhl_ranker::model::ranker::RankingModel;
use nhl_ranker::model::state::State;
use nhl_ranker::outcome::Outcome;
use nhl_ranker::rating::openskill::{Rating, RatingStep, SkillRating, RATING_UNIT};
use skillratings::weng_lin::{expected_score, weng_lin, WengLinConfig, WengLinRating};
use skillratings::Outcomes;

const A: i64 = 8;
const B: i64 = 10;

fn config() -> WengLinConfig {
    WengLinConfig { beta: 25.0 / 6.0, uncertainty_tolerance: 0.000_001 }
}

fn to_float(r: Rating) -> WengLinRating {
    WengLinRating {
        rating: r.rating as f64 / RATING_UNIT as f64,
        uncertainty: r.uncertainty as f64 / RATING_UNIT as f64,
    }
}

fn to_fixed(r: WengLinRating) -> Rating {
    Rating {
        rating: (r.rating * RATING_UNIT as f64).round() as i64,
        uncertainty: (r.uncertainty * RATING_UNIT as f64).round() as i64,
    }
}

fn to_outcomes(o: Outcome) -> Outcomes {
    match o {
        Outcome::Win => Outcomes::WIN,
        Outcome::Loss => Outcomes::LOSS,
        Outcome::Draw => Outcomes::DRAW,
    }
}

fn rate(db: &DataBase, away: i64, home: i64, outcome: Outcome) -> RatingStep {
    let one = to_float(db.get_team(away).unwrap().rating);
    let two = to_float(db.get_team(home).unwrap().rating);
    let (exp_away, _) = expected_score(&one, &two, &config());
    let (new_one, new_two) = weng_lin(&one, &two, &to_outcomes(outcome), &config());
    RatingStep {
        exp_away: Prob::new((exp_away * 1e9).round() as u64, 1_000_000_000).unwrap(),
        away: to_fixed(new_one),
        home: to_fixed(new_two),
    }
}

fn store() -> DataBase {
    let mut db = DataBase::new();
    db.add_team(A, String::from("Montreal Canadiens"), String::from("MTL"));
    db.add_team(B, String::from("Toronto Maple Leafs"), String::from("TOR"));
    db.add_last10(A);
    db.add_last10(B);
    db.add_h2h(&Head2Head::new(A, B));
    db.add_h2h(&Head2Head::new(B, A));
    db
}

#[test]
fn an_away_win_between_newcomers_moves_the_means_apart_and_shrinks_both_uncertainties() {
    let mut db = store();
    let mut model = RankingModel::new();
    let before_away = db.get_team(A).unwrap().rating;
    let before_home = db.get_team(B).unwrap().rating;
    assert_eq!(before_away, Rating { rating: 25_000_000_000, uncertainty: 8_330_000_000 });
    assert_eq!(before_home, before_away);
    let step = rate(&db, A, B, Outcome::Win);
    let prediction = model.predict_and_update(&mut db, A, B, Outcome::Win, &step).unwrap();
    assert_eq!(prediction.exp_away, Prob { num: 500_000_000, den: 1_000_000_000 });
    assert_eq!(prediction.exp_home, Prob { num: 500_000_000, den: 1_000_000_000 });
    assert_eq!(prediction.outcome, Outcome::Draw);
    let after_away = db.get_team(A).unwrap().rating;
    let after_home = db.get_team(B).unwrap().rating;
    assert!(after_away.rating > before_away.rating);
    assert!(after_home.rating < before_home.rating);
    assert!(after_away.uncertainty < before_away.uncertainty);
    assert!(after_home.uncertainty < before_home.uncertainty);
    // equal ratings move by the same amount in opposite directions
    assert!(((after_away.rating - before_away.rating) - (before_home.rating - after_home.rating)).abs() <= 1);
    assert_eq!(after_away.uncertainty, after_home.uncertainty);
}

#[test]
fn the_stored_ratings_are_those_of_the_rating_system_to_the_last_unit() {
    let mut db = store();
    let mut model = RankingModel::new();
    let step = rate(&db, A, B, Outcome::Win);
    model.update(&mut db, A, B, Outcome::Win, &step).unwrap();
    let start = WengLinRating { rating: 25.0, uncertainty: 8.33 };
    let (one, two) = weng_lin(&start, &start, &Outcomes::WIN, &config());
    let away = db.get_team(A).unwrap().rating;
    let home = db.get_team(B).unwrap().rating;
    assert!((away.rating as f64 / 1e9 - one.rating).abs() < 1e-9);
    assert!((away.uncertainty as f64 / 1e9 - one.uncertainty).abs() < 1e-9);
    assert!((home.rating as f64 / 1e9 - two.rating).abs() < 1e-9);
    assert!((home.uncertainty as f64 / 1e9 - two.uncertainty).abs() < 1e-9);
}

#[test]
fn the_favourite_is_expected_to_win_and_the_shares_add_up_to_one() {
    let mut db = store();
    let mut model = RankingModel::new();
    for _ in 0..5 {
        let step = rate(&db, A, B, Outcome::Win);
        model.update(&mut db, A, B, Outcome::Win, &step).unwrap();
    }
    let step = rate(&db, A, B, Outcome::Win);
    let p = model.predict(&db, A, B, &step).unwrap();
    assert_eq!(p.outcome, Outcome::Win);
    assert!(p.exp_away.gt(p.exp_home));
    assert_eq!(p.exp_away.num + p.exp_home.num, 1_000_000_000);
    assert_eq!(p.exp_away.den, 1_000_000_000);
    assert_eq!(p.exp_home.den, 1_000_000_000);
    let q = model.predict(&db, B, A, &rate(&db, B, A, Outcome::Win)).unwrap();
    assert_eq!(q.outcome, Outcome::Loss);
    assert!((q.exp_away.num as i64 - p.exp_home.num as i64).abs() <= 1);
    assert_eq!(model.base.succ, 4);
    assert!(db.get_team(A).unwrap().rating.mmr() > db.get_team(B).unwrap().rating.mmr());
}

#[test]
fn a_run_with_the_rating_system_in_the_loop_is_reproducible() {
    let games = [
        Game { id: 1, away_id: A, home_id: B, score: (3, 1) },
        Game { id: 2, away_id: B, home_id: A, score: (2, 1) },
        Game { id: 3, away_id: A, home_id: B, score: (0, 4) },
        Game { id: 4, away_id: A, home_id: B, score: (5, 4) },
    ];
    let mut finals = Vec::new();
    for _ in 0..2 {
        let mut state = State::new(store());
        let mut predictions = Vec::new();
        for game in &games {
            let step = rate(state.database(), game.away_id, game.home_id, game.outcome());
            predictions.push(state.process_game(game, step).unwrap());
        }
        let db = state.database();
        finals.push((
            db.get_team(A).unwrap().rating,
            db.get_team(B).unwrap().rating,
            db.get_h2h(A, B).unwrap(),
            db.get_h2h(B, A).unwrap(),
            state.get_accuracy(),
            state.ranker().base.dist.clone(),
            predictions,
        ));
    }
    assert_eq!(finals[0], finals[1]);
    assert_eq!(finals[0].2, Head2Head { team1: A, team2: B, total_games: 4, team_wins: 2 });
    assert_eq!(finals[0].3, Head2Head { team1: B, team2: A, total_games: 4, team_wins: 2 });
    assert_eq!(finals[0].4[0].1, 4);
}
