use nhl_ranker::data::db::DataBase;
use nhl_ranker::data::models::head2head::Head2Head;
use nhl_ranker::data::models::last10::Last10;
use nhl_ranker::data::models::teams::TeamResponse;
use nhl_ranker::outcome::{Error, Outcome};
use nhl_ranker::rating::openskill::{Rating, DEFAULT_RATING, DEFAULT_UNCERTAINTY};

fn league() -> DataBase {
    let mut db = DataBase::new();
    db.add_team(8, String::from("Montreal Canadiens"), String::from("MTL"));
    db.add_team(10, String::from("Toronto Maple Leafs"), String::from("TOR"));
    db.add_team(6, String::from("Boston Bruins"), String::from("BOS"));
    db.add_team(3, String::from("New York Rangers"), String::from("NYR"));
    db
}

fn ids(teams: &[nhl_ranker::data::models::teams::Team]) -> Vec<i64> {
    teams.iter().map(|t| t.id).collect()
}

#[test]
fn a_new_store_knows_nobody() {
    let db = DataBase::new();
    assert_eq!(db.get_team(1).err(), Some(Error::NotFound));
    assert_eq!(db.get_h2h(1, 2).err(), Some(Error::NotFound));
    assert_eq!(db.get_last10(1).err(), Some(Error::NotFound));
    assert_eq!(db.get_team_abbrev("MTL").err(), Some(Error::NotFound));
    assert!(db.get_top(5).is_empty());
    assert!(db.get_bot(5).is_empty());
}

#[test]
fn add_team_registers_a_newcomer_with_the_default_rating() {
    let db = league();
    let team = db.get_team(8).unwrap();
    assert_eq!(team.id, 8);
    assert_eq!(team.name, "Montreal Canadiens");
    assert_eq!(team.abbrev, "MTL");
    assert_eq!(team.rating, Rating { rating: DEFAULT_RATING, uncertainty: DEFAULT_UNCERTAINTY });
}

#[test]
fn add_team_keeps_the_row_of_a_known_key() {
    let mut db = league();
    db.update_team_rating(8, Rating { rating: 30, uncertainty: 5 });
    db.add_team(8, String::from("Somebody Else"), String::from("ELS"));
    let team = db.get_team(8).unwrap();
    assert_eq!(team.name, "Montreal Canadiens");
    assert_eq!(team.abbrev, "MTL");
    assert_eq!(team.rating, Rating { rating: 30, uncertainty: 5 });
    assert_eq!(db.get_team_abbrev("ELS").err(), Some(Error::NotFound));
}

#[test]
fn get_team_of_an_unknown_key_is_not_found() {
    let db = league();
    assert_eq!(db.get_team(99).err(), Some(Error::NotFound));
    assert_eq!(db.get_team(-8).err(), Some(Error::NotFound));
}

#[test]
fn update_team_rating_changes_one_row() {
    let mut db = league();
    db.update_team_rating(10, Rating { rating: 27_000_000_000, uncertainty: 8_000_000_000 });
    assert_eq!(
        db.get_team(10).unwrap().rating,
        Rating { rating: 27_000_000_000, uncertainty: 8_000_000_000 }
    );
    assert_eq!(db.get_team(10).unwrap().name, "Toronto Maple Leafs");
    assert_eq!(db.get_team(8).unwrap().rating, Rating::new());
    assert_eq!(db.get_team(6).unwrap().rating, Rating::new());
}

#[test]
fn update_team_rating_of_an_unknown_key_changes_nothing() {
    let mut db = league();
    db.update_team_rating(99, Rating { rating: 1, uncertainty: 1 });
    assert_eq!(db.get_team(99).err(), Some(Error::NotFound));
    assert_eq!(db.get_team(8).unwrap().rating, Rating::new());
}

#[test]
fn get_team_abbrev_finds_by_abbreviation() {
    let db = league();
    assert_eq!(db.get_team_abbrev("TOR").unwrap().id, 10);
    assert_eq!(db.get_team_abbrev("BOS").unwrap().name, "Boston Bruins");
    assert_eq!(db.get_team_abbrev("tor").err(), Some(Error::NotFound));
    assert_eq!(db.get_team_abbrev("").err(), Some(Error::NotFound));
}

#[test]
fn pairings_are_directional() {
    let mut db = league();
    db.add_h2h(&Head2Head::new(8, 10));
    assert_eq!(db.get_h2h(8, 10), Ok(Head2Head { team1: 8, team2: 10, total_games: 0, team_wins: 0 }));
    assert_eq!(db.get_h2h(10, 8), Err(Error::NotFound));
}

#[test]
fn add_h2h_keeps_the_row_of_a_known_key() {
    let mut db = league();
    db.add_h2h(&Head2Head { team1: 8, team2: 10, total_games: 4, team_wins: 3 });
    db.add_h2h(&Head2Head::new(8, 10));
    assert_eq!(db.get_h2h(8, 10), Ok(Head2Head { team1: 8, team2: 10, total_games: 4, team_wins: 3 }));
}

#[test]
fn update_h2h_replaces_the_row() {
    let mut db = league();
    db.add_h2h(&Head2Head::new(8, 10));
    db.add_h2h(&Head2Head::new(10, 8));
    db.update_h2h(Head2Head { team1: 8, team2: 10, total_games: 2, team_wins: 1 });
    assert_eq!(db.get_h2h(8, 10), Ok(Head2Head { team1: 8, team2: 10, total_games: 2, team_wins: 1 }));
    assert_eq!(db.get_h2h(10, 8), Ok(Head2Head::new(10, 8)));
}

#[test]
fn update_h2h_of_an_unknown_key_changes_nothing() {
    let mut db = league();
    db.update_h2h(Head2Head { team1: 8, team2: 10, total_games: 2, team_wins: 1 });
    assert_eq!(db.get_h2h(8, 10), Err(Error::NotFound));
}

#[test]
fn form_records_start_empty_and_are_replaced_whole() {
    let mut db = league();
    db.add_last10(8);
    let mut record = db.get_last10(8).unwrap();
    assert_eq!((record.id, record.wins, record.loss, record.games.len()), (8, 0, 0, 0));
    record.update(Outcome::Win);
    record.update(Outcome::Loss);
    db.update_last10(record);
    let stored = db.get_last10(8).unwrap();
    assert_eq!((stored.wins, stored.loss), (1, 1));
    assert_eq!(
        stored.games.iter().copied().collect::<Vec<_>>(),
        vec![Outcome::Win, Outcome::Loss]
    );
    db.add_last10(8);
    assert_eq!(db.get_last10(8).unwrap().wins, 1);
}

#[test]
fn update_last10_of_an_unknown_key_changes_nothing() {
    let mut db = league();
    let mut record = Last10::new(77);
    record.update(Outcome::Win);
    db.update_last10(record);
    assert_eq!(db.get_last10(77).err(), Some(Error::NotFound));
}

#[test]
fn clear_empties_every_table() {
    let mut db = league();
    db.add_h2h(&Head2Head::new(8, 10));
    db.add_last10(8);
    db.clear();
    assert_eq!(db.get_team(8).err(), Some(Error::NotFound));
    assert_eq!(db.get_h2h(8, 10).err(), Some(Error::NotFound));
    assert_eq!(db.get_last10(8).err(), Some(Error::NotFound));
    assert!(db.get_top(10).is_empty());
}

#[test]
fn get_top_lists_the_highest_ratings_first() {
    let mut db = league();
    db.update_team_rating(8, Rating { rating: 30, uncertainty: 1 });
    db.update_team_rating(10, Rating { rating: 10, uncertainty: 1 });
    db.update_team_rating(6, Rating { rating: 40, uncertainty: 1 });
    db.update_team_rating(3, Rating { rating: 20, uncertainty: 1 });
    assert_eq!(ids(&db.get_top(2)), vec![6, 8]);
    assert_eq!(ids(&db.get_top(4)), vec![6, 8, 3, 10]);
    assert_eq!(ids(&db.get_top(32)), vec![6, 8, 3, 10]);
    assert!(db.get_top(0).is_empty());
}

#[test]
fn get_bot_lists_the_lowest_ratings_first() {
    let mut db = league();
    db.update_team_rating(8, Rating { rating: 30, uncertainty: 1 });
    db.update_team_rating(10, Rating { rating: 10, uncertainty: 1 });
    db.update_team_rating(6, Rating { rating: 40, uncertainty: 1 });
    db.update_team_rating(3, Rating { rating: -20, uncertainty: 1 });
    assert_eq!(ids(&db.get_bot(3)), vec![3, 10, 8]);
    assert_eq!(ids(&db.get_bot(9)), vec![3, 10, 8, 6]);
    assert!(db.get_bot(0).is_empty());
}

#[test]
fn rankings_list_nobody_twice_when_ratings_tie() {
    let db = league();
    let mut top = ids(&db.get_top(4));
    top.sort();
    assert_eq!(top, vec![3, 6, 8, 10]);
    let mut bot = ids(&db.get_bot(3));
    bot.sort();
    bot.dedup();
    assert_eq!(bot.len(), 3);
}

fn entry(id: i64, name: &str, code: &str) -> TeamResponse {
    TeamResponse {
        id,
        franchise_id: Some(id + 100),
        full_name: String::from(name),
        league_id: 133,
        raw_tricode: String::from(code),
        tri_code: String::from(code),
    }
}

#[test]
fn register_league_registers_every_competitor_and_every_ordered_pair() {
    let mut db = DataBase::new();
    let listing = vec![entry(8, "Montreal Canadiens", "MTL"), entry(10, "Toronto Maple Leafs", "TOR"), entry(6, "Boston Bruins", "BOS")];
    db.register_league(&listing);
    for id in [8, 10, 6] {
        let team = db.get_team(id).unwrap();
        assert_eq!(team.rating, Rating::new());
        let form = db.get_last10(id).unwrap();
        assert_eq!((form.id, form.wins, form.loss, form.games.len()), (id, 0, 0, 0));
        for other in [8, 10, 6] {
            if id != other {
                assert_eq!(db.get_h2h(id, other), Ok(Head2Head::new(id, other)));
            } else {
                assert_eq!(db.get_h2h(id, other), Err(Error::NotFound));
            }
        }
    }
    assert_eq!(db.get_team(10).unwrap().name, "Toronto Maple Leafs");
    assert_eq!(db.get_team(10).unwrap().abbrev, "TOR");
    assert_eq!(db.get_team(3).err(), Some(Error::NotFound));
    assert_eq!(db.get_top(10).len(), 3);
}

#[test]
fn register_league_leaves_what_is_registered_as_it_is() {
    let mut db = league();
    db.update_team_rating(8, Rating { rating: 30, uncertainty: 5 });
    db.add_h2h(&Head2Head { team1: 8, team2: 10, total_games: 4, team_wins: 3 });
    db.add_last10(8);
    let mut form = db.get_last10(8).unwrap();
    form.update(Outcome::Win);
    db.update_last10(form);
    db.register_league(&vec![entry(8, "Habs", "HAB"), entry(10, "Leafs", "LFS"), entry(55, "Seattle Kraken", "SEA")]);
    let team = db.get_team(8).unwrap();
    assert_eq!((team.name.as_str(), team.abbrev.as_str()), ("Montreal Canadiens", "MTL"));
    assert_eq!(team.rating, Rating { rating: 30, uncertainty: 5 });
    assert_eq!(db.get_h2h(8, 10).unwrap().total_games, 4);
    assert_eq!(db.get_h2h(10, 8), Ok(Head2Head::new(10, 8)));
    assert_eq!(db.get_h2h(55, 8), Ok(Head2Head::new(55, 8)));
    assert_eq!(db.get_last10(8).unwrap().wins, 1);
    assert_eq!(db.get_last10(55).unwrap().wins, 0);
    assert_eq!(db.get_team(55).unwrap().abbrev, "SEA");
    // competitors outside the directory get no pairing
    assert_eq!(db.get_h2h(6, 8), Err(Error::NotFound));
    assert_eq!(db.get_h2h(55, 6), Err(Error::NotFound));
}

#[test]
fn register_league_takes_the_first_entry_of_a_competitor_listed_twice() {
    let mut db = DataBase::new();
    db.register_league(&vec![entry(8, "First", "ONE"), entry(8, "Second", "TWO")]);
    assert_eq!(db.get_team(8).unwrap().name, "First");
    assert_eq!(db.get_h2h(8, 8), Err(Error::NotFound));
    assert_eq!(db.get_top(5).len(), 1);
}

#[test]
fn register_league_of_an_empty_directory_changes_nothing() {
    let mut db = league();
    db.register_league(&Vec::new());
    assert_eq!(db.get_top(10).len(), 4);
    assert_eq!(db.get_last10(8).err(), Some(Error::NotFound));
}
