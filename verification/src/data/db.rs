//! The store of competitors, pairings and form records.
//!
//! The store keeps three tables in memory. Each table holds at most one row
//! per key, and rows stay in the order in which they were added.

use vstd::prelude::*;
use crate::data::models::head2head::Head2Head;
use crate::data::models::last10::{Last10, Last10View};
use crate::data::models::teams::{Team, TeamResponse};
use crate::outcome::{Error, Outcome};
use crate::rating::openskill::{Rating, DEFAULT_RATING, DEFAULT_UNCERTAINTY};

verus! {

/// Key of a competitor.
pub type TeamID = i64;

/// The three tables of the store.
pub struct DataBase {
    teams: Vec<Team>,
    h2h: Vec<Head2Head>,
    last10: Vec<Last10>,
}

/// The content of a store: each table as a map from key to row.
pub struct DataBaseView {
    pub teams: Map<TeamID, Team>,
    pub h2h: Map<(TeamID, TeamID), Head2Head>,
    pub last10: Map<TeamID, Last10View>,
}

/// The key of a row of the table of competitors.
spec fn team_key() -> spec_fn(Team) -> TeamID {
    |t: Team| t.id
}

/// The key of a row of the table of pairings.
spec fn h2h_key() -> spec_fn(Head2Head) -> (TeamID, TeamID) {
    |h: Head2Head| (h.team1, h.team2)
}

/// The key of a row of the table of form records.
spec fn last10_key() -> spec_fn(Last10View) -> TeamID {
    |v: Last10View| v.id
}

/// The rows of the table of form records as mathematical values.
spec fn window_views(rows: Seq<Last10>) -> Seq<Last10View> {
    rows.map_values(|r: Last10| r@)
}

/// No two rows have the same key.
spec fn distinct_keys<R, K>(rows: Seq<R>, key: spec_fn(R) -> K) -> bool {
    forall|i: int, j: int|
        0 <= i < j < rows.len() ==> key(#[trigger] rows[i]) != key(#[trigger] rows[j])
}

/// Some row has the key `k`.
spec fn has_key<R, K>(rows: Seq<R>, key: spec_fn(R) -> K, k: K) -> bool {
    exists|i: int| 0 <= i < rows.len() && key(#[trigger] rows[i]) == k
}

/// The place of a row with the key `k`.
spec fn index_of<R, K>(rows: Seq<R>, key: spec_fn(R) -> K, k: K) -> int {
    choose|i: int| 0 <= i < rows.len() && key(#[trigger] rows[i]) == k
}

/// The table as a map from key to row.
spec fn as_map<R, K>(rows: Seq<R>, key: spec_fn(R) -> K) -> Map<K, R> {
    Map::new(|k: K| has_key(rows, key, k), |k: K| rows[index_of(rows, key, k)])
}

/// The map of a table with distinct keys holds every row under its key.
proof fn lemma_as_map_at<R, K>(rows: Seq<R>, key: spec_fn(R) -> K, i: int)
    requires
        distinct_keys(rows, key),
        0 <= i < rows.len(),
    ensures
        as_map(rows, key).contains_key(key(rows[i])),
        as_map(rows, key)[key(rows[i])] == rows[i],
{
    let k = key(rows[i]);
    assert(has_key(rows, key, k));
    let j = index_of(rows, key, k);
    assert(0 <= j < rows.len() && key(rows[j]) == k);
    if j < i {
        assert(key(rows[j]) != key(rows[i]));
    } else if i < j {
        assert(key(rows[i]) != key(rows[j]));
    }
}

/// Appending a row with a new key inserts it into the map.
proof fn lemma_as_map_push<R, K>(rows: Seq<R>, key: spec_fn(R) -> K, row: R)
    requires
        distinct_keys(rows, key),
        !has_key(rows, key, key(row)),
    ensures
        distinct_keys(rows.push(row), key),
        as_map(rows.push(row), key) =~= as_map(rows, key).insert(key(row), row),
{
    let more = rows.push(row);
    assert forall|i: int, j: int| 0 <= i < j < more.len() implies key(#[trigger] more[i]) != key(
        #[trigger] more[j],
    ) by {
        if j < rows.len() {
            assert(more[i] == rows[i] && more[j] == rows[j]);
        } else {
            assert(more[i] == rows[i]);
            assert(more[j] == row);
        }
    }
    assert forall|k: K| has_key(more, key, k) <==> (k == key(row) || has_key(rows, key, k)) by {
        if has_key(more, key, k) {
            let i = index_of(more, key, k);
            if i < rows.len() {
                assert(more[i] == rows[i]);
            }
        }
        if k == key(row) {
            assert(more[rows.len() as int] == row);
        }
        if has_key(rows, key, k) {
            let i = index_of(rows, key, k);
            assert(more[i] == rows[i]);
        }
    }
    assert forall|k: K| has_key(more, key, k) implies as_map(more, key)[k] == as_map(
        rows,
        key,
    ).insert(key(row), row)[k] by {
        let i = index_of(more, key, k);
        lemma_as_map_at(more, key, i);
        if i < rows.len() {
            assert(more[i] == rows[i]);
            lemma_as_map_at(rows, key, i);
        }
    }
}

/// Replacing a row by one with the same key replaces it in the map.
proof fn lemma_as_map_update<R, K>(rows: Seq<R>, key: spec_fn(R) -> K, at: int, row: R)
    requires
        distinct_keys(rows, key),
        0 <= at < rows.len(),
        key(row) == key(rows[at]),
    ensures
        distinct_keys(rows.update(at, row), key),
        as_map(rows.update(at, row), key) =~= as_map(rows, key).insert(key(row), row),
{
    let next = rows.update(at, row);
    assert forall|i: int| 0 <= i < rows.len() implies key(#[trigger] next[i]) == key(rows[i]) by {}
    assert forall|i: int, j: int| 0 <= i < j < next.len() implies key(#[trigger] next[i]) != key(
        #[trigger] next[j],
    ) by {
        assert(key(rows[i]) != key(rows[j]));
    }
    assert forall|k: K| has_key(next, key, k) <==> has_key(rows, key, k) by {
        if has_key(next, key, k) {
            let i = index_of(next, key, k);
            assert(key(rows[i]) == k);
        }
        if has_key(rows, key, k) {
            let i = index_of(rows, key, k);
            assert(key(next[i]) == k);
        }
    }
    lemma_as_map_at(rows, key, at);
    assert forall|k: K| has_key(next, key, k) implies as_map(next, key)[k] == as_map(
        rows,
        key,
    ).insert(key(row), row)[k] by {
        let i = index_of(next, key, k);
        lemma_as_map_at(next, key, i);
        if i != at {
            assert(next[i] == rows[i]);
            lemma_as_map_at(rows, key, i);
        }
    }
}

/// Whether the competitor `id` is in the directory.
pub open spec fn in_listing(listing: Seq<TeamResponse>, id: TeamID) -> bool {
    exists|i: int| 0 <= i < listing.len() && (#[trigger] listing[i]).id == id
}

/// Whether the competitor `id` is in the directory under the name `name`
/// and the abbreviation `abbrev`.
pub open spec fn listed_as(
    listing: Seq<TeamResponse>,
    id: TeamID,
    name: String,
    abbrev: String,
) -> bool {
    exists|i: int|
        0 <= i < listing.len() && (#[trigger] listing[i]).id == id && listing[i].full_name == name
            && listing[i].tri_code == abbrev
}

/// Whether the rows of competitors and the form records of `now` are those
/// of `old` with the directory `seen` registered.
spec fn teams_registered(old: DataBaseView, seen: Seq<TeamResponse>, now: DataBaseView) -> bool {
    &&& forall|id: TeamID| #[trigger]
        now.teams.contains_key(id) <==> old.teams.contains_key(id) || in_listing(seen, id)
    &&& forall|id: TeamID| #[trigger]
        now.last10.contains_key(id) <==> old.last10.contains_key(id) || in_listing(seen, id)
    &&& forall|id: TeamID| #[trigger] old.teams.contains_key(id) ==> now.teams[id] == old.teams[id]
    &&& forall|id: TeamID| #[trigger]
        old.last10.contains_key(id) ==> now.last10[id] == old.last10[id]
    &&& forall|id: TeamID|
        #![trigger now.teams[id]]
        now.teams.contains_key(id) && !old.teams.contains_key(id) ==> {
            &&& now.teams[id].id == id
            &&& now.teams[id].rating == (Rating {
                rating: DEFAULT_RATING,
                uncertainty: DEFAULT_UNCERTAINTY,
            })
            &&& listed_as(seen, id, now.teams[id].name, now.teams[id].abbrev)
        }
    &&& forall|id: TeamID|
        #![trigger now.last10[id]]
        now.last10.contains_key(id) && !old.last10.contains_key(id) ==> now.last10[id]
            == (Last10View { id, wins: 0, loss: 0, games: Seq::<Outcome>::empty() })
}

/// Whether the pairing of `a` against `b` has had its turn once the first
/// `rows` competitors of the directory have been paired with everybody and
/// the next one with the first `cols`.
spec fn pair_done(listing: Seq<TeamResponse>, rows: int, cols: int, a: TeamID, b: TeamID) -> bool {
    ||| in_listing(listing.subrange(0, rows), a) && in_listing(listing, b)
    ||| rows < listing.len() && listing[rows].id == a && in_listing(listing.subrange(0, cols), b)
}

/// Whether the pairings of `now` are those of `old` with every pairing
/// registered that has had its turn.
spec fn pairs_registered(
    old: DataBaseView,
    listing: Seq<TeamResponse>,
    rows: int,
    cols: int,
    now: DataBaseView,
) -> bool {
    &&& forall|a: TeamID, b: TeamID| #[trigger]
        now.h2h.contains_key((a, b)) <==> old.h2h.contains_key((a, b)) || (a != b && pair_done(
            listing,
            rows,
            cols,
            a,
            b,
        ))
    &&& forall|a: TeamID, b: TeamID| #[trigger]
        old.h2h.contains_key((a, b)) ==> now.h2h[(a, b)] == old.h2h[(a, b)]
    &&& forall|a: TeamID, b: TeamID|
        #![trigger now.h2h[(a, b)]]
        now.h2h.contains_key((a, b)) && !old.h2h.contains_key((a, b)) ==> now.h2h[(a, b)]
            == (Head2Head { team1: a, team2: b, total_games: 0, team_wins: 0 })
}

/// One more entry of a directory adds its competitor to those listed and
/// takes none away.
proof fn lemma_listing_grows(listing: Seq<TeamResponse>, i: int)
    requires
        0 <= i < listing.len(),
    ensures
        forall|id: TeamID|
            in_listing(listing.subrange(0, i + 1), id) <==> in_listing(listing.subrange(0, i), id)
                || id == listing[i].id,
        forall|id: TeamID, name: String, abbrev: String|
            listed_as(listing.subrange(0, i), id, name, abbrev) ==> listed_as(
                listing.subrange(0, i + 1),
                id,
                name,
                abbrev,
            ),
        listed_as(
            listing.subrange(0, i + 1),
            listing[i].id,
            listing[i].full_name,
            listing[i].tri_code,
        ),
{
    let seen = listing.subrange(0, i);
    let more = listing.subrange(0, i + 1);
    assert(more[i] == listing[i]);
    assert forall|id: TeamID| in_listing(more, id) <==> in_listing(seen, id) || id
        == listing[i].id by {
        if in_listing(more, id) {
            let k = choose|k: int| 0 <= k < more.len() && (#[trigger] more[k]).id == id;
            if k < i {
                assert(seen[k] == more[k]);
            }
        }
        if in_listing(seen, id) {
            let k = choose|k: int| 0 <= k < seen.len() && (#[trigger] seen[k]).id == id;
            assert(more[k] == seen[k]);
        }
    }
    assert forall|id: TeamID, name: String, abbrev: String|
        listed_as(seen, id, name, abbrev) implies listed_as(more, id, name, abbrev) by {
        let k = choose|k: int|
            0 <= k < seen.len() && (#[trigger] seen[k]).id == id && seen[k].full_name == name
                && seen[k].tri_code == abbrev;
        assert(more[k] == seen[k]);
    }
}

/// Whether a rating of `x` comes before a rating of `y`, or level with it.
pub open spec fn ahead(x: i64, y: i64, descending: bool) -> bool {
    if descending {
        x >= y
    } else {
        x <= y
    }
}

/// Whether the competitor `id` is in the list.
pub open spec fn listed(list: Seq<Team>, id: TeamID) -> bool {
    exists|j: int| 0 <= j < list.len() && (#[trigger] list[j]).id == id
}

/// The row at `j` has been listed.
spec fn picked(picks: Seq<int>, j: int) -> bool {
    exists|k: int| 0 <= k < picks.len() && #[trigger] picks[k] == j
}

/// The row at `j` is still to be listed.
spec fn held(rest: Seq<usize>, j: int) -> bool {
    exists|m: int| 0 <= m < rest.len() && #[trigger] rest[m] == j
}

/// A table with distinct keys has as many keys as rows.
proof fn lemma_as_map_len<R, K>(rows: Seq<R>, key: spec_fn(R) -> K)
    requires
        distinct_keys(rows, key),
    ensures
        as_map(rows, key).dom().finite(),
        as_map(rows, key).dom().len() == rows.len(),
    decreases rows.len(),
{
    if rows.len() == 0 {
        assert(as_map(rows, key).dom() =~= Set::<K>::empty());
    } else {
        let init = rows.drop_last();
        let last = rows.last();
        assert forall|i: int, j: int| 0 <= i < j < init.len() implies key(#[trigger] init[i])
            != key(#[trigger] init[j]) by {
            assert(init[i] == rows[i] && init[j] == rows[j]);
        }
        lemma_as_map_len(init, key);
        if has_key(init, key, key(last)) {
            let i = index_of(init, key, key(last));
            assert(init[i] == rows[i]);
            assert(key(rows[i]) != key(rows[rows.len() - 1]));
        }
        lemma_as_map_push(init, key, last);
        assert(init.push(last) =~= rows);
        assert(as_map(rows, key).dom() =~= as_map(init, key).dom().insert(key(last)));
    }
}

impl DataBaseView {
    /// The store with nothing in it.
    pub open spec fn empty() -> DataBaseView {
        DataBaseView { teams: Map::empty(), h2h: Map::empty(), last10: Map::empty() }
    }

    /// Every row sits under its own key.
    pub open spec fn keyed(self) -> bool {
        &&& forall|id: TeamID| #[trigger] self.teams.contains_key(id) ==> self.teams[id].id == id
        &&& forall|a: TeamID, b: TeamID| #[trigger]
            self.h2h.contains_key((a, b)) ==> self.h2h[(a, b)].team1 == a && self.h2h[(a, b)].team2
                == b
        &&& forall|id: TeamID| #[trigger]
            self.last10.contains_key(id) ==> self.last10[id].id == id
    }

    /// Whether `team` is a row of the table of competitors.
    pub open spec fn has_team(self, team: Team) -> bool {
        self.teams.contains_key(team.id) && self.teams[team.id] == team
    }

    /// Whether `list` holds the `n` competitors that come first by rating,
    /// or all of them if there are fewer: highest rating first when
    /// `descending`, lowest first otherwise. No competitor is listed twice,
    /// and nobody left out would come before anybody listed.
    pub open spec fn spec_is_ranking(self, list: Seq<Team>, n: u64, descending: bool) -> bool {
        &&& self.teams.dom().finite()
        &&& list.len() == if n <= self.teams.dom().len() {
            n as nat
        } else {
            self.teams.dom().len()
        }
        &&& forall|i: int| 0 <= i < list.len() ==> self.has_team(#[trigger] list[i])
        &&& forall|i: int, j: int|
            0 <= i < j < list.len() ==> (#[trigger] list[i]).id != (#[trigger] list[j]).id
        &&& forall|i: int, j: int|
            0 <= i < j < list.len() ==> ahead(
                (#[trigger] list[i]).rating.rating,
                (#[trigger] list[j]).rating.rating,
                descending,
            )
        &&& forall|id: TeamID, i: int|
            #![trigger self.teams[id], list[i]]
            self.teams.contains_key(id) && 0 <= i < list.len() && !listed(list, id) ==> ahead(
                list[i].rating.rating,
                self.teams[id].rating.rating,
                descending,
            )
    }

    /// Whether `after` is this store with a league directory registered:
    /// every row that was there is unchanged; every competitor of the
    /// directory has a row, a form record, and a record against every
    /// other competitor of the directory; the rows that are new are those
    /// of newcomers; and nothing else has been added.
    pub open spec fn spec_registered(self, listing: Seq<TeamResponse>, after: DataBaseView) -> bool {
        &&& forall|id: TeamID| #[trigger]
            after.teams.contains_key(id) <==> self.teams.contains_key(id) || in_listing(listing, id)
        &&& forall|id: TeamID| #[trigger]
            after.last10.contains_key(id) <==> self.last10.contains_key(id) || in_listing(
                listing,
                id,
            )
        &&& forall|a: TeamID, b: TeamID| #[trigger]
            after.h2h.contains_key((a, b)) <==> self.h2h.contains_key((a, b)) || (a != b
                && in_listing(listing, a) && in_listing(listing, b))
        &&& forall|id: TeamID| #[trigger]
            self.teams.contains_key(id) ==> after.teams[id] == self.teams[id]
        &&& forall|id: TeamID| #[trigger]
            self.last10.contains_key(id) ==> after.last10[id] == self.last10[id]
        &&& forall|a: TeamID, b: TeamID| #[trigger]
            self.h2h.contains_key((a, b)) ==> after.h2h[(a, b)] == self.h2h[(a, b)]
        &&& forall|id: TeamID|
            #![trigger after.teams[id]]
            after.teams.contains_key(id) && !self.teams.contains_key(id) ==> {
                &&& after.teams[id].id == id
                &&& after.teams[id].rating == (Rating {
                    rating: DEFAULT_RATING,
                    uncertainty: DEFAULT_UNCERTAINTY,
                })
                &&& listed_as(listing, id, after.teams[id].name, after.teams[id].abbrev)
            }
        &&& forall|id: TeamID|
            #![trigger after.last10[id]]
            after.last10.contains_key(id) && !self.last10.contains_key(id) ==> after.last10[id]
                == (Last10View { id, wins: 0, loss: 0, games: Seq::<Outcome>::empty() })
        &&& forall|a: TeamID, b: TeamID|
            #![trigger after.h2h[(a, b)]]
            after.h2h.contains_key((a, b)) && !self.h2h.contains_key((a, b)) ==> after.h2h[(a, b)]
                == (Head2Head { team1: a, team2: b, total_games: 0, team_wins: 0 })
    }

    /// What a lookup of a competitor returns.
    pub open spec fn spec_get_team(self, id: TeamID) -> Result<Team, Error> {
        if self.teams.contains_key(id) {
            Ok(self.teams[id])
        } else {
            Err(Error::NotFound)
        }
    }

    /// What a lookup of a pairing returns.
    pub open spec fn spec_get_h2h(self, team1: TeamID, team2: TeamID) -> Result<Head2Head, Error> {
        if self.h2h.contains_key((team1, team2)) {
            Ok(self.h2h[(team1, team2)])
        } else {
            Err(Error::NotFound)
        }
    }

    /// What a lookup of a form record returns.
    pub open spec fn spec_get_last10(self, id: TeamID) -> Result<Last10View, Error> {
        if self.last10.contains_key(id) {
            Ok(self.last10[id])
        } else {
            Err(Error::NotFound)
        }
    }

    /// The store once `team` is registered; a key already present keeps
    /// its row.
    pub open spec fn spec_add_team(self, team: Team) -> DataBaseView {
        if self.teams.contains_key(team.id) {
            self
        } else {
            DataBaseView { teams: self.teams.insert(team.id, team), ..self }
        }
    }

    /// The store once the competitor `id`, if registered, has the rating
    /// `rating`.
    pub open spec fn spec_update_team_rating(self, id: TeamID, rating: Rating) -> DataBaseView {
        if self.teams.contains_key(id) {
            DataBaseView { teams: self.teams.insert(id, self.teams[id].spec_update(rating)), ..self }
        } else {
            self
        }
    }

    /// The store once the pairing `record` is registered; a key already
    /// present keeps its row.
    pub open spec fn spec_add_h2h(self, record: Head2Head) -> DataBaseView {
        if self.h2h.contains_key((record.team1, record.team2)) {
            self
        } else {
            DataBaseView { h2h: self.h2h.insert((record.team1, record.team2), record), ..self }
        }
    }

    /// The store once the row of the pairing, if registered, is `record`.
    pub open spec fn spec_update_h2h(self, record: Head2Head) -> DataBaseView {
        if self.h2h.contains_key((record.team1, record.team2)) {
            DataBaseView { h2h: self.h2h.insert((record.team1, record.team2), record), ..self }
        } else {
            self
        }
    }

    /// The store once an empty form record is registered for `id`; a key
    /// already present keeps its row.
    pub open spec fn spec_add_last10(self, id: TeamID) -> DataBaseView {
        if self.last10.contains_key(id) {
            self
        } else {
            DataBaseView {
                last10: self.last10.insert(
                    id,
                    Last10View { id, wins: 0, loss: 0, games: Seq::<Outcome>::empty() },
                ),
                ..self
            }
        }
    }

    /// The store once the form record of the competitor, if registered, is
    /// `record`.
    pub open spec fn spec_update_last10(self, record: Last10View) -> DataBaseView {
        if self.last10.contains_key(record.id) {
            DataBaseView { last10: self.last10.insert(record.id, record), ..self }
        } else {
            self
        }
    }
}

impl View for DataBase {
    type V = DataBaseView;

    closed spec fn view(&self) -> DataBaseView {
        DataBaseView {
            teams: as_map(self.teams@, team_key()),
            h2h: as_map(self.h2h@, h2h_key()),
            last10: as_map(window_views(self.last10@), last10_key()),
        }
    }
}

impl DataBase {
    /// No table holds two rows with the same key.
    pub closed spec fn wf(&self) -> bool {
        &&& distinct_keys(self.teams@, team_key())
        &&& distinct_keys(self.h2h@, h2h_key())
        &&& distinct_keys(window_views(self.last10@), last10_key())
    }

    /// In a well-formed store every row sits under its own key.
    pub proof fn lemma_keyed(&self)
        requires
            self.wf(),
        ensures
            self@.keyed(),
    {
        assert forall|id: TeamID| #[trigger] self@.teams.contains_key(id) implies self@.teams[id].id
            == id by {
            let i = index_of(self.teams@, team_key(), id);
            assert(team_key()(self.teams@[i]) == id);
        }
        assert forall|a: TeamID, b: TeamID| #[trigger]
            self@.h2h.contains_key((a, b)) implies self@.h2h[(a, b)].team1 == a && self@.h2h[(
            a,
            b,
        )].team2 == b by {
            let i = index_of(self.h2h@, h2h_key(), (a, b));
            assert(h2h_key()(self.h2h@[i]) == (a, b));
        }
        assert forall|id: TeamID| #[trigger]
            self@.last10.contains_key(id) implies self@.last10[id].id == id by {
            let views = window_views(self.last10@);
            let i = index_of(views, last10_key(), id);
            assert(last10_key()(views[i]) == id);
        }
    }

    /// A store with three empty tables.
    pub fn new() -> (db: DataBase)
        ensures
            db.wf(),
            db@ == DataBaseView::empty(),
    {
        let db = DataBase { teams: Vec::new(), h2h: Vec::new(), last10: Vec::new() };
        proof {
            assert(db@.teams =~= Map::<TeamID, Team>::empty());
            assert(db@.h2h =~= Map::<(TeamID, TeamID), Head2Head>::empty());
            assert(window_views(db.last10@) =~= Seq::<Last10View>::empty());
            assert(db@.last10 =~= Map::<TeamID, Last10View>::empty());
        }
        db
    }

    /// Empties the three tables.
    pub fn clear(&mut self)
        ensures
            final(self).wf(),
            final(self)@ == DataBaseView::empty(),
    {
        self.teams = Vec::new();
        self.h2h = Vec::new();
        self.last10 = Vec::new();
        proof {
            assert(self@.teams =~= Map::<TeamID, Team>::empty());
            assert(self@.h2h =~= Map::<(TeamID, TeamID), Head2Head>::empty());
            assert(window_views(self.last10@) =~= Seq::<Last10View>::empty());
            assert(self@.last10 =~= Map::<TeamID, Last10View>::empty());
        }
    }

    /// The place of the competitor `id` in its table.
    fn find_team(&self, id: TeamID) -> (r: Option<usize>)
        ensures
            match r {
                Some(i) => i < self.teams@.len() && self.teams@[i as int].id == id,
                None => !has_key(self.teams@, team_key(), id),
            },
    {
        let mut i: usize = 0;
        while i < self.teams.len()
            invariant
                i <= self.teams@.len(),
                forall|j: int| 0 <= j < i ==> (#[trigger] self.teams@[j]).id != id,
            decreases self.teams@.len() - i,
        {
            if self.teams[i].id == id {
                return Some(i);
            }
            i += 1;
        }
        None
    }

    /// The place of the pairing in its table.
    fn find_h2h(&self, team1: TeamID, team2: TeamID) -> (r: Option<usize>)
        ensures
            match r {
                Some(i) => i < self.h2h@.len() && self.h2h@[i as int].team1 == team1
                    && self.h2h@[i as int].team2 == team2,
                None => !has_key(self.h2h@, h2h_key(), (team1, team2)),
            },
    {
        let mut i: usize = 0;
        while i < self.h2h.len()
            invariant
                i <= self.h2h@.len(),
                forall|j: int|
                    0 <= j < i ==> !((#[trigger] self.h2h@[j]).team1 == team1 && self.h2h@[j].team2
                        == team2),
            decreases self.h2h@.len() - i,
        {
            if self.h2h[i].team1 == team1 && self.h2h[i].team2 == team2 {
                return Some(i);
            }
            i += 1;
        }
        None
    }

    /// The place of the form record of `id` in its table.
    fn find_last10(&self, id: TeamID) -> (r: Option<usize>)
        ensures
            match r {
                Some(i) => i < self.last10@.len() && self.last10@[i as int].id == id,
                None => !has_key(window_views(self.last10@), last10_key(), id),
            },
    {
        let mut i: usize = 0;
        while i < self.last10.len()
            invariant
                i <= self.last10@.len(),
                forall|j: int| 0 <= j < i ==> (#[trigger] self.last10@[j]).id != id,
            decreases self.last10@.len() - i,
        {
            if self.last10[i].id == id {
                return Some(i);
            }
            i += 1;
        }
        proof {
            let views = window_views(self.last10@);
            assert forall|j: int| 0 <= j < views.len() implies last10_key()(#[trigger] views[j])
                != id by {
                assert(views[j] == self.last10@[j]@);
            }
        }
        None
    }

    /// Registers a competitor with the rating of a newcomer. A key that is
    /// already registered keeps its row.
    pub fn add_team(&mut self, id: TeamID, name: String, abbrev: String)
        requires
            old(self).wf(),
        ensures
            final(self).wf(),
            final(self)@ == old(self)@.spec_add_team(
                Team {
                    id,
                    name,
                    abbrev,
                    rating: Rating { rating: DEFAULT_RATING, uncertainty: DEFAULT_UNCERTAINTY },
                },
            ),
    {
        match self.find_team(id) {
            Some(i) => {
                proof {
                    lemma_as_map_at(self.teams@, team_key(), i as int);
                }
            },
            None => {
                let team = Team { id, name, abbrev, rating: Rating::new() };
                proof {
                    lemma_as_map_push(self.teams@, team_key(), team);
                }
                self.teams.push(team);
            },
        }
    }

    /// Looks a competitor up by key.
    pub fn get_team(&self, id: TeamID) -> (r: Result<Team, Error>)
        requires
            self.wf(),
        ensures
            r == self@.spec_get_team(id),
    {
        match self.find_team(id) {
            Some(i) => {
                proof {
                    lemma_as_map_at(self.teams@, team_key(), i as int);
                }
                Ok(self.teams[i].clone())
            },
            None => Err(Error::NotFound),
        }
    }

    /// Gives the competitor `id` the rating `new_rating`. An unknown key
    /// changes nothing.
    pub fn update_team_rating(&mut self, id: TeamID, new_rating: Rating)
        requires
            old(self).wf(),
        ensures
            final(self).wf(),
            final(self)@ == old(self)@.spec_update_team_rating(id, new_rating),
    {
        match self.find_team(id) {
            Some(i) => {
                proof {
                    lemma_as_map_at(self.teams@, team_key(), i as int);
                    lemma_as_map_update(
                        self.teams@,
                        team_key(),
                        i as int,
                        self.teams@[i as int].spec_update(new_rating),
                    );
                }
                self.teams[i].rating = new_rating;
                assert(self.teams@ =~= old(self).teams@.update(
                    i as int,
                    old(self).teams@[i as int].spec_update(new_rating),
                ));
            },
            None => {},
        }
    }

    /// Registers a pairing. A key that is already registered keeps its row.
    pub fn add_h2h(&mut self, h2h: &Head2Head)
        requires
            old(self).wf(),
        ensures
            final(self).wf(),
            final(self)@ == old(self)@.spec_add_h2h(*h2h),
    {
        match self.find_h2h(h2h.team1, h2h.team2) {
            Some(i) => {
                proof {
                    lemma_as_map_at(self.h2h@, h2h_key(), i as int);
                }
            },
            None => {
                proof {
                    lemma_as_map_push(self.h2h@, h2h_key(), *h2h);
                }
                self.h2h.push(*h2h);
            },
        }
    }

    /// Looks up the record of `team1` against `team2`.
    pub fn get_h2h(&self, team1: TeamID, team2: TeamID) -> (r: Result<Head2Head, Error>)
        requires
            self.wf(),
        ensures
            r == self@.spec_get_h2h(team1, team2),
    {
        match self.find_h2h(team1, team2) {
            Some(i) => {
                proof {
                    lemma_as_map_at(self.h2h@, h2h_key(), i as int);
                }
                Ok(self.h2h[i])
            },
            None => Err(Error::NotFound),
        }
    }

    /// Replaces the row of a pairing. An unknown key changes nothing.
    pub fn update_h2h(&mut self, h2h: Head2Head)
        requires
            old(self).wf(),
        ensures
            final(self).wf(),
            final(self)@ == old(self)@.spec_update_h2h(h2h),
    {
        match self.find_h2h(h2h.team1, h2h.team2) {
            Some(i) => {
                proof {
                    lemma_as_map_at(self.h2h@, h2h_key(), i as int);
                    lemma_as_map_update(self.h2h@, h2h_key(), i as int, h2h);
                }
                self.h2h.set(i, h2h);
            },
            None => {},
        }
    }

    /// Registers an empty form record. A key that is already registered
    /// keeps its row.
    pub fn add_last10(&mut self, id: TeamID)
        requires
            old(self).wf(),
        ensures
            final(self).wf(),
            final(self)@ == old(self)@.spec_add_last10(id),
    {
        match self.find_last10(id) {
            Some(i) => {
                proof {
                    let views = window_views(self.last10@);
                    assert(views[i as int] == self.last10@[i as int]@);
                    lemma_as_map_at(views, last10_key(), i as int);
                }
            },
            None => {
                let record = Last10::new(id);
                proof {
                    let views = window_views(self.last10@);
                    lemma_as_map_push(views, last10_key(), record@);
                    assert(window_views(self.last10@.push(record)) =~= views.push(record@));
                }
                self.last10.push(record);
            },
        }
    }

    /// Looks up the form record of a competitor.
    pub fn get_last10(&self, id: TeamID) -> (r: Result<Last10, Error>)
        requires
            self.wf(),
        ensures
            match r {
                Ok(record) => self@.spec_get_last10(id) == Ok::<Last10View, Error>(record@),
                Err(e) => self@.spec_get_last10(id) == Err::<Last10View, Error>(e),
            },
    {
        match self.find_last10(id) {
            Some(i) => {
                proof {
                    let views = window_views(self.last10@);
                    assert(views[i as int] == self.last10@[i as int]@);
                    lemma_as_map_at(views, last10_key(), i as int);
                }
                let row = &self.last10[i];
                Ok(Last10 { id: row.id, wins: row.wins, loss: row.loss, games: row.games.clone() })
            },
            None => Err(Error::NotFound),
        }
    }

    /// Registers a league: every competitor of the directory as a
    /// newcomer, with an empty form record and an empty record against
    /// every other competitor of the directory. What is registered already
    /// stays as it is.
    pub fn register_league(&mut self, listing: &Vec<TeamResponse>)
        requires
            old(self).wf(),
        ensures
            final(self).wf(),
            old(self)@.spec_registered(listing@, final(self)@),
    {
        let n = listing.len();
        let mut i: usize = 0;
        proof {
            assert(teams_registered(old(self)@, listing@.subrange(0, 0), self@));
        }
        while i < n
            invariant
                i <= n,
                n == listing@.len(),
                self.wf(),
                self@.h2h == old(self)@.h2h,
                teams_registered(old(self)@, listing@.subrange(0, i as int), self@),
            decreases n - i,
        {
            let ghost before = self@;
            let ghost seen = listing@.subrange(0, i as int);
            let ghost more = listing@.subrange(0, i + 1);
            let team = &listing[i];
            self.add_team(team.id, team.full_name.clone(), team.tri_code.clone());
            self.add_last10(team.id);
            proof {
                lemma_listing_grows(listing@, i as int);
                assert(more[i as int] == listing@[i as int]);
                assert forall|id: TeamID|
                    #![trigger self@.teams[id]]
                    self@.teams.contains_key(id) && !old(self)@.teams.contains_key(id) implies listed_as(
                    more,
                    id,
                    self@.teams[id].name,
                    self@.teams[id].abbrev,
                ) by {
                    if before.teams.contains_key(id) {
                        assert(listed_as(seen, id, before.teams[id].name, before.teams[id].abbrev));
                    }
                }
            }
            i += 1;
        }
        proof {
            assert(listing@.subrange(0, n as int) =~= listing@);
        }
        let ghost middle = self@;
        let mut i: usize = 0;
        while i < n
            invariant
                i <= n,
                n == listing@.len(),
                self.wf(),
                self@.teams == middle.teams,
                self@.last10 == middle.last10,
                pairs_registered(old(self)@, listing@, i as int, 0, self@),
            decreases n - i,
        {
            let mut j: usize = 0;
            while j < n
                invariant
                    i < n,
                    j <= n,
                    n == listing@.len(),
                    self.wf(),
                    self@.teams == middle.teams,
                    self@.last10 == middle.last10,
                    pairs_registered(old(self)@, listing@, i as int, j as int, self@),
                decreases n - j,
            {
                let one = listing[i].id;
                let two = listing[j].id;
                proof {
                    lemma_listing_grows(listing@, j as int);
                }
                if one != two {
                    self.add_h2h(&Head2Head::new(one, two));
                }
                j += 1;
            }
            proof {
                lemma_listing_grows(listing@, i as int);
                assert(listing@.subrange(0, n as int) =~= listing@);
            }
            i += 1;
        }
        proof {
            assert(listing@.subrange(0, n as int) =~= listing@);
        }
    }

    /// Looks a competitor up by its abbreviation.
    pub fn get_team_abbrev(&self, abbrev: &str) -> (r: Result<Team, Error>)
        requires
            self.wf(),
        ensures
            match r {
                Ok(team) => self@.has_team(team) && team.abbrev@ == abbrev@,
                Err(e) => e == Error::NotFound && forall|id: TeamID| #[trigger]
                    self@.teams.contains_key(id) ==> self@.teams[id].abbrev@ != abbrev@,
            },
    {
        let wanted = abbrev.to_owned();
        let mut i: usize = 0;
        while i < self.teams.len()
            invariant
                i <= self.teams@.len(),
                self.wf(),
                wanted@ == abbrev@,
                forall|j: int| 0 <= j < i ==> (#[trigger] self.teams@[j]).abbrev@ != abbrev@,
            decreases self.teams@.len() - i,
        {
            if self.teams[i].abbrev == wanted {
                proof {
                    lemma_as_map_at(self.teams@, team_key(), i as int);
                }
                return Ok(self.teams[i].clone());
            }
            i += 1;
        }
        proof {
            assert forall|id: TeamID| #[trigger] self@.teams.contains_key(id) implies self@.teams[id].abbrev@
                != abbrev@ by {
                let j = index_of(self.teams@, team_key(), id);
                assert(team_key()(self.teams@[j]) == id);
            }
        }
        Err(Error::NotFound)
    }

    /// The `n` competitors with the highest ratings, highest first.
    pub fn get_top(&self, n: u64) -> (r: Vec<Team>)
        requires
            self.wf(),
        ensures
            self@.spec_is_ranking(r@, n, true),
    {
        self.ranked(n, true)
    }

    /// The `n` competitors with the lowest ratings, lowest first.
    pub fn get_bot(&self, n: u64) -> (r: Vec<Team>)
        requires
            self.wf(),
        ensures
            self@.spec_is_ranking(r@, n, false),
    {
        self.ranked(n, false)
    }

    /// The first `n` competitors by rating, picked one by one: each round
    /// takes the best of those not yet listed.
    fn ranked(&self, n: u64, descending: bool) -> (r: Vec<Team>)
        requires
            self.wf(),
        ensures
            self@.spec_is_ranking(r@, n, descending),
    {
        let len = self.teams.len();
        let ghost rows = self.teams@;
        let mut rest: Vec<usize> = Vec::new();
        let mut i: usize = 0;
        while i < len
            invariant
                i <= len,
                rest@.len() == i,
                forall|m: int| 0 <= m < i ==> rest@[m] == m,
            decreases len - i,
        {
            rest.push(i);
            i += 1;
        }
        let mut out: Vec<Team> = Vec::new();
        let ghost mut picks: Seq<int> = Seq::empty();
        proof {
            assert forall|j: int| 0 <= j < len implies held(rest@, j) by {
                assert(rest@[j] == j);
            }
        }
        while (out.len() as u64) < n && rest.len() > 0
            invariant
                rows == self.teams@,
                len == rows.len(),
                distinct_keys(rows, team_key()),
                out@.len() == picks.len(),
                out@.len() <= n,
                rest@.len() + picks.len() == len,
                forall|m: int| 0 <= m < rest@.len() ==> 0 <= #[trigger] rest@[m] < len,
                forall|m1: int, m2: int|
                    0 <= m1 < m2 < rest@.len() ==> #[trigger] rest@[m1] != #[trigger] rest@[m2],
                forall|k: int| 0 <= k < picks.len() ==> 0 <= #[trigger] picks[k] < len,
                forall|k: int| 0 <= k < picks.len() ==> #[trigger] out@[k] == rows[picks[k]],
                forall|m: int, k: int|
                    0 <= m < rest@.len() && 0 <= k < picks.len() ==> #[trigger] rest@[m]
                        != #[trigger] picks[k],
                forall|j: int| 0 <= j < len ==> #[trigger] picked(picks, j) || held(rest@, j),
                forall|k1: int, k2: int|
                    0 <= k1 < k2 < picks.len() ==> #[trigger] picks[k1] != #[trigger] picks[k2],
                forall|k1: int, k2: int|
                    0 <= k1 < k2 < out@.len() ==> ahead(
                        (#[trigger] out@[k1]).rating.rating,
                        (#[trigger] out@[k2]).rating.rating,
                        descending,
                    ),
                forall|k: int, m: int|
                    0 <= k < out@.len() && 0 <= m < rest@.len() ==> ahead(
                        (#[trigger] out@[k]).rating.rating,
                        rows[#[trigger] rest@[m] as int].rating.rating,
                        descending,
                    ),
            decreases rest@.len(),
        {
            let mut best: usize = 0;
            let mut m: usize = 1;
            while m < rest.len()
                invariant
                    rows == self.teams@,
                    len == rows.len(),
                    rest@.len() > 0,
                    1 <= m <= rest@.len(),
                    best < m,
                    forall|q: int| 0 <= q < rest@.len() ==> 0 <= #[trigger] rest@[q] < len,
                    forall|q: int|
                        0 <= q < m ==> ahead(
                            rows[rest@[best as int] as int].rating.rating,
                            rows[#[trigger] rest@[q] as int].rating.rating,
                            descending,
                        ),
                decreases rest@.len() - m,
            {
                let candidate = self.teams[rest[m]].rating.rating;
                let leader = self.teams[rest[best]].rating.rating;
                let better = if descending { candidate > leader } else { candidate < leader };
                if better {
                    best = m;
                }
                m += 1;
            }
            let chosen = rest[best];
            let last = rest.len() - 1;
            let moved = rest[last];
            let ghost old_rest = rest@;
            let ghost old_picks = picks;
            rest.set(best, moved);
            rest.pop();
            out.push(self.teams[chosen].clone());
            proof {
                picks = picks.push(chosen as int);
                assert forall|q: int| 0 <= q < rest@.len() implies exists|p: int|
                    0 <= p < old_rest.len() && p != best && old_rest[p] == #[trigger] rest@[q] by {
                    if q == best {
                        assert(old_rest[last as int] == rest@[q]);
                    } else {
                        assert(old_rest[q] == rest@[q]);
                    }
                }
                assert forall|j: int| 0 <= j < len implies #[trigger] picked(picks, j) || held(
                    rest@,
                    j,
                ) by {
                    assert(picked(old_picks, j) || held(old_rest, j));
                    if j == chosen {
                        assert(picks[picks.len() - 1] == j);
                    } else if picked(old_picks, j) {
                        let k = choose|k: int| 0 <= k < old_picks.len() && #[trigger] old_picks[k] == j;
                        assert(picks[k] == j);
                    } else {
                        let p = choose|p: int| 0 <= p < old_rest.len() && #[trigger] old_rest[p] == j;
                        if p == last {
                            assert(rest@[best as int] == j);
                        } else {
                            assert(rest@[p] == j);
                        }
                    }
                }
            }
        }
        proof {
            lemma_as_map_len(rows, team_key());
            assert forall|i: int| 0 <= i < out@.len() implies self@.has_team(#[trigger] out@[i]) by {
                lemma_as_map_at(rows, team_key(), picks[i]);
            }
            assert forall|i: int, j: int| 0 <= i < j < out@.len() implies (#[trigger] out@[i]).id != (
            #[trigger] out@[j]).id by {
                let a = picks[i];
                let b = picks[j];
                if a < b {
                    assert(team_key()(rows[a]) != team_key()(rows[b]));
                } else {
                    assert(team_key()(rows[b]) != team_key()(rows[a]));
                }
            }
            assert forall|id: TeamID, i: int|
                #![trigger self@.teams[id], out@[i]]
                self@.teams.contains_key(id) && 0 <= i < out@.len() && !listed(out@, id) implies ahead(
                out@[i].rating.rating,
                self@.teams[id].rating.rating,
                descending,
            ) by {
                let j = index_of(rows, team_key(), id);
                assert(team_key()(rows[j]) == id);
                lemma_as_map_at(rows, team_key(), j);
                assert(picked(picks, j) || held(rest@, j));
                if picked(picks, j) {
                    let k = choose|k: int| 0 <= k < picks.len() && #[trigger] picks[k] == j;
                    assert(out@[k].id == id);
                    assert(listed(out@, id));
                } else {
                    let q = choose|q: int| 0 <= q < rest@.len() && #[trigger] rest@[q] == j;
                    assert(ahead(out@[i].rating.rating, rows[rest@[q] as int].rating.rating, descending));
                }
            }
        }
        out
    }

    /// Replaces the form record of a competitor. An unknown key changes
    /// nothing.
    pub fn update_last10(&mut self, last10: Last10)
        requires
            old(self).wf(),
        ensures
            final(self).wf(),
            final(self)@ == old(self)@.spec_update_last10(last10@),
    {
        match self.find_last10(last10.id) {
            Some(i) => {
                proof {
                    let views = window_views(self.last10@);
                    assert(views[i as int] == self.last10@[i as int]@);
                    lemma_as_map_at(views, last10_key(), i as int);
                    lemma_as_map_update(views, last10_key(), i as int, last10@);
                    assert(window_views(self.last10@.update(i as int, last10)) =~= views.update(
                        i as int,
                        last10@,
                    ));
                }
                self.last10.set(i, last10);
            },
            None => {},
        }
    }
}

} // verus!
