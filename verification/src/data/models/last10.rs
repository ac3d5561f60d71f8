//! The recent form of one competitor: a bounded window of its latest results.

use std::collections::VecDeque;
use vstd::prelude::*;
use crate::data::db::TeamID;
use crate::data::models::probability::{lemma_bucket_is, Prob};
use crate::outcome::{Error, Outcome};

verus! {

/// How many results the window keeps.
pub const WINDOW: usize = 10;

/// The latest results of one competitor, oldest first, with running counts
/// of the wins and of the other results among them.
#[derive(Debug)]
pub struct Last10 {
    pub id: TeamID,
    pub wins: u32,
    pub loss: u32,
    pub games: VecDeque<Outcome>,
}

/// The mathematical content of a [`Last10`].
pub struct Last10View {
    pub id: TeamID,
    pub wins: u32,
    pub loss: u32,
    pub games: Seq<Outcome>,
}

impl View for Last10 {
    type V = Last10View;

    open spec fn view(&self) -> Last10View {
        Last10View { id: self.id, wins: self.wins, loss: self.loss, games: self.games@ }
    }
}

/// One for a win, zero for anything else.
pub open spec fn win_bit(outcome: Outcome) -> nat {
    if outcome == Outcome::Win {
        1
    } else {
        0
    }
}

/// The result that a stored bit stands for.
pub open spec fn bit_outcome(bit: nat) -> Outcome {
    if bit == 1 {
        Outcome::Win
    } else {
        Outcome::Loss
    }
}

/// How many of the results are wins.
pub open spec fn count_wins(games: Seq<Outcome>) -> nat
    decreases games.len(),
{
    if games.len() == 0 {
        0
    } else {
        count_wins(games.drop_last()) + win_bit(games.last())
    }
}

/// The window written as a binary number: one bit per result, the newest
/// result in the lowest bit, a set bit for a win.
pub open spec fn pack(games: Seq<Outcome>) -> nat
    decreases games.len(),
{
    if games.len() == 0 {
        0
    } else {
        2 * pack(games.drop_last()) + win_bit(games.last())
    }
}

/// The `n` results that the low `n` bits of `bits` stand for, oldest first.
pub open spec fn unpack(bits: nat, n: nat) -> Seq<Outcome>
    decreases n,
{
    if n == 0 {
        Seq::<Outcome>::empty()
    } else {
        unpack(bits / 2, (n - 1) as nat).push(bit_outcome(bits % 2))
    }
}

/// What is left of `bits` once its low `n` bits are dropped.
pub open spec fn halved(bits: nat, n: nat) -> nat
    decreases n,
{
    if n == 0 {
        bits
    } else {
        halved(bits / 2, (n - 1) as nat)
    }
}

/// Whether the columns of a stored row describe a window: the counts fit
/// the capacity, no bit is set beyond the results counted, and the set bits
/// are as many as the wins.
pub open spec fn row_is_window(wins: u32, loss: u32, bits: u32) -> bool {
    let n = (wins + loss) as nat;
    &&& n <= WINDOW
    &&& pack(unpack(bits as nat, n)) == bits
    &&& count_wins(unpack(bits as nat, n)) == wins
}

impl Last10View {
    /// The window is within its capacity and the two counts are those of
    /// the wins and of the other results in it.
    pub open spec fn wf(self) -> bool {
        &&& self.games.len() <= WINDOW
        &&& self.wins == count_wins(self.games)
        &&& self.wins + self.loss == self.games.len()
    }

    /// The results that remain once `outcome` is appended: all of them
    /// while the window has room, all but the oldest once it is full.
    pub open spec fn spec_pushed(self, outcome: Outcome) -> Seq<Outcome> {
        let grown = self.games.push(outcome);
        if grown.len() > WINDOW {
            grown.subrange(1, grown.len() as int)
        } else {
            grown
        }
    }

    /// The record after `outcome` is appended.
    pub open spec fn spec_update(self, outcome: Outcome) -> Last10View {
        let kept = self.spec_pushed(outcome);
        Last10View {
            id: self.id,
            wins: count_wins(kept) as u32,
            loss: (kept.len() - count_wins(kept)) as u32,
            games: kept,
        }
    }

    /// The record after the results of `outcomes` are appended one by one,
    /// the first of them first.
    pub open spec fn spec_updates(self, outcomes: Seq<Outcome>) -> Last10View
        decreases outcomes.len(),
    {
        if outcomes.len() == 0 {
            self
        } else {
            self.spec_updates(outcomes.drop_last()).spec_update(outcomes.last())
        }
    }

    /// The share of wins in a full window: wins over the capacity, whatever
    /// the number of results seen so far.
    pub open spec fn spec_estimate(self) -> Prob {
        Prob { num: self.wins as u64, den: WINDOW as u64 }
    }
}

/// No more wins than results.
pub proof fn lemma_count_wins_bound(games: Seq<Outcome>)
    ensures
        count_wins(games) <= games.len(),
    decreases games.len(),
{
    if games.len() > 0 {
        lemma_count_wins_bound(games.drop_last());
    }
}

/// The wins of a window are those of its oldest result and of the rest.
pub proof fn lemma_count_wins_front(games: Seq<Outcome>)
    requires
        games.len() > 0,
    ensures
        count_wins(games) == win_bit(games[0]) + count_wins(games.subrange(1, games.len() as int)),
    decreases games.len(),
{
    let tail = games.subrange(1, games.len() as int);
    if games.len() == 1 {
        assert(games.drop_last() =~= Seq::<Outcome>::empty());
        assert(tail =~= Seq::<Outcome>::empty());
        assert(count_wins(games.drop_last()) == 0);
        assert(count_wins(tail) == 0);
    } else {
        lemma_count_wins_front(games.drop_last());
        assert(games.drop_last().subrange(1, games.len() - 1) =~= tail.drop_last());
        assert(tail.last() == games.last());
        assert(games.drop_last()[0] == games[0]);
    }
}

/// A window of `n` results packs into fewer than `n` bits' worth: with the
/// capacity of ten the number stays below 1024.
pub proof fn lemma_pack_bound(games: Seq<Outcome>)
    requires
        games.len() <= WINDOW,
    ensures
        pack(games) < 1024,
{
    lemma_pack_below(games, 10);
    vstd::arithmetic::power2::lemma2_to64();
}

/// A window of at most `n` results packs into a number below two to the `n`.
proof fn lemma_pack_below(games: Seq<Outcome>, n: nat)
    requires
        games.len() <= n,
    ensures
        pack(games) < vstd::arithmetic::power2::pow2(n),
    decreases n,
{
    vstd::arithmetic::power2::lemma2_to64();
    if n == 0 {
    } else if games.len() == 0 {
        vstd::arithmetic::power2::lemma_pow2_pos(n);
    } else {
        lemma_pack_below(games.drop_last(), (n - 1) as nat);
        vstd::arithmetic::power2::lemma_pow2_unfold(n);
    }
}

/// Reading back a packed window gives the window again, with every result
/// that is not a win read as a loss.
pub proof fn lemma_unpack_pack(games: Seq<Outcome>)
    ensures
        unpack(pack(games), games.len()) =~= games.map_values(|o: Outcome| bit_outcome(win_bit(o))),
        count_wins(unpack(pack(games), games.len())) == count_wins(games),
    decreases games.len(),
{
    if games.len() > 0 {
        let init = games.drop_last();
        lemma_unpack_pack(init);
        let b = win_bit(games.last());
        assert(pack(games) == 2 * pack(init) + b);
        assert(pack(games) / 2 == pack(init));
        assert(pack(games) % 2 == b);
        let back = unpack(pack(games), games.len());
        assert(back == unpack(pack(init), init.len()).push(bit_outcome(b)));
        assert(back.drop_last() =~= unpack(pack(init), init.len()));
        assert(win_bit(bit_outcome(b)) == b);
    }
}

/// Packing what was read from `bits` gives `bits` again exactly when no bit
/// is set beyond the `n` that were read.
pub proof fn lemma_pack_unpack(bits: nat, n: nat)
    ensures
        pack(unpack(bits, n)) == bits <==> halved(bits, n) == 0,
        unpack(bits, n).len() == n,
    decreases n,
{
    if n > 0 {
        lemma_pack_unpack(bits / 2, (n - 1) as nat);
        let init = unpack(bits / 2, (n - 1) as nat);
        let all = unpack(bits, n);
        assert(all.drop_last() =~= init);
        assert(win_bit(bit_outcome(bits % 2)) == bits % 2);
        assert(pack(all) == 2 * pack(init) + bits % 2);
    }
}

/// A well-formed record stays well formed under every update, so the window
/// never grows past its capacity and the two counts always add up to its
/// length.
pub proof fn lemma_update_keeps_window(record: Last10View, outcome: Outcome)
    requires
        record.wf(),
    ensures
        record.spec_update(outcome).wf(),
        record.spec_update(outcome).games.len() <= WINDOW,
        record.spec_update(outcome).wins + record.spec_update(outcome).loss
            == record.spec_update(outcome).games.len(),
{
    let kept = record.spec_pushed(outcome);
    lemma_count_wins_bound(kept);
}

/// What an update does to the two counts: the newest result is added to
/// the count it belongs to, and once the window is full the oldest result
/// leaves and is taken off the count it was part of.
pub proof fn lemma_update_moves_counts(record: Last10View, outcome: Outcome)
    requires
        record.wf(),
    ensures
        record.games.len() < WINDOW ==> {
            &&& record.spec_update(outcome).games == record.games.push(outcome)
            &&& record.spec_update(outcome).wins == record.wins + win_bit(outcome)
            &&& record.spec_update(outcome).loss == record.loss + 1 - win_bit(outcome)
        },
        record.games.len() == WINDOW ==> {
            &&& record.spec_update(outcome).games == record.games.subrange(
                1,
                WINDOW as int,
            ).push(outcome)
            &&& record.spec_update(outcome).wins == record.wins + win_bit(outcome) - win_bit(
                record.games[0],
            )
            &&& record.spec_update(outcome).loss == record.loss + win_bit(record.games[0])
                - win_bit(outcome)
        },
{
    let grown = record.games.push(outcome);
    assert(grown.drop_last() =~= record.games);
    lemma_count_wins_bound(record.games);
    if record.games.len() == WINDOW {
        lemma_count_wins_front(grown);
        assert(grown.subrange(1, grown.len() as int) =~= record.games.subrange(
            1,
            WINDOW as int,
        ).push(outcome));
        lemma_count_wins_bound(grown.subrange(1, grown.len() as int));
    }
}

/// On a scale of ten buckets the estimate of a record falls into the bucket
/// numbered by its wins.
pub proof fn lemma_estimate_bucket_is_wins(record: Last10View)
    requires
        record.wf(),
    ensures
        record.spec_estimate().bucket(WINDOW as int) == record.wins,
{
    lemma_count_wins_bound(record.games);
    lemma_bucket_is(record.spec_estimate(), WINDOW as int, record.wins as int);
}

/// Whatever results are appended to a well-formed record, and however
/// many, the window is never over its capacity and the two counts add up to
/// its length.
pub proof fn lemma_updates_keep_window(record: Last10View, outcomes: Seq<Outcome>)
    requires
        record.wf(),
    ensures
        record.spec_updates(outcomes).wf(),
        record.spec_updates(outcomes).games.len() <= WINDOW,
        record.spec_updates(outcomes).wins + record.spec_updates(outcomes).loss
            == record.spec_updates(outcomes).games.len(),
    decreases outcomes.len(),
{
    if outcomes.len() > 0 {
        lemma_updates_keep_window(record, outcomes.drop_last());
        lemma_update_keeps_window(record.spec_updates(outcomes.drop_last()), outcomes.last());
    }
}

impl Last10 {
    /// The record of a competitor that has not played yet.
    pub fn new(id: TeamID) -> (r: Last10)
        ensures
            r@ == (Last10View { id, wins: 0, loss: 0, games: Seq::<Outcome>::empty() }),
            r@.wf(),
    {
        Last10 { id, wins: 0, loss: 0, games: VecDeque::new() }
    }

    /// Whether the record keeps its invariant.
    pub fn is_valid(&self) -> (r: bool)
        ensures
            r == self@.wf(),
    {
        let n = self.games.len();
        if n > WINDOW {
            return false;
        }
        let mut seen: u32 = 0;
        let mut i: usize = 0;
        while i < n
            invariant
                i <= n,
                n == self.games@.len(),
                n <= WINDOW,
                seen == count_wins(self.games@.subrange(0, i as int)),
                seen <= i,
            decreases n - i,
        {
            proof {
                let next = self.games@.subrange(0, i + 1);
                assert(next.drop_last() =~= self.games@.subrange(0, i as int));
                assert(next.last() == self.games@[i as int]);
            }
            if self.games[i] == Outcome::Win {
                seen += 1;
            }
            i += 1;
        }
        proof {
            assert(self.games@.subrange(0, n as int) =~= self.games@);
        }
        self.wins == seen && self.loss as u64 + self.wins as u64 == n as u64
    }

    /// Appends the newest result and, once the window is over its capacity,
    /// drops the oldest one and takes it off the count it was part of.
    pub fn update(&mut self, outcome: Outcome)
        requires
            old(self)@.wf(),
        ensures
            final(self)@ == old(self)@.spec_update(outcome),
            final(self)@.wf(),
    {
        proof {
            lemma_count_wins_bound(self.games@);
            let grown = self.games@.push(outcome);
            assert(grown.drop_last() =~= self.games@);
            lemma_count_wins_front(grown);
            lemma_count_wins_bound(grown.subrange(1, grown.len() as int));
        }
        if outcome == Outcome::Win {
            self.wins += 1;
        } else {
            self.loss += 1;
        }
        self.games.push_back(outcome);
        if self.games.len() > WINDOW {
            let oldest = self.games.pop_front();
            match oldest {
                Some(outcome_old) => {
                    if outcome_old == Outcome::Win {
                        self.wins -= 1;
                    } else {
                        self.loss -= 1;
                    }
                },
                None => {},
            }
        }
    }

    /// The expectation that the recent form gives: wins over the capacity.
    pub fn estimate(&self) -> (r: Prob)
        requires
            self@.wf(),
        ensures
            r == self@.spec_estimate(),
            r.wf(),
    {
        proof {
            lemma_count_wins_bound(self.games@);
        }
        Prob { num: self.wins as u64, den: WINDOW as u64 }
    }

    /// The window as one number, for a store that keeps it in one column.
    pub fn packed_games(&self) -> (r: u32)
        requires
            self.games@.len() <= WINDOW,
        ensures
            r == pack(self.games@),
            r < 1024,
    {
        let n = self.games.len();
        let mut bits: u32 = 0;
        let mut i: usize = 0;
        while i < n
            invariant
                i <= n,
                n == self.games@.len(),
                n <= WINDOW,
                bits == pack(self.games@.subrange(0, i as int)),
                bits < 1024,
            decreases n - i,
        {
            proof {
                let next = self.games@.subrange(0, i + 1);
                assert(next.drop_last() =~= self.games@.subrange(0, i as int));
                assert(next.last() == self.games@[i as int]);
                lemma_pack_bound(next);
            }
            let bit: u32 = if self.games[i] == Outcome::Win { 1 } else { 0 };
            bits = 2 * bits + bit;
            i += 1;
        }
        proof {
            assert(self.games@.subrange(0, n as int) =~= self.games@);
        }
        bits
    }

    /// Rebuilds a record from the columns of a stored row. The row is
    /// accepted exactly when it describes a window.
    pub fn from_packed(id: TeamID, wins: u32, loss: u32, bits: u32) -> (r: Result<Last10, Error>)
        ensures
            match r {
                Ok(record) => {
                    &&& row_is_window(wins, loss, bits)
                    &&& record@ == (Last10View {
                        id,
                        wins,
                        loss,
                        games: unpack(bits as nat, (wins + loss) as nat),
                    })
                    &&& record@.wf()
                },
                Err(e) => e == Error::InvariantViolation && !row_is_window(wins, loss, bits),
            },
    {
        if wins > WINDOW as u32 || loss > WINDOW as u32 || wins + loss > WINDOW as u32 {
            return Err(Error::InvariantViolation);
        }
        let n: u32 = wins + loss;
        let mut games: VecDeque<Outcome> = VecDeque::new();
        let mut rest: u32 = bits;
        let mut seen: u32 = 0;
        let mut k: u32 = 0;
        while k < n
            invariant
                k <= n,
                n <= WINDOW,
                games@.len() == k,
                seen == count_wins(games@),
                seen <= k,
                unpack(bits as nat, n as nat) =~= unpack(rest as nat, (n - k) as nat) + games@,
                halved(bits as nat, n as nat) == halved(rest as nat, (n - k) as nat),
            decreases n - k,
        {
            let bit: u32 = rest % 2;
            let outcome = if bit == 1 { Outcome::Win } else { Outcome::Loss };
            proof {
                let grown = seq![outcome] + games@;
                lemma_count_wins_front(grown);
                assert(grown.subrange(1, grown.len() as int) =~= games@);
                let shorter = unpack((rest / 2) as nat, (n - k - 1) as nat);
                assert(unpack(rest as nat, (n - k) as nat) == shorter.push(outcome));
                assert(shorter.push(outcome) + games@ =~= shorter + grown);
            }
            if bit == 1 {
                seen += 1;
            }
            games.push_front(outcome);
            rest = rest / 2;
            k += 1;
        }
        proof {
            assert(unpack(rest as nat, 0) + games@ =~= games@);
            lemma_pack_unpack(bits as nat, n as nat);
        }
        if rest != 0 || seen != wins {
            return Err(Error::InvariantViolation);
        }
        Ok(Last10 { id, wins, loss, games })
    }
}

} // verus!
