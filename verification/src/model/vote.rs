//! Majority votes of an ensemble of classifiers.

use vstd::prelude::*;

verus! {

/// How many of the classifiers label the sample `s` with one. Each entry of
/// `votes` holds the labels that one classifier gives to all samples.
pub open spec fn spec_good(votes: Seq<Vec<usize>>, s: int) -> nat
    decreases votes.len(),
{
    if votes.len() == 0 {
        0
    } else {
        spec_good(votes.drop_last(), s) + if votes.last()@[s] == 1 {
            1nat
        } else {
            0nat
        }
    }
}

/// How many of the classifiers label the sample `s` with anything but one.
pub open spec fn spec_bad(votes: Seq<Vec<usize>>, s: int) -> nat
    decreases votes.len(),
{
    if votes.len() == 0 {
        0
    } else {
        spec_bad(votes.drop_last(), s) + if votes.last()@[s] == 1 {
            0nat
        } else {
            1nat
        }
    }
}

/// The label of the ensemble for the sample `s`: one if more classifiers
/// say one than say anything else, zero otherwise, ties included.
pub open spec fn spec_majority(votes: Seq<Vec<usize>>, s: int) -> usize {
    if spec_good(votes, s) > spec_bad(votes, s) {
        1
    } else {
        0
    }
}

/// Every classifier is counted once for every sample.
pub proof fn lemma_votes_add_up(votes: Seq<Vec<usize>>, s: int)
    ensures
        spec_good(votes, s) + spec_bad(votes, s) == votes.len(),
    decreases votes.len(),
{
    if votes.len() > 0 {
        lemma_votes_add_up(votes.drop_last(), s);
    }
}

/// The labels of an ensemble, sample by sample, by majority vote.
pub fn majority(votes: &Vec<Vec<usize>>, samples: usize) -> (r: Vec<usize>)
    requires
        forall|t: int| 0 <= t < votes@.len() ==> (#[trigger] votes@[t])@.len() == samples,
    ensures
        r@.len() == samples,
        forall|s: int| 0 <= s < samples ==> #[trigger] r@[s] == spec_majority(votes@, s),
{
    let mut tally: Vec<(usize, usize)> = Vec::new();
    let mut s: usize = 0;
    while s < samples
        invariant
            s <= samples,
            tally@.len() == s,
            forall|q: int| 0 <= q < s ==> #[trigger] tally@[q] == (0usize, 0usize),
        decreases samples - s,
    {
        tally.push((0, 0));
        s += 1;
    }
    let mut t: usize = 0;
    proof {
        assert(votes@.subrange(0, 0) =~= Seq::<Vec<usize>>::empty());
    }
    while t < votes.len()
        invariant
            t <= votes@.len(),
            tally@.len() == samples,
            forall|q: int| 0 <= q < votes@.len() ==> (#[trigger] votes@[q])@.len() == samples,
            forall|q: int|
                0 <= q < samples ==> (#[trigger] tally@[q]).0 == spec_good(
                    votes@.subrange(0, t as int),
                    q,
                ) && tally@[q].1 == spec_bad(votes@.subrange(0, t as int), q),
        decreases votes@.len() - t,
    {
        let ghost seen = votes@.subrange(0, t as int);
        let ghost more = votes@.subrange(0, t + 1);
        proof {
            assert(more.drop_last() =~= seen);
            assert(more.last() == votes@[t as int]);
        }
        let mut s: usize = 0;
        while s < samples
            invariant
                s <= samples,
                t < votes@.len(),
                tally@.len() == samples,
                votes@[t as int]@.len() == samples,
                seen == votes@.subrange(0, t as int),
                seen.len() == t,
                t < usize::MAX,
                more == votes@.subrange(0, t + 1),
                more.drop_last() == seen,
                more.last() == votes@[t as int],
                forall|q: int|
                    0 <= q < s ==> (#[trigger] tally@[q]).0 == spec_good(more, q) && tally@[q].1
                        == spec_bad(more, q),
                forall|q: int|
                    s <= q < samples ==> (#[trigger] tally@[q]).0 == spec_good(seen, q)
                        && tally@[q].1 == spec_bad(seen, q),
            decreases samples - s,
        {
            proof {
                lemma_votes_add_up(seen, s as int);
            }
            let (good, bad) = tally[s];
            if votes[t][s] == 1 {
                tally.set(s, (good + 1, bad));
            } else {
                tally.set(s, (good, bad + 1));
            }
            s += 1;
        }
        t += 1;
    }
    proof {
        assert(votes@.subrange(0, votes@.len() as int) =~= votes@);
    }
    let mut labels: Vec<usize> = Vec::new();
    let mut s: usize = 0;
    while s < samples
        invariant
            s <= samples,
            tally@.len() == samples,
            labels@.len() == s,
            forall|q: int|
                0 <= q < samples ==> (#[trigger] tally@[q]).0 == spec_good(votes@, q) && tally@[q].1
                    == spec_bad(votes@, q),
            forall|q: int| 0 <= q < s ==> #[trigger] labels@[q] == spec_majority(votes@, q),
        decreases samples - s,
    {
        let (good, bad) = tally[s];
        labels.push(if good > bad { 1 } else { 0 });
        s += 1;
    }
    labels
}

} // verus!
