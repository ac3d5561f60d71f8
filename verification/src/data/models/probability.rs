//! Exact probabilities and discrete distributions.

use vstd::prelude::*;
use vstd::arithmetic::mul::lemma_mul_upper_bound;

verus! {

/// Two probabilities closer than one part in this many count as equal.
pub const EPSILON_INVERSE: u64 = 100_000;

/// Denominator of a probability given in parts per billion.
pub const PARTS_PER_BILLION: u64 = 1_000_000_000;

/// A probability held exactly as the fraction `num / den`.
#[derive(Clone, Copy, Debug, PartialEq, Eq, Structural)]
pub struct Prob {
    pub num: u64,
    pub den: u64,
}

impl Prob {
    /// The fraction is defined and lies between zero and one.
    pub open spec fn wf(self) -> bool {
        0 < self.den && self.num <= self.den
    }

    /// `self > other` as fractions.
    pub open spec fn spec_gt(self, other: Prob) -> bool {
        self.num * other.den > other.num * self.den
    }

    /// `self == other` as fractions.
    pub open spec fn spec_same(self, other: Prob) -> bool {
        self.num * other.den == other.num * self.den
    }

    /// Numerator of `|self - other|` over the common denominator
    /// `self.den * other.den`.
    pub open spec fn gap(self, other: Prob) -> int {
        if self.num * other.den >= other.num * self.den {
            self.num * other.den - other.num * self.den
        } else {
            other.num * self.den - self.num * other.den
        }
    }

    /// `|self - other| < 1 / EPSILON_INVERSE`, with the tolerance of one
    /// part in a hundred thousand written out.
    pub open spec fn spec_near(self, other: Prob) -> bool {
        100_000 * self.gap(other) < self.den * other.den
    }

    /// `self * m` rounded to the nearest integer, halves rounded up.
    pub open spec fn bucket(self, m: int) -> int {
        (2 * self.num * m + self.den) / (2 * self.den as int)
    }

    /// Builds `num / den` if that is a probability.
    pub fn new(num: u64, den: u64) -> (r: Option<Prob>)
        ensures
            r == if 0 < den && num <= den {
                Some(Prob { num, den })
            } else {
                None::<Prob>
            },
    {
        if 0 < den && num <= den {
            Some(Prob { num, den })
        } else {
            None
        }
    }

    /// One half, the value used when nothing is known.
    pub fn half() -> (r: Prob)
        ensures
            r == (Prob { num: 1, den: 2 }),
    {
        Prob { num: 1, den: 2 }
    }

    /// `1 - self`, over the same denominator.
    pub fn complement(self) -> (r: Prob)
        requires
            self.wf(),
        ensures
            r == (Prob { num: (self.den - self.num) as u64, den: self.den }),
            r.wf(),
    {
        Prob { num: self.den - self.num, den: self.den }
    }

    /// Whether the fraction is well defined and within `[0, 1]`.
    pub fn is_valid(self) -> (r: bool)
        ensures
            r == self.wf(),
    {
        0 < self.den && self.num <= self.den
    }

    /// Strict comparison of two probabilities.
    pub fn gt(self, other: Prob) -> (r: bool)
        ensures
            r == self.spec_gt(other),
    {
        proof {
            lemma_mul_upper_bound(self.num as int, u64::MAX as int, other.den as int, u64::MAX as int);
            lemma_mul_upper_bound(other.num as int, u64::MAX as int, self.den as int, u64::MAX as int);
        }
        (self.num as u128) * (other.den as u128) > (other.num as u128) * (self.den as u128)
    }

    /// Equality of two probabilities as fractions.
    pub fn same(self, other: Prob) -> (r: bool)
        ensures
            r == self.spec_same(other),
    {
        proof {
            lemma_mul_upper_bound(self.num as int, u64::MAX as int, other.den as int, u64::MAX as int);
            lemma_mul_upper_bound(other.num as int, u64::MAX as int, self.den as int, u64::MAX as int);
        }
        (self.num as u128) * (other.den as u128) == (other.num as u128) * (self.den as u128)
    }

    /// Whether two probabilities differ by less than the tolerance.
    pub fn near(self, other: Prob) -> (r: bool)
        requires
            self.wf(),
            other.wf(),
        ensures
            r == self.spec_near(other),
    {
        proof {
            lemma_mul_upper_bound(self.num as int, u64::MAX as int, other.den as int, u64::MAX as int);
            lemma_mul_upper_bound(other.num as int, u64::MAX as int, self.den as int, u64::MAX as int);
            lemma_mul_upper_bound(self.den as int, u64::MAX as int, other.den as int, u64::MAX as int);
        }
        let left: u128 = (self.num as u128) * (other.den as u128);
        let right: u128 = (other.num as u128) * (self.den as u128);
        let gap: u128 = if left >= right { left - right } else { right - left };
        let whole: u128 = (self.den as u128) * (other.den as u128);
        let limit: u128 = (whole + (EPSILON_INVERSE as u128 - 1)) / (EPSILON_INVERSE as u128);
        gap < limit
    }

    /// The bucket of a histogram with `m + 1` cells that this probability
    /// falls into.
    pub fn to_bucket(self, m: usize) -> (r: usize)
        requires
            self.wf(),
            m <= u32::MAX,
        ensures
            r == self.bucket(m as int),
            r <= m,
    {
        proof {
            lemma_mul_upper_bound(self.num as int, u64::MAX as int, m as int, u32::MAX as int);
            lemma_bucket_bound(self, m as int);
        }
        let twice: u128 = 2 * ((self.num as u128) * (m as u128)) + (self.den as u128);
        let q: u128 = twice / (2 * (self.den as u128));
        assert(2 * ((self.num as int) * (m as int)) == 2 * self.num * m) by (nonlinear_arith);
        q as usize
    }
}

/// The bucket of a probability is the one integer `b` with
/// `b - 1/2 <= p * m < b + 1/2`.
pub proof fn lemma_bucket_is(p: Prob, m: int, b: int)
    requires
        p.wf(),
        2 * b * p.den <= 2 * p.num * m + p.den < 2 * (b + 1) * p.den,
    ensures
        p.bucket(m) == b,
{
    let d = 2 * p.den as int;
    let x = 2 * p.num * m + p.den;
    assert(b * d <= x < (b + 1) * d) by (nonlinear_arith)
        requires
            2 * b * p.den <= x < 2 * (b + 1) * p.den,
            d == 2 * p.den,
    ;
    vstd::arithmetic::div_mod::lemma_fundamental_div_mod(x, d);
    vstd::arithmetic::div_mod::lemma_mod_bound(x, d);
    let q = x / d;
    assert(q == b) by (nonlinear_arith)
        requires
            x == d * q + x % d,
            0 <= x % d < d,
            b * d <= x < (b + 1) * d,
    ;
}

/// A probability never falls outside the histogram it is bucketed into.
pub proof fn lemma_bucket_bound(p: Prob, m: int)
    requires
        p.wf(),
        0 <= m,
    ensures
        0 <= p.bucket(m) <= m,
{
    let d = p.den as int;
    let n = p.num as int;
    assert(0 <= 2 * n * m + d) by (nonlinear_arith)
        requires 0 <= n, 0 <= m, 0 < d;
    assert(2 * n * m + d < (m + 1) * (2 * d)) by (nonlinear_arith)
        requires 0 <= n <= d, 0 <= m, 0 < d;
    vstd::arithmetic::div_mod::lemma_div_pos_is_pos(2 * n * m + d, 2 * d);
    vstd::arithmetic::div_mod::lemma_div_by_multiple_is_strongly_ordered(2 * n * m + d, (m + 1) * (2 * d), m + 1, 2 * d);
    vstd::arithmetic::div_mod::lemma_div_by_multiple((m + 1), 2 * d);
}

/// A discrete distribution over the buckets of a histogram: the mass of each
/// bucket and the mass accumulated up to and including it.
#[derive(Debug)]
pub struct DiscreteProb {
    pub pmf: Vec<Prob>,
    pub cdf: Vec<Prob>,
}

/// The sum of the counts.
pub open spec fn total(counts: Seq<usize>) -> nat
    decreases counts.len(),
{
    if counts.len() == 0 {
        0
    } else {
        total(counts.drop_last()) + counts.last() as nat
    }
}

/// What the masses are counted in: the number of samples, or one while
/// there is none.
pub open spec fn spec_denominator(counts: Seq<usize>) -> nat {
    if total(counts) == 0 {
        1
    } else {
        total(counts)
    }
}

/// The share of the samples that fell into each bucket.
pub open spec fn spec_pmf(counts: Seq<usize>) -> Seq<Prob> {
    Seq::new(
        counts.len(),
        |i: int| Prob { num: counts[i] as u64, den: spec_denominator(counts) as u64 },
    )
}

/// The share of the samples that fell into a bucket or any bucket before
/// it. The last entry is one whatever the counts are.
pub open spec fn spec_cdf(counts: Seq<usize>) -> Seq<Prob> {
    Seq::new(
        counts.len(),
        |i: int|
            if i == counts.len() - 1 {
                Prob { num: spec_denominator(counts) as u64, den: spec_denominator(counts) as u64 }
            } else {
                Prob {
                    num: total(counts.subrange(0, i + 1)) as u64,
                    den: spec_denominator(counts) as u64,
                }
            },
    )
}

/// Counting one bucket differently moves the sum by the same amount.
pub proof fn lemma_total_update(counts: Seq<usize>, at: int, value: usize)
    requires
        0 <= at < counts.len(),
    ensures
        total(counts.update(at, value)) == total(counts) - counts[at] + value,
    decreases counts.len(),
{
    let next = counts.update(at, value);
    if at == counts.len() - 1 {
        assert(next.drop_last() =~= counts.drop_last());
    } else {
        lemma_total_update(counts.drop_last(), at, value);
        assert(next.drop_last() =~= counts.drop_last().update(at, value));
    }
}

/// The counts up to a bucket never sum to more than the counts up to a
/// later one, and no count exceeds the sum of all.
pub proof fn lemma_total_prefix(counts: Seq<usize>, i: int, j: int)
    requires
        0 <= i <= j <= counts.len(),
    ensures
        total(counts.subrange(0, i)) <= total(counts.subrange(0, j)),
        i < j ==> total(counts.subrange(0, i)) + counts[i] <= total(counts.subrange(0, j)),
    decreases j - i,
{
    if i < j {
        lemma_total_prefix(counts, i, j - 1);
        assert(counts.subrange(0, j).drop_last() =~= counts.subrange(0, j - 1));
    }
}

/// No single count exceeds the sum.
pub proof fn lemma_total_bounds_each(counts: Seq<usize>, at: int)
    requires
        0 <= at < counts.len(),
    ensures
        counts[at] <= total(counts),
{
    lemma_total_prefix(counts, at, counts.len() as int);
    assert(counts.subrange(0, counts.len() as int) =~= counts);
}

/// Counts that are all zero sum to zero.
pub proof fn lemma_total_zero(counts: Seq<usize>)
    requires
        forall|i: int| 0 <= i < counts.len() ==> counts[i] == 0,
    ensures
        total(counts) == 0,
    decreases counts.len(),
{
    if counts.len() > 0 {
        lemma_total_zero(counts.drop_last());
    }
}

/// Whether `pmf` and `cdf` are the masses and the cumulative masses of a
/// distribution: one entry each per bucket, every entry a probability over
/// one common denominator, the cumulative masses never decreasing, and the
/// last of them exactly one.
pub open spec fn is_distribution(pmf: Seq<Prob>, cdf: Seq<Prob>) -> bool {
    &&& pmf.len() == cdf.len()
    &&& forall|i: int| 0 <= i < pmf.len() ==> (#[trigger] pmf[i]).wf()
    &&& forall|i: int| 0 <= i < cdf.len() ==> (#[trigger] cdf[i]).wf()
    &&& forall|i: int, j: int|
        0 <= i < pmf.len() && 0 <= j < cdf.len() ==> (#[trigger] pmf[i]).den == (
        #[trigger] cdf[j]).den
    &&& forall|i: int, j: int|
        0 <= i <= j < cdf.len() ==> (#[trigger] cdf[i]).num <= (#[trigger] cdf[j]).num
    &&& cdf.len() > 0 ==> cdf.last().num == cdf.last().den
}

impl DiscreteProb {
    /// The two vectors are the masses and the cumulative masses of a
    /// distribution.
    pub open spec fn wf(&self) -> bool {
        is_distribution(self.pmf@, self.cdf@)
    }
}

/// Whatever the counts, what is made of them is a distribution: the
/// cumulative masses never decrease and end at exactly one.
pub proof fn lemma_counts_give_distribution(counts: Seq<usize>)
    requires
        total(counts) <= u64::MAX,
    ensures
        is_distribution(spec_pmf(counts), spec_cdf(counts)),
{
    let n = counts.len() as int;
    assert forall|i: int| 0 <= i < n implies (#[trigger] spec_pmf(counts)[i]).wf() by {
        lemma_total_bounds_each(counts, i);
    }
    assert forall|i: int| 0 <= i < n implies (#[trigger] spec_cdf(counts)[i]).wf() by {
        lemma_total_prefix(counts, i + 1, n);
        assert(counts.subrange(0, n) =~= counts);
    }
    assert forall|i: int, j: int| 0 <= i <= j < n implies (#[trigger] spec_cdf(counts)[i]).num <= (
    #[trigger] spec_cdf(counts)[j]).num by {
        lemma_total_prefix(counts, i + 1, j + 1);
        lemma_total_prefix(counts, i + 1, n);
        lemma_total_prefix(counts, j + 1, n);
        assert(counts.subrange(0, n) =~= counts);
        assert(total(counts.subrange(0, i + 1)) <= total(counts.subrange(0, j + 1)));
        assert(total(counts.subrange(0, j + 1)) <= total(counts));
        assert(total(counts) <= spec_denominator(counts));
    }
}

} // verus!
