//! The running sum of deviations to the fourth power, over a `Skewness`.

use vstd::prelude::*;
use crate::binary64::facts::lemma_small_integers;
use crate::binary64::format::{Binary64, ONE_BITS, THREE_BITS, FOUR_BITS, SIX_BITS};
use crate::moments::skewness::{Skewness, SkewnessState};
use crate::moments::arithmetic::Arithmetic;

verus! {

/// What a `Kurtosis` holds: the state of its skewness and the sum of the
/// deviations of the observations from the running mean, to the fourth power.
pub struct KurtosisState<A> {
    pub avg: SkewnessState<A>,
    pub sum_4: A,
}

impl<A: Arithmetic> KurtosisState<A> {
    /// No observation yet: every number is zero.
    pub open spec fn empty() -> KurtosisState<A> {
        KurtosisState { avg: SkewnessState::<A>::empty(), sum_4: A::count(0) }
    }

    /// An empty state holds zeros only.
    pub open spec fn valid(self) -> bool {
        self.avg.avg.avg.len == 0 ==> self == KurtosisState::<A>::empty()
    }

    /// The sample size.
    pub open spec fn len(self) -> nat {
        self.avg.avg.avg.len
    }

    /// The running mean.
    pub open spec fn mean(self) -> A {
        self.avg.avg.avg.mean
    }

    /// The running sum of squared deviations.
    pub open spec fn sum_2(self) -> A {
        self.avg.avg.sum_2
    }

    /// The running sum of cubed deviations.
    pub open spec fn sum_3(self) -> A {
        self.avg.sum_3
    }

    /// The state with one more observation counted and nothing else changed.
    pub open spec fn grown(self) -> KurtosisState<A> {
        KurtosisState { avg: self.avg.grown(), sum_4: self.sum_4 }
    }

    /// The state after an observation that has been counted, at the distance
    /// `delta` from the mean before it, where `delta_n` is `delta` divided by
    /// the count `n`. With `term = delta * delta_n * (n - 1)` and the sums of
    /// squares and cubes as they were before, the sum of fourth powers grows by
    /// `term * delta_n^2 * (n * n - 3 * n + 3) + 6 * delta_n^2 * sum_2
    ///  - 4 * delta_n * sum_3`;
    /// then the skewness takes the observation in.
    pub open spec fn advanced(self, delta: A, delta_n: A) -> KurtosisState<A> {
        let n = A::count(self.avg.avg.avg.len);
        let term = delta.times(delta_n).times(n.minus(A::count(1)));
        let delta_n_sq = delta_n.times(delta_n);
        let weight = n.times(n).minus(A::count(3).times(n)).plus(A::count(3));
        KurtosisState {
            avg: self.avg.advanced(delta, delta_n),
            sum_4: self.sum_4.plus(
                term.times(delta_n_sq).times(weight).plus(
                    A::count(6).times(delta_n_sq).times(self.avg.avg.sum_2),
                ).minus(A::count(4).times(delta_n).times(self.avg.sum_3)),
            ),
        }
    }

    /// The state after the observation `x`.
    pub open spec fn added(self, x: A) -> KurtosisState<A> {
        let delta = x.minus(self.avg.avg.avg.mean);
        let n = A::count(self.avg.avg.avg.len + 1);
        self.grown().advanced(delta, delta.over(n))
    }

    /// The state after another sample has been merged in. Where one of the two
    /// is empty the result is the other. Else, with `n` and `m` the two counts,
    /// `delta` the distance of the means and `delta_n = delta / (n + m)`, the
    /// sum of fourth powers grows by
    /// `other.sum_4 + delta * delta_n * delta_n^2 * n * m * (n * n - n * m + m * m)
    ///  + 6 * delta_n^2 * (n * n * other.sum_2 + m * m * sum_2)
    ///  + 4 * delta_n * (n * other.sum_3 - m * sum_3)`,
    /// and the skewnesses merge.
    pub open spec fn merged(self, other: KurtosisState<A>) -> KurtosisState<A> {
        if other.avg.avg.avg.len == 0 {
            self
        } else if self.avg.avg.avg.len == 0 {
            other
        } else {
            let n = A::count(self.avg.avg.avg.len);
            let m = A::count(other.avg.avg.avg.len);
            let delta = other.avg.avg.avg.mean.minus(self.avg.avg.avg.mean);
            let delta_n = delta.over(n.plus(m));
            let delta_n_sq = delta_n.times(delta_n);
            let shift = delta.times(delta_n).times(delta_n_sq).times(n).times(m).times(
                n.times(n).minus(n.times(m)).plus(m.times(m)),
            );
            let squares = A::count(6).times(delta_n_sq).times(
                n.times(n).times(other.avg.avg.sum_2).plus(
                    m.times(m).times(self.avg.avg.sum_2),
                ),
            );
            let cubes = A::count(4).times(delta_n).times(
                n.times(other.avg.sum_3).minus(m.times(self.avg.sum_3)),
            );
            KurtosisState {
                avg: self.avg.merged(other.avg),
                sum_4: self.sum_4.plus(other.sum_4.plus(shift).plus(squares).plus(cubes)),
            }
        }
    }

    /// The state after the observations of `values`, added in their order to
    /// an empty sample.
    pub open spec fn folded(values: Seq<A>) -> KurtosisState<A>
        decreases values.len(),
    {
        if values.len() == 0 {
            KurtosisState::<A>::empty()
        } else {
            KurtosisState::<A>::folded(values.drop_last()).added(values.last())
        }
    }
}

impl KurtosisState<Binary64> {
    /// The excess kurtosis of the sample, `n * sum_4 / (sum_2 * sum_2) - 3`;
    /// positive zero where the sum of fourth powers is zero.
    pub open spec fn kurtosis(self) -> Binary64 {
        if self.sum_4.zero() {
            Binary64::positive_zero()
        } else {
            let n = Binary64::of_integer(self.avg.avg.avg.len);
            let sum_2 = self.avg.avg.sum_2;
            n.product(self.sum_4).quotient(sum_2.product(sum_2)).difference(Binary64::three())
        }
    }
}

/// Estimates the arithmetic mean, the variance, the skewness and the kurtosis
/// of a sequence of numbers.
#[derive(Clone, Copy, Debug)]
pub struct Kurtosis {
    /// Estimator of mean, variance and skewness.
    avg: Skewness,
    /// The running sum of deviations to the fourth power.
    sum_4: Binary64,
}

impl View for Kurtosis {
    type V = KurtosisState<Binary64>;

    closed spec fn view(&self) -> KurtosisState<Binary64> {
        KurtosisState { avg: self.avg@, sum_4: self.sum_4 }
    }
}

impl Kurtosis {
    /// The invariant of the type.
    pub open spec fn wf(&self) -> bool {
        self@.valid() && self@.len() <= u64::MAX
    }

    /// Creates an estimator of an empty sample.
    pub fn new() -> (r: Kurtosis)
        ensures
            r.wf(),
            r@ == KurtosisState::<Binary64>::empty(),
    {
        proof {
            lemma_small_integers();
        }
        Kurtosis { avg: Skewness::new(), sum_4: Binary64 { bits: 0 } }
    }

    /// Adds an observation to the sample.
    pub fn add(&mut self, x: Binary64)
        requires
            old(self).wf(),
            old(self)@.len() < u64::MAX,
        ensures
            final(self).wf(),
            final(self)@ == old(self)@.added(x),
            final(self)@.len() == old(self)@.len() + 1,
    {
        proof {
            lemma_small_integers();
        }
        let delta = x.sub(self.mean());
        self.increment();
        let n = Binary64::from_u64(self.len());
        self.add_inner(delta, delta.div(n));
    }

    /// Counts one more observation, and changes nothing else.
    fn increment(&mut self)
        requires
            old(self)@.len() < u64::MAX,
        ensures
            final(self)@ == old(self)@.grown(),
    {
        self.avg.increment();
    }

    /// Takes in an observation that has been counted, given its distance
    /// `delta` from the mean and `delta_n`, that distance divided by the count.
    fn add_inner(&mut self, delta: Binary64, delta_n: Binary64)
        requires
            old(self)@.len() <= u64::MAX,
        ensures
            final(self)@ == old(self)@.advanced(delta, delta_n),
    {
        proof {
            lemma_small_integers();
        }
        let n = Binary64::from_u64(self.len());
        let one = Binary64 { bits: ONE_BITS };
        let three = Binary64 { bits: THREE_BITS };
        let four = Binary64 { bits: FOUR_BITS };
        let six = Binary64 { bits: SIX_BITS };
        let term = delta.mul(delta_n).mul(n.sub(one));
        let delta_n_sq = delta_n.mul(delta_n);
        let weight = n.mul(n).sub(three.mul(n)).add(three);
        self.sum_4 = self.sum_4.add(
            term.mul(delta_n_sq).mul(weight).add(six.mul(delta_n_sq).mul(self.avg.sum_2())).sub(
                four.mul(delta_n).mul(self.avg.sum_3()),
            ),
        );
        self.avg.add_inner(delta, delta_n);
    }

    /// Whether the sample is empty.
    pub fn is_empty(&self) -> (r: bool)
        ensures
            r == (self@.len() == 0),
    {
        self.avg.is_empty()
    }

    /// The mean of the sample, positive zero if it is empty.
    pub fn mean(&self) -> (r: Binary64)
        ensures
            r == self@.mean(),
            self.wf() && self@.len() == 0 ==> r == Binary64::positive_zero(),
    {
        proof {
            lemma_small_integers();
        }
        self.avg.mean()
    }

    /// The sample size.
    pub fn len(&self) -> (r: u64)
        ensures
            r == self@.len(),
    {
        self.avg.len()
    }

    /// The unbiased estimate of the variance of the population.
    pub fn sample_variance(&self) -> (r: Binary64)
        ensures
            r == self@.avg.avg.sample_variance(),
    {
        self.avg.sample_variance()
    }

    /// The variance of the sample, a biased estimate of that of the population.
    pub fn population_variance(&self) -> (r: Binary64)
        ensures
            r == self@.avg.avg.population_variance(),
    {
        self.avg.population_variance()
    }

    /// The standard error of the mean.
    pub fn error_mean(&self) -> (r: Binary64)
        ensures
            r == self@.avg.avg.error_mean(),
    {
        self.avg.error_mean()
    }

    /// The skewness of the sample.
    pub fn skewness(&self) -> (r: Binary64)
        ensures
            r == self@.avg.skewness(),
    {
        self.avg.skewness()
    }

    /// The excess kurtosis of the sample.
    pub fn kurtosis(&self) -> (r: Binary64)
        ensures
            r == self@.kurtosis(),
            self.wf() && self@.len() == 0 ==> r == Binary64::positive_zero(),
    {
        proof {
            lemma_small_integers();
        }
        if self.sum_4.is_zero() {
            return Binary64 { bits: 0 };
        }
        let n = Binary64::from_u64(self.len());
        let three = Binary64 { bits: THREE_BITS };
        let sum_2 = self.avg.sum_2();
        n.mul(self.sum_4).div(sum_2.mul(sum_2)).sub(three)
    }

    /// Merges another sample into this one.
    pub fn merge(&mut self, other: &Kurtosis)
        requires
            old(self).wf(),
            other.wf(),
            old(self)@.len() + other@.len() <= u64::MAX,
        ensures
            final(self).wf(),
            final(self)@ == old(self)@.merged(other@),
            final(self)@.len() == old(self)@.len() + other@.len(),
    {
        proof {
            lemma_small_integers();
        }
        if other.is_empty() {
            return;
        }
        if self.is_empty() {
            *self = *other;
            return;
        }
        let n = Binary64::from_u64(self.len());
        let m = Binary64::from_u64(other.len());
        let four = Binary64 { bits: FOUR_BITS };
        let six = Binary64 { bits: SIX_BITS };
        let delta = other.mean().sub(self.mean());
        let delta_n = delta.div(n.add(m));
        let delta_n_sq = delta_n.mul(delta_n);
        let shift = delta.mul(delta_n).mul(delta_n_sq).mul(n).mul(m).mul(
            n.mul(n).sub(n.mul(m)).add(m.mul(m)),
        );
        let squares = six.mul(delta_n_sq).mul(
            n.mul(n).mul(other.avg.sum_2()).add(m.mul(m).mul(self.avg.sum_2())),
        );
        let cubes = four.mul(delta_n).mul(
            n.mul(other.avg.sum_3()).sub(m.mul(self.avg.sum_3())),
        );
        self.sum_4 = self.sum_4.add(other.sum_4.add(shift).add(squares).add(cubes));
        self.avg.merge(&other.avg);
    }

    /// The estimator of the sample that holds `values` in their order.
    pub fn from_slice(values: &[Binary64]) -> (r: Kurtosis)
        ensures
            r.wf(),
            r@ == KurtosisState::<Binary64>::folded(values@),
            r@.len() == values@.len(),
    {
        let mut a = Kurtosis::new();
        let mut i: usize = 0;
        while i < values.len()
            invariant
                i <= values.len(),
                a.wf(),
                a@ == KurtosisState::<Binary64>::folded(values@.take(i as int)),
                a@.len() == i,
            decreases values.len() - i,
        {
            proof {
                let next = values@.take(i + 1);
                assert(next.drop_last() =~= values@.take(i as int));
            }
            a.add(values[i]);
            i = i + 1;
        }
        proof {
            assert(values@.take(i as int) =~= values@);
        }
        a
    }
}

} // verus!
