//! The running sum of cubed deviations, over a `Variance`.

use vstd::prelude::*;
use crate::binary64::facts::lemma_small_integers;
use crate::binary64::format::{Binary64, ONE_BITS, TWO_BITS, THREE_BITS};
use crate::moments::variance::{Variance, VarianceState};
use crate::moments::arithmetic::Arithmetic;

verus! {

/// What a `Skewness` holds: the state of its variance and the sum of the
/// cubed deviations of the observations from the running mean.
pub struct SkewnessState<A> {
    pub avg: VarianceState<A>,
    pub sum_3: A,
}

impl<A: Arithmetic> SkewnessState<A> {
    /// No observation yet: every number is zero.
    pub open spec fn empty() -> SkewnessState<A> {
        SkewnessState { avg: VarianceState::<A>::empty(), sum_3: A::count(0) }
    }

    /// An empty state holds zeros only.
    pub open spec fn valid(self) -> bool {
        self.avg.avg.len == 0 ==> self == SkewnessState::<A>::empty()
    }

    /// The sample size.
    pub open spec fn len(self) -> nat {
        self.avg.avg.len
    }

    /// The running mean.
    pub open spec fn mean(self) -> A {
        self.avg.avg.mean
    }

    /// The running sum of squared deviations.
    pub open spec fn sum_2(self) -> A {
        self.avg.sum_2
    }

    /// The state with one more observation counted and nothing else changed.
    pub open spec fn grown(self) -> SkewnessState<A> {
        SkewnessState { avg: self.avg.grown(), sum_3: self.sum_3 }
    }

    /// The state after an observation that has been counted, at the distance
    /// `delta` from the mean before it, where `delta_n` is `delta` divided by
    /// the count `n`. With `term = delta * delta_n * (n - 1)` and the sum of
    /// squares as it was before, the sum of cubes grows by
    /// `term * delta_n * (n - 2) - 3 * delta_n * sum_2`; then the variance
    /// takes the observation in.
    pub open spec fn advanced(self, delta: A, delta_n: A) -> SkewnessState<A> {
        let n = A::count(self.avg.avg.len);
        let term = delta.times(delta_n).times(n.minus(A::count(1)));
        SkewnessState {
            avg: self.avg.advanced(delta, delta_n),
            sum_3: self.sum_3.plus(
                term.times(delta_n).times(n.minus(A::count(2))).minus(
                    A::count(3).times(delta_n).times(self.avg.sum_2),
                ),
            ),
        }
    }

    /// The state after the observation `x`.
    pub open spec fn added(self, x: A) -> SkewnessState<A> {
        let delta = x.minus(self.avg.avg.mean);
        let n = A::count(self.avg.avg.len + 1);
        self.grown().advanced(delta, delta.over(n))
    }

    /// The state after another sample has been merged in. Where one of the two
    /// is empty the result is the other. Else, with `n` and `m` the two counts,
    /// `delta` the distance of the means and `delta_n = delta / (n + m)`, the
    /// sum of cubes grows by
    /// `other.sum_3 + delta * delta_n * delta_n * n * m * (n - m)
    ///  + 3 * delta_n * (n * other.sum_2 - m * sum_2)`,
    /// and the variances merge.
    pub open spec fn merged(self, other: SkewnessState<A>) -> SkewnessState<A> {
        if other.avg.avg.len == 0 {
            self
        } else if self.avg.avg.len == 0 {
            other
        } else {
            let n = A::count(self.avg.avg.len);
            let m = A::count(other.avg.avg.len);
            let delta = other.avg.avg.mean.minus(self.avg.avg.mean);
            let delta_n = delta.over(n.plus(m));
            let shift = delta.times(delta_n).times(delta_n).times(n).times(m).times(
                n.minus(m),
            );
            let cross = A::count(3).times(delta_n).times(
                n.times(other.avg.sum_2).minus(m.times(self.avg.sum_2)),
            );
            SkewnessState {
                avg: self.avg.merged(other.avg),
                sum_3: self.sum_3.plus(other.sum_3.plus(shift).plus(cross)),
            }
        }
    }

    /// The state after the observations of `values`, added in their order to
    /// an empty sample.
    pub open spec fn folded(values: Seq<A>) -> SkewnessState<A>
        decreases values.len(),
    {
        if values.len() == 0 {
            SkewnessState::<A>::empty()
        } else {
            SkewnessState::<A>::folded(values.drop_last()).added(values.last())
        }
    }
}

impl SkewnessState<Binary64> {
    /// The skewness of the sample, `sqrt(n) * sum_3 / sqrt(sum_2^3)`; positive
    /// zero for fewer than two observations and where the sum of squares is
    /// zero.
    pub open spec fn skewness(self) -> Binary64 {
        if self.avg.avg.len < 2 || self.avg.sum_2.zero() {
            Binary64::positive_zero()
        } else {
            let n = Binary64::of_integer(self.avg.avg.len);
            let sum_2 = self.avg.sum_2;
            n.square_root().product(self.sum_3).quotient(
                sum_2.product(sum_2).product(sum_2).square_root(),
            )
        }
    }
}

/// Estimates the arithmetic mean, the variance and the skewness of a sequence
/// of numbers.
#[derive(Clone, Copy, Debug)]
pub struct Skewness {
    /// Estimator of mean and variance.
    avg: Variance,
    /// The running sum of cubed deviations.
    sum_3: Binary64,
}

impl View for Skewness {
    type V = SkewnessState<Binary64>;

    closed spec fn view(&self) -> SkewnessState<Binary64> {
        SkewnessState { avg: self.avg@, sum_3: self.sum_3 }
    }
}

impl Skewness {
    /// The invariant of the type.
    pub open spec fn wf(&self) -> bool {
        self@.valid() && self@.len() <= u64::MAX
    }

    /// Creates an estimator of an empty sample.
    pub fn new() -> (r: Skewness)
        ensures
            r.wf(),
            r@ == SkewnessState::<Binary64>::empty(),
    {
        proof {
            lemma_small_integers();
        }
        Skewness { avg: Variance::new(), sum_3: Binary64 { bits: 0 } }
    }

    /// Adds an observation to the sample.
    pub fn add(&mut self, x: Binary64)
        requires
            old(self).wf(),
            old(self)@.len() < u64::MAX,
        ensures
            final(self).wf(),
            final(self)@ == old(self)@.added(x),
            final(self)@.len() == old(self)@.len() + 1,
    {
        proof {
            lemma_small_integers();
        }
        let delta = x.sub(self.mean());
        self.increment();
        let n = Binary64::from_u64(self.len());
        self.add_inner(delta, delta.div(n));
    }

    /// Counts one more observation, and changes nothing else.
    pub(crate) fn increment(&mut self)
        requires
            old(self)@.len() < u64::MAX,
        ensures
            final(self)@ == old(self)@.grown(),
    {
        self.avg.increment();
    }

    /// Takes in an observation that has been counted, given its distance
    /// `delta` from the mean and `delta_n`, that distance divided by the count.
    pub(crate) fn add_inner(&mut self, delta: Binary64, delta_n: Binary64)
        requires
            old(self)@.len() <= u64::MAX,
        ensures
            final(self)@ == old(self)@.advanced(delta, delta_n),
    {
        proof {
            lemma_small_integers();
        }
        let n = Binary64::from_u64(self.len());
        let one = Binary64 { bits: ONE_BITS };
        let two = Binary64 { bits: TWO_BITS };
        let three = Binary64 { bits: THREE_BITS };
        let term = delta.mul(delta_n).mul(n.sub(one));
        self.sum_3 = self.sum_3.add(
            term.mul(delta_n).mul(n.sub(two)).sub(three.mul(delta_n).mul(self.avg.sum_2())),
        );
        self.avg.add_inner(delta, delta_n);
    }

    /// The running sum of cubed deviations.
    pub(crate) fn sum_3(&self) -> (r: Binary64)
        ensures
            r == self@.sum_3,
    {
        self.sum_3
    }

    /// The running sum of squared deviations.
    pub(crate) fn sum_2(&self) -> (r: Binary64)
        ensures
            r == self@.sum_2(),
    {
        self.avg.sum_2()
    }

    /// Whether the sample is empty.
    pub fn is_empty(&self) -> (r: bool)
        ensures
            r == (self@.len() == 0),
    {
        self.avg.is_empty()
    }

    /// The sample size.
    pub fn len(&self) -> (r: u64)
        ensures
            r == self@.len(),
    {
        self.avg.len()
    }

    /// The mean of the sample, positive zero if it is empty.
    pub fn mean(&self) -> (r: Binary64)
        ensures
            r == self@.mean(),
            self.wf() && self@.len() == 0 ==> r == Binary64::positive_zero(),
    {
        proof {
            lemma_small_integers();
        }
        self.avg.mean()
    }

    /// The unbiased estimate of the variance of the population.
    pub fn sample_variance(&self) -> (r: Binary64)
        ensures
            r == self@.avg.sample_variance(),
    {
        self.avg.sample_variance()
    }

    /// The variance of the sample, a biased estimate of that of the population.
    pub fn population_variance(&self) -> (r: Binary64)
        ensures
            r == self@.avg.population_variance(),
    {
        self.avg.population_variance()
    }

    /// The standard error of the mean.
    pub fn error_mean(&self) -> (r: Binary64)
        ensures
            r == self@.avg.error_mean(),
    {
        self.avg.error_mean()
    }

    /// The skewness of the sample.
    pub fn skewness(&self) -> (r: Binary64)
        ensures
            r == self@.skewness(),
    {
        let sum_2 = self.avg.sum_2();
        if self.len() < 2 || sum_2.is_zero() {
            return Binary64 { bits: 0 };
        }
        let n = Binary64::from_u64(self.len());
        n.sqrt().mul(self.sum_3).div(sum_2.mul(sum_2).mul(sum_2).sqrt())
    }

    /// Merges another sample into this one.
    pub fn merge(&mut self, other: &Skewness)
        requires
            old(self).wf(),
            other.wf(),
            old(self)@.len() + other@.len() <= u64::MAX,
        ensures
            final(self).wf(),
            final(self)@ == old(self)@.merged(other@),
            final(self)@.len() == old(self)@.len() + other@.len(),
    {
        proof {
            lemma_small_integers();
        }
        if other.is_empty() {
            return;
        }
        if self.is_empty() {
            *self = *other;
            return;
        }
        let n = Binary64::from_u64(self.len());
        let m = Binary64::from_u64(other.len());
        let three = Binary64 { bits: THREE_BITS };
        let delta = other.mean().sub(self.mean());
        let delta_n = delta.div(n.add(m));
        let shift = delta.mul(delta_n).mul(delta_n).mul(n).mul(m).mul(n.sub(m));
        let cross = three.mul(delta_n).mul(
            n.mul(other.avg.sum_2()).sub(m.mul(self.avg.sum_2())),
        );
        self.sum_3 = self.sum_3.add(other.sum_3.add(shift).add(cross));
        self.avg.merge(&other.avg);
    }

    /// The estimator of the sample that holds `values` in their order.
    pub fn from_slice(values: &[Binary64]) -> (r: Skewness)
        ensures
            r.wf(),
            r@ == SkewnessState::<Binary64>::folded(values@),
            r@.len() == values@.len(),
    {
        let mut a = Skewness::new();
        let mut i: usize = 0;
        while i < values.len()
            invariant
                i <= values.len(),
                a.wf(),
                a@ == SkewnessState::<Binary64>::folded(values@.take(i as int)),
                a@.len() == i,
            decreases values.len() - i,
        {
            proof {
                let next = values@.take(i + 1);
                assert(next.drop_last() =~= values@.take(i as int));
            }
            a.add(values[i]);
            i = i + 1;
        }
        proof {
            assert(values@.take(i as int) =~= values@);
        }
        a
    }
}

} // verus!
