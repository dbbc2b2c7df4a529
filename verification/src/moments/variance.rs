//! The running sum of squared deviations, over a `Mean`.

use vstd::prelude::*;
use crate::binary64::facts::lemma_small_integers;
use crate::binary64::format::{Binary64, ONE_BITS};
use crate::moments::mean::{Mean, MeanState};
use crate::moments::arithmetic::Arithmetic;

verus! {

/// What a `Variance` holds: the state of its mean and the sum of the squared
/// deviations of the observations from the running mean.
pub struct VarianceState<A> {
    pub avg: MeanState<A>,
    pub sum_2: A,
}

impl<A: Arithmetic> VarianceState<A> {
    /// No observation yet: every number is zero.
    pub open spec fn empty() -> VarianceState<A> {
        VarianceState { avg: MeanState::<A>::empty(), sum_2: A::count(0) }
    }

    /// An empty state holds zeros only.
    pub open spec fn valid(self) -> bool {
        self.avg.len == 0 ==> self == VarianceState::<A>::empty()
    }

    /// The sample size.
    pub open spec fn len(self) -> nat {
        self.avg.len
    }

    /// The running mean.
    pub open spec fn mean(self) -> A {
        self.avg.mean
    }

    /// The state with one more observation counted and nothing else changed.
    pub open spec fn grown(self) -> VarianceState<A> {
        VarianceState { avg: self.avg.grown(), sum_2: self.sum_2 }
    }

    /// The state after an observation that has been counted, at the distance
    /// `delta` from the mean before it, where `delta_n` is `delta` divided by
    /// the count `n`: the sum grows by `delta * delta_n * (n - 1)`, and the
    /// mean moves by `delta_n`.
    pub open spec fn advanced(self, delta: A, delta_n: A) -> VarianceState<A> {
        let n = A::count(self.avg.len);
        VarianceState {
            avg: self.avg.advanced(delta_n),
            sum_2: self.sum_2.plus(delta.times(delta_n).times(n.minus(A::count(1)))),
        }
    }

    /// The state after the observation `x`.
    pub open spec fn added(self, x: A) -> VarianceState<A> {
        let delta = x.minus(self.avg.mean);
        let n = A::count(self.avg.len + 1);
        self.grown().advanced(delta, delta.over(n))
    }

    /// The state after another sample has been merged in. Where one of the two
    /// is empty the result is the other. Else, with `n` and `m` the two counts
    /// and `delta` the distance of the means, the sum grows by
    /// `other.sum_2 + delta * delta * n * m / (n + m)`, and the means merge.
    pub open spec fn merged(self, other: VarianceState<A>) -> VarianceState<A> {
        if other.avg.len == 0 {
            self
        } else if self.avg.len == 0 {
            other
        } else {
            let n = A::count(self.avg.len);
            let m = A::count(other.avg.len);
            let delta = other.avg.mean.minus(self.avg.mean);
            VarianceState {
                avg: self.avg.merged(other.avg),
                sum_2: self.sum_2.plus(
                    other.sum_2.plus(delta.times(delta).times(n).times(m).over(n.plus(m))),
                ),
            }
        }
    }

    /// The state after the observations of `values`, added in their order to
    /// an empty sample.
    pub open spec fn folded(values: Seq<A>) -> VarianceState<A>
        decreases values.len(),
    {
        if values.len() == 0 {
            VarianceState::<A>::empty()
        } else {
            VarianceState::<A>::folded(values.drop_last()).added(values.last())
        }
    }
}

impl VarianceState<Binary64> {
    /// The unbiased estimate of the variance, `sum_2 / (n - 1)`; positive zero
    /// for fewer than two observations.
    pub open spec fn sample_variance(self) -> Binary64 {
        if self.avg.len < 2 {
            Binary64::positive_zero()
        } else {
            self.sum_2.quotient(Binary64::of_integer((self.avg.len - 1) as nat))
        }
    }

    /// The variance of the sample itself, `sum_2 / n`; positive zero for an
    /// empty sample.
    pub open spec fn population_variance(self) -> Binary64 {
        if self.avg.len == 0 {
            Binary64::positive_zero()
        } else {
            self.sum_2.quotient(Binary64::of_integer(self.avg.len))
        }
    }

    /// The standard error of the mean, the square root of
    /// `sample_variance / n`; positive zero for fewer than two observations.
    pub open spec fn error_mean(self) -> Binary64 {
        if self.avg.len < 2 {
            Binary64::positive_zero()
        } else {
            self.sample_variance().quotient(Binary64::of_integer(self.avg.len)).square_root()
        }
    }
}

/// Estimates the arithmetic mean and the variance of a sequence of numbers.
#[derive(Clone, Copy, Debug)]
pub struct Variance {
    /// Estimator of the mean.
    avg: Mean,
    /// The running sum of squared deviations.
    sum_2: Binary64,
}

impl View for Variance {
    type V = VarianceState<Binary64>;

    closed spec fn view(&self) -> VarianceState<Binary64> {
        VarianceState { avg: self.avg@, sum_2: self.sum_2 }
    }
}

impl Variance {
    /// The invariant of the type.
    pub open spec fn wf(&self) -> bool {
        self@.valid() && self@.len() <= u64::MAX
    }

    /// Creates an estimator of an empty sample.
    pub fn new() -> (r: Variance)
        ensures
            r.wf(),
            r@ == VarianceState::<Binary64>::empty(),
    {
        proof {
            lemma_small_integers();
        }
        Variance { avg: Mean::new(), sum_2: Binary64 { bits: 0 } }
    }

    /// Adds an observation to the sample.
    pub fn add(&mut self, x: Binary64)
        requires
            old(self).wf(),
            old(self)@.len() < u64::MAX,
        ensures
            final(self).wf(),
            final(self)@ == old(self)@.added(x),
            final(self)@.len() == old(self)@.len() + 1,
    {
        proof {
            lemma_small_integers();
        }
        let delta = x.sub(self.mean());
        self.increment();
        let n = Binary64::from_u64(self.len());
        self.add_inner(delta, delta.div(n));
    }

    /// Counts one more observation, and changes nothing else.
    pub(crate) fn increment(&mut self)
        requires
            old(self)@.len() < u64::MAX,
        ensures
            final(self)@ == old(self)@.grown(),
    {
        self.avg.increment();
    }

    /// Takes in an observation that has been counted, given its distance
    /// `delta` from the mean and `delta_n`, that distance divided by the count.
    pub(crate) fn add_inner(&mut self, delta: Binary64, delta_n: Binary64)
        requires
            old(self)@.len() <= u64::MAX,
        ensures
            final(self)@ == old(self)@.advanced(delta, delta_n),
    {
        proof {
            lemma_small_integers();
        }
        let n = Binary64::from_u64(self.len());
        let one = Binary64 { bits: ONE_BITS };
        self.sum_2 = self.sum_2.add(delta.mul(delta_n).mul(n.sub(one)));
        self.avg.add_inner(delta_n);
    }

    /// The running sum of squared deviations.
    pub(crate) fn sum_2(&self) -> (r: Binary64)
        ensures
            r == self@.sum_2,
    {
        self.sum_2
    }

    /// Whether the sample is empty.
    pub fn is_empty(&self) -> (r: bool)
        ensures
            r == (self@.len() == 0),
    {
        self.avg.is_empty()
    }

    /// The sample size.
    pub fn len(&self) -> (r: u64)
        ensures
            r == self@.len(),
    {
        self.avg.len()
    }

    /// The mean of the sample, positive zero if it is empty.
    pub fn mean(&self) -> (r: Binary64)
        ensures
            r == self@.mean(),
            self.wf() && self@.len() == 0 ==> r == Binary64::positive_zero(),
    {
        proof {
            lemma_small_integers();
        }
        self.avg.mean()
    }

    /// The unbiased estimate of the variance of the population.
    pub fn sample_variance(&self) -> (r: Binary64)
        ensures
            r == self@.sample_variance(),
    {
        if self.avg.len() < 2 {
            return Binary64 { bits: 0 };
        }
        self.sum_2.div(Binary64::from_u64(self.avg.len() - 1))
    }

    /// The variance of the sample, a biased estimate of that of the population.
    pub fn population_variance(&self) -> (r: Binary64)
        ensures
            r == self@.population_variance(),
    {
        if self.avg.len() == 0 {
            return Binary64 { bits: 0 };
        }
        self.sum_2.div(Binary64::from_u64(self.avg.len()))
    }

    /// The standard error of the mean.
    pub fn error_mean(&self) -> (r: Binary64)
        ensures
            r == self@.error_mean(),
    {
        if self.avg.len() < 2 {
            return Binary64 { bits: 0 };
        }
        self.sample_variance().div(Binary64::from_u64(self.avg.len())).sqrt()
    }

    /// Merges another sample into this one.
    pub fn merge(&mut self, other: &Variance)
        requires
            old(self).wf(),
            other.wf(),
            old(self)@.len() + other@.len() <= u64::MAX,
        ensures
            final(self).wf(),
            final(self)@ == old(self)@.merged(other@),
            final(self)@.len() == old(self)@.len() + other@.len(),
    {
        proof {
            lemma_small_integers();
        }
        if other.is_empty() {
            return;
        }
        if self.is_empty() {
            *self = *other;
            return;
        }
        let n = Binary64::from_u64(self.len());
        let m = Binary64::from_u64(other.len());
        let delta = other.mean().sub(self.mean());
        self.sum_2 = self.sum_2.add(
            other.sum_2.add(delta.mul(delta).mul(n).mul(m).div(n.add(m))),
        );
        self.avg.merge(&other.avg);
    }

    /// The estimator of the sample that holds `values` in their order.
    pub fn from_slice(values: &[Binary64]) -> (r: Variance)
        ensures
            r.wf(),
            r@ == VarianceState::<Binary64>::folded(values@),
            r@.len() == values@.len(),
    {
        let mut a = Variance::new();
        let mut i: usize = 0;
        while i < values.len()
            invariant
                i <= values.len(),
                a.wf(),
                a@ == VarianceState::<Binary64>::folded(values@.take(i as int)),
                a@.len() == i,
            decreases values.len() - i,
        {
            proof {
                let next = values@.take(i + 1);
                assert(next.drop_last() =~= values@.take(i as int));
            }
            a.add(values[i]);
            i = i + 1;
        }
        proof {
            assert(values@.take(i as int) =~= values@);
        }
        a
    }
}

} // verus!
