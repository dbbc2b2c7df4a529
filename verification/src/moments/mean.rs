//! The sample size and the running arithmetic mean.

use vstd::prelude::*;
use crate::binary64::facts::lemma_small_integers;
use crate::binary64::format::Binary64;
use crate::moments::arithmetic::Arithmetic;

verus! {

/// What a `Mean` holds: the number of observations and their running mean.
pub struct MeanState<A> {
    pub len: nat,
    pub mean: A,
}

impl<A: Arithmetic> MeanState<A> {
    /// No observation yet: the mean is zero.
    pub open spec fn empty() -> MeanState<A> {
        MeanState { len: 0, mean: A::count(0) }
    }

    /// An empty state holds a mean of zero.
    pub open spec fn valid(self) -> bool {
        self.len == 0 ==> self == MeanState::<A>::empty()
    }

    /// The state with one more observation counted and nothing else changed.
    pub open spec fn grown(self) -> MeanState<A> {
        MeanState { len: self.len + 1, mean: self.mean }
    }

    /// The state after the mean has moved by `delta_n`, the distance of a new
    /// observation from the mean divided by the new count.
    pub open spec fn advanced(self, delta_n: A) -> MeanState<A> {
        MeanState { len: self.len, mean: self.mean.plus(delta_n) }
    }

    /// The state after the observation `x`: with `n` the new count,
    /// `mean + (x - mean) / n`.
    pub open spec fn added(self, x: A) -> MeanState<A> {
        let delta = x.minus(self.mean);
        let n = A::count(self.len + 1);
        self.grown().advanced(delta.over(n))
    }

    /// The state after another sample has been merged in. Where one of the two
    /// is empty the result is the other; else, with `n` and `m` the two
    /// counts, `mean + (other.mean - mean) * m / (n + m)`.
    pub open spec fn merged(self, other: MeanState<A>) -> MeanState<A> {
        if other.len == 0 {
            self
        } else if self.len == 0 {
            other
        } else {
            let n = A::count(self.len);
            let m = A::count(other.len);
            let delta = other.mean.minus(self.mean);
            MeanState {
                len: self.len + other.len,
                mean: self.mean.plus(delta.times(m).over(n.plus(m))),
            }
        }
    }

    /// The state after the observations of `values`, added in their order to
    /// an empty sample.
    pub open spec fn folded(values: Seq<A>) -> MeanState<A>
        decreases values.len(),
    {
        if values.len() == 0 {
            MeanState::<A>::empty()
        } else {
            MeanState::<A>::folded(values.drop_last()).added(values.last())
        }
    }
}

/// Estimates the arithmetic mean of a sequence of numbers.
#[derive(Clone, Copy, Debug)]
pub struct Mean {
    /// The running mean.
    avg: Binary64,
    /// The sample size.
    n: u64,
}

impl View for Mean {
    type V = MeanState<Binary64>;

    closed spec fn view(&self) -> MeanState<Binary64> {
        MeanState { len: self.n as nat, mean: self.avg }
    }
}

impl Mean {
    /// The invariant of the type.
    pub open spec fn wf(&self) -> bool {
        self@.valid() && self@.len <= u64::MAX
    }

    /// Creates an estimator of an empty sample.
    pub fn new() -> (r: Mean)
        ensures
            r.wf(),
            r@ == MeanState::<Binary64>::empty(),
    {
        proof {
            lemma_small_integers();
        }
        Mean { avg: Binary64 { bits: 0 }, n: 0 }
    }

    /// Adds an observation to the sample.
    pub fn add(&mut self, x: Binary64)
        requires
            old(self).wf(),
            old(self)@.len < u64::MAX,
        ensures
            final(self).wf(),
            final(self)@ == old(self)@.added(x),
            final(self)@.len == old(self)@.len + 1,
    {
        proof {
            lemma_small_integers();
        }
        let delta = x.sub(self.avg);
        self.increment();
        let n = Binary64::from_u64(self.n);
        self.add_inner(delta.div(n));
    }

    /// Counts one more observation, and changes nothing else.
    pub(crate) fn increment(&mut self)
        requires
            old(self)@.len < u64::MAX,
        ensures
            final(self)@ == old(self)@.grown(),
    {
        self.n = self.n + 1;
    }

    /// Moves the mean by `delta_n`, for an observation that has been counted.
    pub(crate) fn add_inner(&mut self, delta_n: Binary64)
        ensures
            final(self)@ == old(self)@.advanced(delta_n),
    {
        proof {
            lemma_small_integers();
        }
        self.avg = self.avg.add(delta_n);
    }

    /// Whether the sample is empty.
    pub fn is_empty(&self) -> (r: bool)
        ensures
            r == (self@.len == 0),
    {
        self.n == 0
    }

    /// The sample size.
    pub fn len(&self) -> (r: u64)
        ensures
            r == self@.len,
    {
        self.n
    }

    /// The mean of the sample, positive zero if it is empty.
    pub fn mean(&self) -> (r: Binary64)
        ensures
            r == self@.mean,
            self.wf() && self@.len == 0 ==> r == Binary64::positive_zero(),
    {
        proof {
            lemma_small_integers();
        }
        self.avg
    }

    /// Merges another sample into this one.
    pub fn merge(&mut self, other: &Mean)
        requires
            old(self).wf(),
            other.wf(),
            old(self)@.len + other@.len <= u64::MAX,
        ensures
            final(self).wf(),
            final(self)@ == old(self)@.merged(other@),
            final(self)@.len == old(self)@.len + other@.len,
    {
        proof {
            lemma_small_integers();
        }
        if other.n == 0 {
            return;
        }
        if self.n == 0 {
            *self = *other;
            return;
        }
        let n = Binary64::from_u64(self.n);
        let m = Binary64::from_u64(other.n);
        let delta = other.avg.sub(self.avg);
        self.avg = self.avg.add(delta.mul(m).div(n.add(m)));
        self.n = self.n + other.n;
    }

    /// The estimator of the sample that holds `values` in their order.
    pub fn from_slice(values: &[Binary64]) -> (r: Mean)
        ensures
            r.wf(),
            r@ == MeanState::<Binary64>::folded(values@),
            r@.len == values@.len(),
    {
        let mut a = Mean::new();
        let mut i: usize = 0;
        while i < values.len()
            invariant
                i <= values.len(),
                a.wf(),
                a@ == MeanState::<Binary64>::folded(values@.take(i as int)),
                a@.len == i,
            decreases values.len() - i,
        {
            proof {
                let next = values@.take(i + 1);
                assert(next.drop_last() =~= values@.take(i as int));
            }
            a.add(values[i]);
            i = i + 1;
        }
        proof {
            assert(values@.take(i as int) =~= values@);
        }
        a
    }
}

} // verus!
