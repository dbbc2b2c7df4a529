//! What holds of the estimators in any arithmetic, whatever the observations
//! are: how many they count, what each owns, and what merging an empty
//! sample does.

use vstd::prelude::*;
use crate::moments::arithmetic::Arithmetic;
use crate::moments::kurtosis::KurtosisState;
use crate::moments::mean::MeanState;
use crate::moments::skewness::SkewnessState;
use crate::moments::variance::VarianceState;

verus! {

/// The mean that a variance owns is the mean of the same observations.
pub proof fn lemma_variance_owns_mean<A: Arithmetic>(values: Seq<A>)
    ensures
        VarianceState::<A>::folded(values).avg == MeanState::<A>::folded(values),
    decreases values.len(),
{
    if values.len() > 0 {
        lemma_variance_owns_mean(values.drop_last());
    }
}

/// The variance that a skewness owns is the variance of the same observations.
pub proof fn lemma_skewness_owns_variance<A: Arithmetic>(values: Seq<A>)
    ensures
        SkewnessState::<A>::folded(values).avg == VarianceState::<A>::folded(values),
    decreases values.len(),
{
    if values.len() > 0 {
        lemma_skewness_owns_variance(values.drop_last());
    }
}

/// The skewness that a kurtosis owns is the skewness of the same observations.
pub proof fn lemma_kurtosis_owns_skewness<A: Arithmetic>(values: Seq<A>)
    ensures
        KurtosisState::<A>::folded(values).avg == SkewnessState::<A>::folded(values),
    decreases values.len(),
{
    if values.len() > 0 {
        lemma_kurtosis_owns_skewness(values.drop_last());
    }
}

/// After `n` observations, added one by one, every estimator counts `n`.
pub proof fn lemma_folded_len<A: Arithmetic>(values: Seq<A>)
    ensures
        MeanState::<A>::folded(values).len == values.len(),
        VarianceState::<A>::folded(values).len() == values.len(),
        SkewnessState::<A>::folded(values).len() == values.len(),
        KurtosisState::<A>::folded(values).len() == values.len(),
    decreases values.len(),
{
    if values.len() > 0 {
        lemma_folded_len(values.drop_last());
    }
}

/// A sample built by adding is valid: empty only in its first state.
pub proof fn lemma_folded_valid<A: Arithmetic>(values: Seq<A>)
    ensures
        MeanState::<A>::folded(values).valid(),
        VarianceState::<A>::folded(values).valid(),
        SkewnessState::<A>::folded(values).valid(),
        KurtosisState::<A>::folded(values).valid(),
{
    lemma_folded_len(values);
}

/// A merged sample counts the observations of both, in either order of
/// merging.
pub proof fn lemma_merged_len<A: Arithmetic>(a: KurtosisState<A>, b: KurtosisState<A>)
    ensures
        a.merged(b).len() == a.len() + b.len(),
        a.avg.merged(b.avg).len() == a.len() + b.len(),
        a.avg.avg.merged(b.avg.avg).len() == a.len() + b.len(),
        a.avg.avg.avg.merged(b.avg.avg.avg).len == a.len() + b.len(),
        a.merged(b).len() == b.merged(a).len(),
{
}

/// A sequence cut in two at any place, each part folded and the two merged,
/// counts what the whole sequence counts.
pub proof fn lemma_split_merged_len<A: Arithmetic>(values: Seq<A>, mid: int)
    requires
        0 <= mid <= values.len(),
    ensures
        KurtosisState::<A>::folded(values.take(mid)).merged(
            KurtosisState::<A>::folded(values.skip(mid)),
        ).len() == KurtosisState::<A>::folded(values).len(),
{
    lemma_folded_len(values);
    lemma_folded_len(values.take(mid));
    lemma_folded_len(values.skip(mid));
    lemma_merged_len(
        KurtosisState::<A>::folded(values.take(mid)),
        KurtosisState::<A>::folded(values.skip(mid)),
    );
}

/// What a kurtosis owns after a merge is the merge of what the two own, and a
/// valid sample stays valid.
pub proof fn lemma_merged_owns<A: Arithmetic>(a: KurtosisState<A>, b: KurtosisState<A>)
    ensures
        a.merged(b).avg == a.avg.merged(b.avg),
        a.avg.merged(b.avg).avg == a.avg.avg.merged(b.avg.avg),
        a.avg.avg.merged(b.avg.avg).avg == a.avg.avg.avg.merged(b.avg.avg.avg),
        a.valid() && b.valid() ==> a.merged(b).valid(),
{
}

/// Merging an empty sample into an estimator leaves it as it was, every
/// number of it bit for bit, and an empty estimator that merges a valid one
/// takes over its state.
pub proof fn lemma_merged_with_empty<A: Arithmetic>(a: KurtosisState<A>)
    ensures
        a.merged(KurtosisState::<A>::empty()) == a,
        a.avg.merged(SkewnessState::<A>::empty()) == a.avg,
        a.avg.avg.merged(VarianceState::<A>::empty()) == a.avg.avg,
        a.avg.avg.avg.merged(MeanState::<A>::empty()) == a.avg.avg.avg,
        a.valid() ==> KurtosisState::<A>::empty().merged(a) == a,
        a.avg.valid() ==> SkewnessState::<A>::empty().merged(a.avg) == a.avg,
        a.avg.avg.valid() ==> VarianceState::<A>::empty().merged(a.avg.avg) == a.avg.avg,
        a.avg.avg.avg.valid() ==> MeanState::<A>::empty().merged(a.avg.avg.avg) == a.avg.avg.avg,
{
}

} // verus!
