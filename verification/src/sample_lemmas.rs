//! Facts about sums and products taken over a sequence of sample sizes.

use vstd::prelude::*;
use vstd::seq_lib::{to_multiset_len, to_multiset_remove, to_multiset_contains};
use crate::model::{total, product_over};

verus! {

/// The sum up to and including position `i` is the sum before it plus the
/// size at `i`.
pub proof fn lemma_total_step(samples: Seq<u64>, i: int)
    requires
        0 <= i < samples.len(),
    ensures
        total(samples.take(i + 1)) == total(samples.take(i)) + samples[i],
{
    assert(samples.take(i + 1).drop_last() =~= samples.take(i));
}

/// No prefix sums to more than the whole.
pub proof fn lemma_total_prefix(samples: Seq<u64>, i: int)
    requires
        0 <= i <= samples.len(),
    ensures
        0 <= total(samples.take(i)) <= total(samples),
    decreases samples.len() - i,
{
    if i == samples.len() {
        assert(samples.take(i) =~= samples);
        lemma_total_nonnegative(samples);
    } else {
        lemma_total_prefix(samples, i + 1);
        lemma_total_step(samples, i);
        lemma_total_nonnegative(samples.take(i));
    }
}

/// A sum of sizes is not negative.
pub proof fn lemma_total_nonnegative(samples: Seq<u64>)
    ensures
        0 <= total(samples),
    decreases samples.len(),
{
    if samples.len() > 0 {
        lemma_total_nonnegative(samples.drop_last());
    }
}

/// Taking one size out lowers the sum by that size.
pub proof fn lemma_total_remove(samples: Seq<u64>, i: int)
    requires
        0 <= i < samples.len(),
    ensures
        total(samples) == total(samples.remove(i)) + samples[i],
    decreases samples.len(),
{
    if i == samples.len() - 1 {
        assert(samples.remove(i) =~= samples.drop_last());
    } else {
        lemma_total_remove(samples.drop_last(), i);
        assert(samples.remove(i).drop_last() =~= samples.drop_last().remove(i));
    }
}

/// No sample is larger than the sum of all of them.
pub proof fn lemma_total_bounds_each(samples: Seq<u64>, i: int)
    requires
        0 <= i < samples.len(),
    ensures
        samples[i] <= total(samples),
{
    lemma_total_remove(samples, i);
    lemma_total_nonnegative(samples.remove(i));
}

/// The sum does not depend on the order of the sizes.
pub proof fn lemma_total_permutation(first: Seq<u64>, second: Seq<u64>)
    requires
        first.to_multiset() == second.to_multiset(),
    ensures
        total(first) == total(second),
    decreases first.len(),
{
    to_multiset_len(first);
    to_multiset_len(second);
    if first.len() > 0 {
        let size = first.last();
        let at = first.len() - 1;
        to_multiset_contains(first, size);
        to_multiset_contains(second, size);
        assert(first[at] == size);
        let j = choose|j: int| 0 <= j < second.len() && second[j] == size;
        to_multiset_remove(first, at);
        to_multiset_remove(second, j);
        assert(first.remove(at) =~= first.drop_last());
        lemma_total_permutation(first.drop_last(), second.remove(j));
        lemma_total_remove(second, j);
    }
}

/// The product up to and including position `i` is the product before it
/// times the weight of the size at `i`.
pub proof fn lemma_product_over_step(samples: Seq<u64>, weight: spec_fn(u64) -> int, i: int)
    requires
        0 <= i < samples.len(),
    ensures
        product_over(samples.take(i + 1), weight) == product_over(samples.take(i), weight)
            * weight(samples[i]),
{
    assert(samples.take(i + 1).drop_last() =~= samples.take(i));
}

/// Where every weight is at least 1, every prefix has a product of at least 1
/// and of no more than the whole.
pub proof fn lemma_product_over_prefix(samples: Seq<u64>, weight: spec_fn(u64) -> int, i: int)
    requires
        0 <= i <= samples.len(),
        forall|j: int| 0 <= j < samples.len() ==> 1 <= weight(#[trigger] samples[j]),
    ensures
        1 <= product_over(samples.take(i), weight) <= product_over(samples, weight),
    decreases samples.len() - i,
{
    if i == samples.len() {
        assert(samples.take(i) =~= samples);
        lemma_product_over_positive(samples, weight);
    } else {
        lemma_product_over_prefix(samples, weight, i + 1);
        lemma_product_over_step(samples, weight, i);
        lemma_product_over_positive(samples.take(i), weight);
        let before = product_over(samples.take(i), weight);
        let factor = weight(samples[i]);
        assert(before <= before * factor) by (nonlinear_arith)
            requires
                1 <= before,
                1 <= factor,
        ;
    }
}

/// Where every weight is at least 1, so is the product.
pub proof fn lemma_product_over_positive(samples: Seq<u64>, weight: spec_fn(u64) -> int)
    requires
        forall|j: int| 0 <= j < samples.len() ==> 1 <= weight(#[trigger] samples[j]),
    ensures
        1 <= product_over(samples, weight),
    decreases samples.len(),
{
    if samples.len() > 0 {
        let earlier = samples.drop_last();
        assert forall|j: int| 0 <= j < earlier.len() implies 1 <= weight(
            #[trigger] earlier[j],
        ) by {
            assert(earlier[j] == samples[j]);
        }
        lemma_product_over_positive(earlier, weight);
        let before = product_over(earlier, weight);
        let factor = weight(samples.last());
        assert(samples.last() == samples[samples.len() - 1]);
        assert(1 <= before * factor) by (nonlinear_arith)
            requires
                1 <= before,
                1 <= factor,
        ;
    }
}

/// Where every weight is 1, so is the product.
pub proof fn lemma_product_over_of_ones(samples: Seq<u64>, weight: spec_fn(u64) -> int)
    requires
        forall|j: int| 0 <= j < samples.len() ==> weight(#[trigger] samples[j]) == 1,
    ensures
        product_over(samples, weight) == 1,
    decreases samples.len(),
{
    if samples.len() > 0 {
        let earlier = samples.drop_last();
        assert forall|j: int| 0 <= j < earlier.len() implies weight(#[trigger] earlier[j])
            == 1 by {
            assert(earlier[j] == samples[j]);
        }
        lemma_product_over_of_ones(earlier, weight);
        assert(samples.last() == samples[samples.len() - 1]);
    }
}

/// Taking one size out divides the product by that size's weight.
pub proof fn lemma_product_over_remove(samples: Seq<u64>, weight: spec_fn(u64) -> int, i: int)
    requires
        0 <= i < samples.len(),
    ensures
        product_over(samples, weight) == product_over(samples.remove(i), weight) * weight(
            samples[i],
        ),
    decreases samples.len(),
{
    if i == samples.len() - 1 {
        assert(samples.remove(i) =~= samples.drop_last());
    } else {
        lemma_product_over_remove(samples.drop_last(), weight, i);
        assert(samples.remove(i).drop_last() =~= samples.drop_last().remove(i));
        let rest = product_over(samples.drop_last().remove(i), weight);
        let taken = weight(samples[i]);
        let last = weight(samples.last());
        assert((rest * taken) * last == (rest * last) * taken) by (nonlinear_arith);
    }
}

/// The product does not depend on the order of the sizes.
pub proof fn lemma_product_over_permutation(
    first: Seq<u64>,
    second: Seq<u64>,
    weight: spec_fn(u64) -> int,
)
    requires
        first.to_multiset() == second.to_multiset(),
    ensures
        product_over(first, weight) == product_over(second, weight),
    decreases first.len(),
{
    to_multiset_len(first);
    to_multiset_len(second);
    if first.len() > 0 {
        let size = first.last();
        let at = first.len() - 1;
        to_multiset_contains(first, size);
        to_multiset_contains(second, size);
        assert(first[at] == size);
        let j = choose|j: int| 0 <= j < second.len() && second[j] == size;
        to_multiset_remove(first, at);
        to_multiset_remove(second, j);
        assert(first.remove(at) =~= first.drop_last());
        lemma_product_over_permutation(first.drop_last(), second.remove(j), weight);
        lemma_product_over_remove(second, weight, j);
    }
}

} // verus!
