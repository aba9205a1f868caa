//! Facts about the outcome counts of a sequence of samples.

use vstd::prelude::*;
use crate::model::{
    factorial_of, falling_factorial, binomial, total, product_over, draws_from,
    choices_from, orderings, independent_draws, disjoint_draws, independent_choices,
    disjoint_choices,
};
use crate::range_lemmas::{
    lemma_range_product_positive, lemma_falling_factorial_extend,
    lemma_falling_factorial_monotone, lemma_binomial_exact, lemma_binomial_monotone,
};
use crate::sample_lemmas::{
    lemma_total_nonnegative, lemma_total_bounds_each, lemma_product_over_step,
    lemma_product_over_prefix,
};

verus! {

/// Samples that the population can hold together have weights of at least 1,
/// whichever way they are counted.
pub proof fn lemma_weights_positive(samples: Seq<u64>, population: int)
    requires
        total(samples) <= population,
    ensures
        forall|j: int|
            0 <= j < samples.len() ==> 1 <= draws_from(population)(#[trigger] samples[j]),
        forall|j: int|
            0 <= j < samples.len() ==> 1 <= choices_from(population)(#[trigger] samples[j]),
        forall|j: int| 0 <= j < samples.len() ==> 1 <= orderings()(#[trigger] samples[j]),
{
    assert forall|j: int| 0 <= j < samples.len() implies 1 <= draws_from(population)(
        #[trigger] samples[j],
    ) && 1 <= choices_from(population)(samples[j]) && 1 <= orderings()(samples[j]) by {
        let size = samples[j] as int;
        lemma_total_bounds_each(samples, j);
        lemma_falling_factorial_monotone(size, population, size);
        lemma_binomial_monotone(size, population, size);
        lemma_range_product_positive(1, size);
    }
}

/// What one more sample does to the draws taken without regard to the others.
pub proof fn lemma_independent_draws_step(samples: Seq<u64>, population: int, i: int)
    requires
        total(samples) <= population,
        0 <= i < samples.len(),
    ensures
        samples[i] <= population,
        1 <= falling_factorial(population, samples[i] as int),
        1 <= independent_draws(samples.take(i), population),
        independent_draws(samples.take(i + 1), population) == independent_draws(
            samples.take(i),
            population,
        ) * falling_factorial(population, samples[i] as int),
        independent_draws(samples.take(i + 1), population) <= independent_draws(
            samples,
            population,
        ),
{
    let weight = draws_from(population);
    lemma_total_bounds_each(samples, i);
    lemma_weights_positive(samples, population);
    lemma_product_over_step(samples, weight, i);
    lemma_product_over_prefix(samples, weight, i);
    lemma_product_over_prefix(samples, weight, i + 1);
    assert(1 <= weight(samples[i]));
}

/// What one more sample does to the choices taken without regard to the
/// others.
pub proof fn lemma_independent_choices_step(samples: Seq<u64>, population: int, i: int)
    requires
        total(samples) <= population,
        0 <= i < samples.len(),
    ensures
        1 <= binomial(population, samples[i] as int),
        1 <= independent_choices(samples.take(i), population),
        independent_choices(samples.take(i + 1), population) == independent_choices(
            samples.take(i),
            population,
        ) * binomial(population, samples[i] as int),
        independent_choices(samples.take(i + 1), population) <= independent_choices(
            samples,
            population,
        ),
{
    let weight = choices_from(population);
    lemma_weights_positive(samples, population);
    lemma_product_over_step(samples, weight, i);
    lemma_product_over_prefix(samples, weight, i);
    lemma_product_over_prefix(samples, weight, i + 1);
    assert(1 <= weight(samples[i]));
}

/// What one more sample does to the choices that keep clear of each other.
pub proof fn lemma_disjoint_choices_step(samples: Seq<u64>, population: int, i: int)
    requires
        0 <= i < samples.len(),
    ensures
        disjoint_choices(samples.take(i + 1), population) == disjoint_choices(
            samples.take(i),
            population,
        ) * binomial(population - total(samples.take(i)), samples[i] as int),
{
    assert(samples.take(i + 1).drop_last() =~= samples.take(i));
}

/// Drawing the samples clear of each other is one of the ways of drawing them,
/// so there are no more ways of the first kind than of the second, and there
/// is at least one.
pub proof fn lemma_disjoint_draws_bounded(samples: Seq<u64>, population: int)
    requires
        total(samples) <= population,
    ensures
        1 <= disjoint_draws(samples, population) <= independent_draws(samples, population),
    decreases samples.len(),
{
    lemma_total_nonnegative(samples);
    if samples.len() == 0 {
        assert(falling_factorial(population, 0) == 1);
    } else {
        let earlier = samples.drop_last();
        let size = samples.last() as int;
        lemma_total_nonnegative(earlier);
        lemma_disjoint_draws_bounded(earlier, population);
        lemma_falling_factorial_extend(population, total(earlier), size);
        lemma_falling_factorial_monotone(population - total(earlier), population, size);
        let clear = disjoint_draws(earlier, population);
        let free = independent_draws(earlier, population);
        let narrow = falling_factorial(population - total(earlier), size);
        let wide = falling_factorial(population, size);
        assert(draws_from(population)(samples.last()) == wide);
        assert(1 <= clear * narrow <= free * wide) by (nonlinear_arith)
            requires
                1 <= clear <= free,
                1 <= narrow <= wide,
        ;
    }
}

/// Choosing the samples clear of each other is one of the ways of choosing
/// them, so there are no more ways of the first kind than of the second, and
/// there is at least one.
pub proof fn lemma_disjoint_choices_bounded(samples: Seq<u64>, population: int)
    requires
        total(samples) <= population,
    ensures
        1 <= disjoint_choices(samples, population) <= independent_choices(samples, population),
    decreases samples.len(),
{
    if samples.len() > 0 {
        let earlier = samples.drop_last();
        let size = samples.last() as int;
        lemma_total_nonnegative(earlier);
        lemma_disjoint_choices_bounded(earlier, population);
        lemma_binomial_monotone(population - total(earlier), population, size);
        let clear = disjoint_choices(earlier, population);
        let free = independent_choices(earlier, population);
        let narrow = binomial(population - total(earlier), size);
        let wide = binomial(population, size);
        assert(choices_from(population)(samples.last()) == wide);
        assert(1 <= clear * narrow <= free * wide) by (nonlinear_arith)
            requires
                1 <= clear <= free,
                1 <= narrow <= wide,
        ;
    }
}

/// Every way of choosing the samples gives rise to as many ways of drawing
/// them as their elements have orders, both among the choices made without
/// regard to the others and among those that keep clear of each other.
pub proof fn lemma_draws_are_ordered_choices(samples: Seq<u64>, population: int)
    requires
        total(samples) <= population,
    ensures
        independent_draws(samples, population) == independent_choices(samples, population)
            * product_over(samples, orderings()),
        disjoint_draws(samples, population) == disjoint_choices(samples, population)
            * product_over(samples, orderings()),
    decreases samples.len(),
{
    lemma_total_nonnegative(samples);
    if samples.len() == 0 {
        assert(falling_factorial(population, 0) == 1);
    } else {
        let earlier = samples.drop_last();
        let size = samples.last() as int;
        lemma_total_nonnegative(earlier);
        lemma_draws_are_ordered_choices(earlier, population);
        lemma_binomial_exact(population, size);
        lemma_binomial_exact(population - total(earlier), size);
        lemma_falling_factorial_extend(population, total(earlier), size);
        let orders = product_over(earlier, orderings());
        let own_orders = factorial_of(size);
        assert(orderings()(samples.last()) == own_orders);
        assert(draws_from(population)(samples.last()) == falling_factorial(population, size));
        assert(choices_from(population)(samples.last()) == binomial(population, size));
        let free = independent_choices(earlier, population);
        let wide = binomial(population, size);
        assert((free * orders) * (wide * own_orders) == (free * wide) * (orders * own_orders))
            by (nonlinear_arith);
        let clear = disjoint_choices(earlier, population);
        let narrow = binomial(population - total(earlier), size);
        assert((clear * orders) * (narrow * own_orders) == (clear * narrow) * (orders
            * own_orders)) by (nonlinear_arith);
    }
}

} // verus!
