//! What holds of the likelihoods whatever the samples are: the two ways of
//! counting agree, the order of the samples is irrelevant, and a larger sample
//! is more likely to share an element.

use vstd::prelude::*;
use vstd::seq_lib::to_multiset_contains;
use crate::count_lemmas::{
    lemma_weights_positive, lemma_disjoint_draws_bounded, lemma_draws_are_ordered_choices,
};
use crate::model::{
    falling_factorial, total, product_over, draws_from, choices_from, orderings,
    independent_draws, disjoint_draws, independent_choices, disjoint_choices, shared_draws,
    shared_choices, some_draw_exceeds,
};
use crate::range_lemmas::{
    lemma_falling_factorial_extend, lemma_falling_factorial_strictly_monotone,
};
use crate::sample_lemmas::{
    lemma_total_nonnegative, lemma_total_remove, lemma_total_bounds_each,
    lemma_total_permutation, lemma_product_over_positive, lemma_product_over_of_ones,
    lemma_product_over_remove, lemma_product_over_permutation,
};

verus! {

/// The likelihood counted in choices is the likelihood counted in draws: the
/// choices that keep clear of each other are to all choices as the draws that
/// keep clear of each other are to all draws.
pub proof fn lemma_choices_and_draws_agree(samples: Seq<u64>, population: int)
    requires
        total(samples) <= population,
    ensures
        disjoint_choices(samples, population) * independent_draws(samples, population)
            == disjoint_draws(samples, population) * independent_choices(samples, population),
{
    lemma_draws_are_ordered_choices(samples, population);
    let clear = disjoint_choices(samples, population);
    let free = independent_choices(samples, population);
    let orders = product_over(samples, orderings());
    assert(clear * (free * orders) == (clear * orders) * free) by (nonlinear_arith);
}

/// Counting in choices needs no more room than counting in draws: no single
/// sample has more draws, and all samples together have no more choices, than
/// all samples together have draws.
pub proof fn lemma_choices_need_no_more_room(samples: Seq<u64>, population: int, limit: int)
    requires
        total(samples) <= population,
        independent_draws(samples, population) <= limit,
    ensures
        !some_draw_exceeds(samples, population, limit),
        independent_choices(samples, population) <= limit,
{
    let weight = draws_from(population);
    lemma_weights_positive(samples, population);
    lemma_draws_are_ordered_choices(samples, population);
    lemma_product_over_positive(samples, orderings());
    lemma_product_over_positive(samples, choices_from(population));
    let free = independent_choices(samples, population);
    let orders = product_over(samples, orderings());
    assert(free <= free * orders) by (nonlinear_arith)
        requires
            1 <= free,
            1 <= orders,
    ;
    assert forall|i: int| 0 <= i < samples.len() implies falling_factorial(
        population,
        #[trigger] samples[i] as int,
    ) <= limit by {
        lemma_product_over_remove(samples, weight, i);
        let others = samples.remove(i);
        assert forall|j: int| 0 <= j < others.len() implies 1 <= weight(#[trigger] others[j]) by {
            if j < i {
                assert(others[j] == samples[j]);
            } else {
                assert(others[j] == samples[j + 1]);
            }
        }
        lemma_product_over_positive(others, weight);
        let rest = product_over(others, weight);
        let own = weight(samples[i]);
        assert(own <= rest * own) by (nonlinear_arith)
            requires
                1 <= rest,
                1 <= own,
        ;
    }
}

/// The order of the samples is irrelevant: two sequences that hold the same
/// sizes, each as often, have the same sum and the same counts of every kind.
pub proof fn lemma_order_is_irrelevant(first: Seq<u64>, second: Seq<u64>, population: int)
    requires
        first.to_multiset() == second.to_multiset(),
    ensures
        total(first) == total(second),
        disjoint_draws(first, population) == disjoint_draws(second, population),
        independent_draws(first, population) == independent_draws(second, population),
        independent_choices(first, population) == independent_choices(second, population),
        total(first) <= population ==> disjoint_choices(first, population) == disjoint_choices(
            second,
            population,
        ),
        forall|limit: int| #[trigger]
            some_draw_exceeds(first, population, limit) == some_draw_exceeds(
                second,
                population,
                limit,
            ),
{
    lemma_total_permutation(first, second);
    lemma_product_over_permutation(first, second, draws_from(population));
    lemma_product_over_permutation(first, second, choices_from(population));
    lemma_product_over_permutation(first, second, orderings());
    if total(first) <= population {
        lemma_draws_are_ordered_choices(first, population);
        lemma_draws_are_ordered_choices(second, population);
        lemma_weights_positive(first, population);
        lemma_product_over_positive(first, orderings());
        let orders = product_over(first, orderings());
        let one = disjoint_choices(first, population);
        let other = disjoint_choices(second, population);
        assert(one == other) by (nonlinear_arith)
            requires
                one * orders == other * orders,
                1 <= orders,
        ;
    }
    assert forall|limit: int| #[trigger]
        some_draw_exceeds(first, population, limit) == some_draw_exceeds(
            second,
            population,
            limit,
        ) by {
        if some_draw_exceeds(first, population, limit) {
            lemma_exceeding_draw_is_shared(first, second, population, limit);
        }
        if some_draw_exceeds(second, population, limit) {
            lemma_exceeding_draw_is_shared(second, first, population, limit);
        }
    }
}

/// A sample with too many draws in one sequence is in every sequence that
/// holds the same sizes.
proof fn lemma_exceeding_draw_is_shared(
    first: Seq<u64>,
    second: Seq<u64>,
    population: int,
    limit: int,
)
    requires
        first.to_multiset() == second.to_multiset(),
        some_draw_exceeds(first, population, limit),
    ensures
        some_draw_exceeds(second, population, limit),
{
    let i = choose|i: int|
        0 <= i < first.len() && falling_factorial(population, #[trigger] first[i] as int)
            > limit;
    let size = first[i];
    assert(first.contains(size));
    to_multiset_contains(first, size);
    to_multiset_contains(second, size);
    let j = choose|j: int| 0 <= j < second.len() && second[j] == size;
    assert(falling_factorial(population, second[j] as int) > limit);
}

/// A larger sample is more likely to share an element, as long as some other
/// sample holds anything that it could meet: with one size raised, and the
/// population still holding all samples at once, the shared outcomes are a
/// strictly greater part of all outcomes, counted in draws and counted in
/// choices.
pub proof fn lemma_larger_sample_shares_more(
    samples: Seq<u64>,
    population: int,
    i: int,
    larger: u64,
)
    requires
        0 <= i < samples.len(),
        samples[i] < larger,
        samples[i] < total(samples),
        total(samples.update(i, larger)) <= population,
    ensures
        shared_draws(samples, population) * independent_draws(
            samples.update(i, larger),
            population,
        ) < shared_draws(samples.update(i, larger), population) * independent_draws(
            samples,
            population,
        ),
        shared_choices(samples, population) * independent_choices(
            samples.update(i, larger),
            population,
        ) < shared_choices(samples.update(i, larger), population) * independent_choices(
            samples,
            population,
        ),
{
    let grown = samples.update(i, larger);
    let size = samples[i] as int;
    let more = larger - size;
    let sum = total(samples);
    let weight = draws_from(population);
    assert(grown.remove(i) =~= samples.remove(i));
    lemma_total_remove(samples, i);
    lemma_total_remove(grown, i);
    lemma_total_nonnegative(samples.remove(i));
    assert(total(grown) == sum + more);

    // The draws: both counts grow, the one that keeps clear by less.
    lemma_falling_factorial_extend(population, sum, more);
    lemma_falling_factorial_extend(population, size, more);
    lemma_falling_factorial_strictly_monotone(population - sum, population - size, more);
    lemma_product_over_remove(samples, weight, i);
    lemma_product_over_remove(grown, weight, i);
    lemma_disjoint_draws_bounded(samples, population);
    let others = product_over(samples.remove(i), weight);
    let own = falling_factorial(population, size);
    let clear = disjoint_draws(samples, population);
    let free = independent_draws(samples, population);
    let grown_clear = disjoint_draws(grown, population);
    let grown_free = independent_draws(grown, population);
    let clear_gain = falling_factorial(population - sum, more);
    let free_gain = falling_factorial(population - size, more);
    assert(weight(samples[i]) == own);
    assert(weight(grown[i]) == own * free_gain);
    assert(grown_free == free * free_gain) by (nonlinear_arith)
        requires
            grown_free == others * (own * free_gain),
            free == others * own,
    ;
    assert((free - clear) * grown_free < (grown_free - grown_clear) * free) by (nonlinear_arith)
        requires
            grown_clear == clear * clear_gain,
            grown_free == free * free_gain,
            1 <= clear,
            1 <= free,
            clear_gain < free_gain,
    ;

    // The choices: the same likelihoods, by another count.
    lemma_draws_are_ordered_choices(samples, population);
    lemma_draws_are_ordered_choices(grown, population);
    lemma_weights_positive(samples, population);
    lemma_weights_positive(grown, population);
    lemma_product_over_positive(samples, orderings());
    lemma_product_over_positive(grown, orderings());
    let orders = product_over(samples, orderings());
    let grown_orders = product_over(grown, orderings());
    let chosen = disjoint_choices(samples, population);
    let grown_chosen = disjoint_choices(grown, population);
    let all = independent_choices(samples, population);
    let grown_all = independent_choices(grown, population);
    assert((all - chosen) * grown_all < (grown_all - grown_chosen) * all) by (nonlinear_arith)
        requires
            (all * orders - chosen * orders) * (grown_all * grown_orders) < (grown_all
                * grown_orders - grown_chosen * grown_orders) * (all * orders),
            1 <= orders,
            1 <= grown_orders,
    ;
}

/// A sample beside which all others are empty shares nothing, whatever its
/// size: every outcome keeps the samples apart.
pub proof fn lemma_lone_sample_shares_nothing(samples: Seq<u64>, population: int, i: int)
    requires
        0 <= i < samples.len(),
        samples[i] == total(samples),
        total(samples) <= population,
    ensures
        shared_draws(samples, population) == 0,
        shared_choices(samples, population) == 0,
{
    let weight = draws_from(population);
    let others = samples.remove(i);
    lemma_total_remove(samples, i);
    lemma_product_over_remove(samples, weight, i);
    assert forall|j: int| 0 <= j < others.len() implies weight(#[trigger] others[j]) == 1 by {
        lemma_total_bounds_each(others, j);
        assert(falling_factorial(population, 0) == 1);
    }
    lemma_product_over_of_ones(others, weight);
    assert(1 * weight(samples[i]) == weight(samples[i]));

    lemma_draws_are_ordered_choices(samples, population);
    lemma_weights_positive(samples, population);
    lemma_product_over_positive(samples, orderings());
    let orders = product_over(samples, orderings());
    let chosen = disjoint_choices(samples, population);
    let all = independent_choices(samples, population);
    assert(chosen == all) by (nonlinear_arith)
        requires
            chosen * orders == all * orders,
            1 <= orders,
    ;
}

} // verus!
