//! The mathematical model: products of integer ranges and the outcome counts
//! built from them, over unbounded integers.

use vstd::prelude::*;

verus! {

/// The product `lo * (lo + 1) * ... * hi`; an empty range (`hi < lo`) gives 1.
pub open spec fn range_product(lo: int, hi: int) -> int
    decreases hi - lo + 1,
{
    if hi < lo {
        1
    } else {
        range_product(lo, hi - 1) * hi
    }
}

/// `n!`, the product of `1..=n`.
pub open spec fn factorial_of(n: int) -> int {
    range_product(1, n)
}

/// The falling factorial `n * (n - 1) * ... * (n - k + 1)`: the number of ways
/// to draw `k` elements out of `n`, one after another.
pub open spec fn falling_factorial(n: int, k: int) -> int {
    range_product(n - k + 1, n)
}

/// "`n` choose `r`": the number of `r`-element subsets of `n` elements.
pub open spec fn binomial(n: int, r: int) -> int {
    falling_factorial(n, r) / factorial_of(r)
}

/// The sum of the sample sizes.
pub open spec fn total(samples: Seq<u64>) -> int
    decreases samples.len(),
{
    if samples.len() == 0 {
        0
    } else {
        total(samples.drop_last()) + samples.last()
    }
}

/// The product of `weight(size)` over the sample sizes.
pub open spec fn product_over(samples: Seq<u64>, weight: spec_fn(u64) -> int) -> int
    decreases samples.len(),
{
    if samples.len() == 0 {
        1
    } else {
        product_over(samples.drop_last(), weight) * weight(samples.last())
    }
}

/// The weight of one sample among the draws: the ways to draw it, element
/// after element, from the whole population.
pub open spec fn draws_from(population: int) -> spec_fn(u64) -> int {
    |size: u64| falling_factorial(population, size as int)
}

/// The weight of one sample among the choices: the ways to choose it, as a
/// set, from the whole population.
pub open spec fn choices_from(population: int) -> spec_fn(u64) -> int {
    |size: u64| binomial(population, size as int)
}

/// The weight of one sample among the orderings: the orders in which its
/// elements can be drawn.
pub open spec fn orderings() -> spec_fn(u64) -> int {
    |size: u64| factorial_of(size as int)
}

/// The number of ways to draw every sample, element after element, each from
/// the whole population without regard to the others.
pub open spec fn independent_draws(samples: Seq<u64>, population: int) -> int {
    product_over(samples, draws_from(population))
}

/// The number of ways to draw every sample, element after element, so that no
/// element is drawn twice.
pub open spec fn disjoint_draws(samples: Seq<u64>, population: int) -> int {
    falling_factorial(population, total(samples))
}

/// The number of ways to choose every sample as a set, each from the whole
/// population without regard to the others.
pub open spec fn independent_choices(samples: Seq<u64>, population: int) -> int {
    product_over(samples, choices_from(population))
}

/// The number of ways to choose every sample as a set, each from what the
/// samples before it have left.
pub open spec fn disjoint_choices(samples: Seq<u64>, population: int) -> int
    decreases samples.len(),
{
    if samples.len() == 0 {
        1
    } else {
        let earlier = samples.drop_last();
        disjoint_choices(earlier, population) * binomial(
            population - total(earlier),
            samples.last() as int,
        )
    }
}

/// The draws in which at least two samples share an element.
pub open spec fn shared_draws(samples: Seq<u64>, population: int) -> int {
    independent_draws(samples, population) - disjoint_draws(samples, population)
}

/// The choices in which at least two samples share an element.
pub open spec fn shared_choices(samples: Seq<u64>, population: int) -> int {
    independent_choices(samples, population) - disjoint_choices(samples, population)
}

/// Some single sample can be drawn in more than `limit` ways.
pub open spec fn some_draw_exceeds(samples: Seq<u64>, population: int, limit: int) -> bool {
    exists|i: int|
        0 <= i < samples.len() && falling_factorial(population, #[trigger] samples[i] as int)
            > limit
}

/// No size is followed by a smaller one.
pub open spec fn is_ascending(samples: Seq<u64>) -> bool {
    forall|i: int, j: int| 0 <= i <= j < samples.len() ==> samples[i] <= samples[j]
}

} // verus!
