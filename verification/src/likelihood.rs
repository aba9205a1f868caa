//! The likelihood that samples of given sizes, drawn without replacement from
//! one population, are exclusive, computed in three ways.

use vstd::prelude::*;
use vstd::slice::slice_to_vec;
use crate::counting::{comb, product_above};
use crate::count_lemmas::{
    lemma_independent_draws_step, lemma_independent_choices_step, lemma_disjoint_choices_step,
    lemma_disjoint_draws_bounded, lemma_disjoint_choices_bounded,
};
use crate::error::LikelihoodError;
use crate::laws::lemma_choices_and_draws_agree;
use crate::model::{
    range_product, falling_factorial, total, independent_draws, disjoint_draws,
    independent_choices, disjoint_choices, shared_draws, shared_choices, some_draw_exceeds,
    is_ascending, draws_from,
};
use crate::range_lemmas::{
    lemma_falling_factorial_monotone, lemma_product_covers_factor, lemma_range_product_downwards,
};
use crate::sample_lemmas::{
    lemma_total_step, lemma_total_prefix, lemma_total_bounds_each, lemma_total_permutation,
    lemma_product_over_permutation,
};

verus! {

/// A likelihood as an exact fraction of outcome counts.
///
/// Of `outcomes` equally likely outcomes, `exclusive` keep the samples apart.
/// The chance that at least two samples share an element is therefore
/// `1 - exclusive / outcomes`.
#[derive(Debug, Clone, Copy, PartialEq, Eq, Structural)]
pub struct Likelihood {
    /// The outcomes in which no two samples share an element.
    pub exclusive: u64,
    /// All outcomes.
    pub outcomes: u64,
}

impl Likelihood {
    /// The fraction is one of a probability: there is an outcome, and the
    /// exclusive ones are some of them and not none.
    pub open spec fn wf(self) -> bool {
        1 <= self.exclusive <= self.outcomes
    }

    /// The outcomes in which at least two samples share an element.
    pub open spec fn shared(self) -> int {
        self.outcomes - self.exclusive
    }
}

/// Adds up the sample sizes. `None` says that the sum does not fit in `u64`.
fn checked_total(samples: &Vec<u64>) -> (result: Option<u64>)
    ensures
        match result {
            Some(sum) => sum == total(samples@),
            None => total(samples@) > u64::MAX,
        },
{
    let mut sum: u64 = 0;
    let mut i: usize = 0;
    while i < samples.len()
        invariant
            i <= samples.len(),
            sum == total(samples@.take(i as int)),
        decreases samples.len() - i,
    {
        proof {
            lemma_total_step(samples@, i as int);
            lemma_total_prefix(samples@, i + 1);
        }
        match sum.checked_add(samples[i]) {
            Some(next) => {
                sum = next;
            },
            None => {
                return None;
            },
        }
        i += 1;
    }
    proof {
        assert(samples@.take(samples.len() as int) =~= samples@);
    }
    Some(sum)
}

/// Checks that the population can hold all samples at once, and gives their
/// sum.
fn admitted_total(samples: &Vec<u64>, population: u64) -> (result: Result<u64, LikelihoodError>)
    ensures
        match result {
            Ok(sum) => sum == total(samples@) && sum <= population,
            Err(e) => e == LikelihoodError::InvalidInput && total(samples@) > population,
        },
{
    match checked_total(samples) {
        Some(sum) => {
            if sum <= population {
                Ok(sum)
            } else {
                Err(LikelihoodError::InvalidInput)
            }
        },
        None => Err(LikelihoodError::InvalidInput),
    }
}

/// The likelihood of an exclusive relationship from the closed formula: all
/// samples drawn clear of each other, `population * (population - 1) * ...`
/// for as many factors as the samples have elements, out of every sample
/// drawn from the whole population, the product of one such range for each.
///
/// The samples together may not ask for more than the population holds, and
/// the larger of the two counts, the second, has to fit in `u64`.
pub fn likelihood_of_an_exclusive_relationship_algebraically_optimized(
    samples: &Vec<u64>,
    population: &u64,
) -> (result: Result<Likelihood, LikelihoodError>)
    ensures
        match result {
            Ok(likelihood) => {
                &&& total(samples@) <= *population
                &&& likelihood.exclusive == disjoint_draws(samples@, *population as int)
                &&& likelihood.outcomes == independent_draws(samples@, *population as int)
                &&& likelihood.shared() == shared_draws(samples@, *population as int)
                &&& likelihood.wf()
            },
            Err(LikelihoodError::InvalidInput) => total(samples@) > *population,
            Err(LikelihoodError::Overflow) => {
                &&& total(samples@) <= *population
                &&& independent_draws(samples@, *population as int) > u64::MAX
            },
        },
        samples@.len() == 0 ==> result == Ok::<Likelihood, LikelihoodError>(
            (Likelihood { exclusive: 1, outcomes: 1 }),
        ),
{
    let sum: u64 = match admitted_total(samples, *population) {
        Ok(sum) => sum,
        Err(e) => {
            return Err(e);
        },
    };
    let mut denom: u64 = 1;
    let mut i: usize = 0;
    while i < samples.len()
        invariant
            i <= samples.len(),
            total(samples@) <= *population,
            denom == independent_draws(samples@.take(i as int), *population as int),
        decreases samples.len() - i,
    {
        let size: u64 = samples[i];
        proof {
            lemma_independent_draws_step(samples@, *population as int, i as int);
        }
        let range: u64 = match product_above(*population - size, *population) {
            Some(range) => range,
            None => {
                proof {
                    lemma_product_covers_factor(
                        denom as int,
                        falling_factorial(*population as int, size as int),
                    );
                }
                return Err(LikelihoodError::Overflow);
            },
        };
        denom = match denom.checked_mul(range) {
            Some(next) => next,
            None => {
                return Err(LikelihoodError::Overflow);
            },
        };
        i += 1;
    }
    proof {
        assert(samples@.take(samples.len() as int) =~= samples@);
        lemma_disjoint_draws_bounded(samples@, *population as int);
    }
    // No more draws keep clear than there are draws, and these fit: the
    // product that follows does not leave `u64`.
    match product_above(*population - sum, *population) {
        Some(numer) => Ok(Likelihood { exclusive: numer, outcomes: denom }),
        None => Err(LikelihoodError::Overflow),
    }
}

/// The likelihood of an exclusive relationship, sample by sample: each sample
/// is chosen from what the samples before it have left, out of its choices
/// from the whole population. The counts of the single samples are
/// combinations; the likelihood is the product of the first kind out of the
/// product of the second.
///
/// The samples together may not ask for more than the population holds. For
/// every sample the product of its largest integers up to the population has
/// to fit in `u64`, and so has the product of all choices from the whole
/// population. The fraction that comes out has the value of the one from the
/// closed formula, in other terms.
pub fn likelihood_of_an_exclusive_relationship_not_optimized(
    samples: &Vec<u64>,
    population: &u64,
) -> (result: Result<Likelihood, LikelihoodError>)
    ensures
        match result {
            Ok(likelihood) => {
                &&& total(samples@) <= *population
                &&& !some_draw_exceeds(samples@, *population as int, u64::MAX as int)
                &&& likelihood.exclusive == disjoint_choices(samples@, *population as int)
                &&& likelihood.outcomes == independent_choices(samples@, *population as int)
                &&& likelihood.shared() == shared_choices(samples@, *population as int)
                &&& likelihood.exclusive * independent_draws(samples@, *population as int)
                    == disjoint_draws(samples@, *population as int) * likelihood.outcomes
                &&& likelihood.wf()
            },
            Err(LikelihoodError::InvalidInput) => total(samples@) > *population,
            Err(LikelihoodError::Overflow) => {
                &&& total(samples@) <= *population
                &&& (some_draw_exceeds(samples@, *population as int, u64::MAX as int)
                    || independent_choices(samples@, *population as int) > u64::MAX)
            },
        },
        samples@.len() == 0 ==> result == Ok::<Likelihood, LikelihoodError>(
            (Likelihood { exclusive: 1, outcomes: 1 }),
        ),
{
    match admitted_total(samples, *population) {
        Ok(_) => {},
        Err(e) => {
            return Err(e);
        },
    }
    let mut numer: u64 = 1;
    let mut denom: u64 = 1;
    let mut sum: u64 = 0;
    let mut i: usize = 0;
    while i < samples.len()
        invariant
            i <= samples.len(),
            total(samples@) <= *population,
            sum == total(samples@.take(i as int)),
            numer == disjoint_choices(samples@.take(i as int), *population as int),
            denom == independent_choices(samples@.take(i as int), *population as int),
            forall|j: int|
                0 <= j < i ==> falling_factorial(*population as int, #[trigger] samples@[j] as int)
                    <= u64::MAX,
        decreases samples.len() - i,
    {
        let size: u64 = samples[i];
        proof {
            lemma_total_step(samples@, i as int);
            lemma_total_prefix(samples@, i + 1);
            lemma_independent_choices_step(samples@, *population as int, i as int);
            lemma_disjoint_choices_step(samples@, *population as int, i as int);
            lemma_disjoint_choices_bounded(samples@.take(i + 1), *population as int);
            lemma_falling_factorial_monotone(
                *population - sum,
                *population as int,
                size as int,
            );
        }
        let left: u64 = *population - sum;
        // What is left holds the sample, so nothing but its range can be in
        // the way, and its range from the whole population is no shorter.
        let from_rest: u64 = match comb(&left, &size) {
            Ok(count) => count,
            Err(_) => {
                return Err(LikelihoodError::Overflow);
            },
        };
        let from_all: u64 = match comb(population, &size) {
            Ok(count) => count,
            Err(_) => {
                return Err(LikelihoodError::Overflow);
            },
        };
        denom = match denom.checked_mul(from_all) {
            Some(next) => next,
            None => {
                return Err(LikelihoodError::Overflow);
            },
        };
        // No more choices keep clear than there are choices.
        numer = numer * from_rest;
        sum = sum + size;
        i += 1;
    }
    proof {
        assert(samples@.take(samples.len() as int) =~= samples@);
        lemma_disjoint_choices_bounded(samples@, *population as int);
        lemma_choices_and_draws_agree(samples@, *population as int);
    }
    Ok(Likelihood { exclusive: numer, outcomes: denom })
}

/// Sorts the sizes in place with `sort` of std's slices, which orders a slice
/// ascending and keeps every element: the vector afterwards holds what it held
/// before, each size as often, and no size is followed by a smaller one.
#[verifier::external_body]
fn sort_ascending(sizes: &mut Vec<u64>)
    ensures
        final(sizes)@.to_multiset() == old(sizes)@.to_multiset(),
        is_ascending(final(sizes)@),
{
    sizes.sort();
}

/// The likelihood of an exclusive relationship from the closed formula, with
/// the ranges built up in one pass: the samples are taken in ascending order,
/// so that the range of each is the range of the one before it, kept in a
/// running product, times the integers that lie below that range. The count
/// of the draws that keep clear of each other is the running product carried
/// on down to the sum of all sizes.
///
/// The result, and what is turned down, is that of
/// [`likelihood_of_an_exclusive_relationship_algebraically_optimized`].
pub fn likelihood_of_an_exclusive_relationship_completely_optimized(
    samples: &Vec<u64>,
    population: &u64,
) -> (result: Result<Likelihood, LikelihoodError>)
    ensures
        match result {
            Ok(likelihood) => {
                &&& total(samples@) <= *population
                &&& likelihood.exclusive == disjoint_draws(samples@, *population as int)
                &&& likelihood.outcomes == independent_draws(samples@, *population as int)
                &&& likelihood.shared() == shared_draws(samples@, *population as int)
                &&& likelihood.wf()
            },
            Err(LikelihoodError::InvalidInput) => total(samples@) > *population,
            Err(LikelihoodError::Overflow) => {
                &&& total(samples@) <= *population
                &&& independent_draws(samples@, *population as int) > u64::MAX
            },
        },
        samples@.len() == 0 ==> result == Ok::<Likelihood, LikelihoodError>(
            (Likelihood { exclusive: 1, outcomes: 1 }),
        ),
{
    let sum: u64 = match admitted_total(samples, *population) {
        Ok(sum) => sum,
        Err(e) => {
            return Err(e);
        },
    };
    let mut sorted_samples: Vec<u64> = slice_to_vec(samples.as_slice());
    sort_ascending(&mut sorted_samples);
    proof {
        lemma_total_permutation(sorted_samples@, samples@);
        lemma_product_over_permutation(
            sorted_samples@,
            samples@,
            draws_from(*population as int),
        );
        lemma_disjoint_draws_bounded(samples@, *population as int);
    }
    let mut denom: u64 = 1;
    let mut h: u64 = 1;
    // Everything above `below_last_h`, up to the population, is in `h`.
    let mut below_last_h: u64 = *population;
    let mut i: usize = 0;
    while i < sorted_samples.len()
        invariant
            i <= sorted_samples.len(),
            is_ascending(sorted_samples@),
            total(sorted_samples@) <= *population,
            total(samples@) <= *population,
            independent_draws(sorted_samples@, *population as int) == independent_draws(
                samples@,
                *population as int,
            ),
            below_last_h <= *population,
            i == 0 ==> below_last_h == *population,
            i > 0 ==> below_last_h == *population - sorted_samples@[i - 1],
            h == range_product(below_last_h + 1, *population as int),
            denom == independent_draws(sorted_samples@.take(i as int), *population as int),
        decreases sorted_samples.len() - i,
    {
        let size: u64 = sorted_samples[i];
        proof {
            lemma_independent_draws_step(sorted_samples@, *population as int, i as int);
            lemma_range_product_downwards(
                *population - size + 1,
                below_last_h as int,
                *population as int,
            );
        }
        let below_h: u64 = *population - size;
        let segment: u64 = match product_above(below_h, below_last_h) {
            Some(segment) => segment,
            None => {
                proof {
                    lemma_product_covers_factor(
                        denom as int,
                        falling_factorial(*population as int, size as int),
                    );
                }
                return Err(LikelihoodError::Overflow);
            },
        };
        h = match h.checked_mul(segment) {
            Some(next) => next,
            None => {
                proof {
                    lemma_product_covers_factor(
                        denom as int,
                        falling_factorial(*population as int, size as int),
                    );
                }
                return Err(LikelihoodError::Overflow);
            },
        };
        denom = match denom.checked_mul(h) {
            Some(next) => next,
            None => {
                return Err(LikelihoodError::Overflow);
            },
        };
        below_last_h = below_h;
        i += 1;
    }
    proof {
        assert(sorted_samples@.take(sorted_samples.len() as int) =~= sorted_samples@);
        if sorted_samples.len() > 0 {
            lemma_total_bounds_each(sorted_samples@, sorted_samples.len() - 1);
        }
        lemma_range_product_downwards(
            *population - sum + 1,
            below_last_h as int,
            *population as int,
        );
    }
    // No more draws keep clear than there are draws, and these fit: neither
    // of the two products that follow leaves `u64`.
    let segment: u64 = match product_above(*population - sum, below_last_h) {
        Some(segment) => segment,
        None => {
            return Err(LikelihoodError::Overflow);
        },
    };
    match h.checked_mul(segment) {
        Some(numer) => Ok(Likelihood { exclusive: numer, outcomes: denom }),
        None => Err(LikelihoodError::Overflow),
    }
}

} // verus!
