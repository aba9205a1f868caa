//! Checked integer counting: range products, factorials and combinations.

use vstd::prelude::*;
use crate::model::{range_product, factorial_of, falling_factorial, binomial};
use crate::range_lemmas::{
    lemma_range_product_positive, lemma_range_product_split, lemma_factorial_fits,
    lemma_falling_factorial_monotone, lemma_binomial_none, lemma_binomial_all,
};
use crate::error::LikelihoodError;

verus! {

/// Multiplies the integers above `below` up to and including `top`, in
/// ascending order. `None` says that the product does not fit in `u64`.
pub fn product_above(below: u64, top: u64) -> (result: Option<u64>)
    ensures
        match result {
            Some(p) => p == range_product(below + 1, top as int),
            None => range_product(below + 1, top as int) > u64::MAX,
        },
{
    let mut acc: u64 = 1;
    let mut x: u64 = below;
    while x < top
        invariant
            below <= x,
            x <= top || x == below,
            acc == range_product(below + 1, x as int),
        decreases top - x,
    {
        x = x + 1;
        match acc.checked_mul(x) {
            Some(next) => {
                acc = next;
            },
            None => {
                proof {
                    lemma_range_product_split(below + 1, x as int, top as int);
                    lemma_range_product_positive(x + 1, top as int);
                    let done = range_product(below + 1, x as int);
                    let rest = range_product(x + 1, top as int);
                    assert(done * rest >= done) by (nonlinear_arith)
                        requires
                            done >= 0,
                            rest >= 1,
                    ;
                }
                return None;
            },
        }
    }
    Some(acc)
}

/// Computes `n!`, as the product of `1..=n`. It fits in `u64` up to `n = 20`.
pub fn factorial(n: &u64) -> (result: Result<u64, LikelihoodError>)
    ensures
        match result {
            Ok(f) => *n <= 20 && f == factorial_of(*n as int),
            Err(e) => *n > 20 && e == LikelihoodError::Overflow,
        },
{
    proof {
        lemma_factorial_fits(*n as int);
    }
    match product_above(0, *n) {
        Some(f) => Ok(f),
        None => Err(LikelihoodError::Overflow),
    }
}

/// Counts the ways of choosing `r` unordered outcomes from `n` possibilities:
/// the product of the `r` largest integers up to `n`, divided by `r!`.
///
/// More than `n` cannot be chosen, and the product has to fit in `u64`.
pub fn comb(n: &u64, r: &u64) -> (result: Result<u64, LikelihoodError>)
    ensures
        match result {
            Ok(c) => *r <= *n && falling_factorial(*n as int, *r as int) <= u64::MAX
                && c == binomial(*n as int, *r as int),
            Err(LikelihoodError::InvalidInput) => *r > *n,
            Err(LikelihoodError::Overflow) => *r <= *n
                && falling_factorial(*n as int, *r as int) > u64::MAX,
        },
        *r == 0 ==> result == Ok::<u64, LikelihoodError>(1),
        *r == *n && *n <= 20 ==> result == Ok::<u64, LikelihoodError>(1),
{
    if *r > *n {
        return Err(LikelihoodError::InvalidInput);
    }
    proof {
        lemma_falling_factorial_monotone(*r as int, *n as int, *r as int);
        lemma_factorial_fits(*r as int);
        lemma_binomial_none(*n as int);
        lemma_binomial_all(*n as int);
    }
    let largest: u64 = match product_above(*n - *r, *n) {
        Some(p) => p,
        None => {
            return Err(LikelihoodError::Overflow);
        },
    };
    // `r!` is the shortest of the ranges of `r` factors, so it fits as well.
    match factorial(r) {
        Ok(orderings) => Ok(largest / orderings),
        Err(e) => Err(e),
    }
}

} // verus!
