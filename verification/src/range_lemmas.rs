//! Facts about products of integer ranges, factorials and binomials.

use vstd::prelude::*;
use crate::model::{range_product, factorial_of, falling_factorial, binomial};

verus! {

/// A product of two counts, neither of them zero, is at least its second
/// factor.
pub proof fn lemma_product_covers_factor(count: int, factor: int)
    requires
        1 <= count,
        1 <= factor,
    ensures
        factor <= count * factor,
{
    assert(factor <= count * factor) by (nonlinear_arith)
        requires
            1 <= count,
            1 <= factor,
    ;
}

/// A range of positive integers has a positive product.
pub proof fn lemma_range_product_positive(lo: int, hi: int)
    requires
        1 <= lo,
    ensures
        1 <= range_product(lo, hi),
    decreases hi - lo + 1,
{
    if hi >= lo {
        lemma_range_product_positive(lo, hi - 1);
        let rest = range_product(lo, hi - 1);
        assert(1 <= rest * hi) by (nonlinear_arith)
            requires
                1 <= rest,
                1 <= hi,
        ;
    }
}

/// A range cut in two: the product of the whole is the product of the parts.
pub proof fn lemma_range_product_split(lo: int, mid: int, hi: int)
    requires
        lo - 1 <= mid <= hi,
    ensures
        range_product(lo, hi) == range_product(lo, mid) * range_product(mid + 1, hi),
    decreases hi - mid,
{
    if mid == hi {
        assert(range_product(hi + 1, hi) == 1);
    } else {
        lemma_range_product_split(lo, mid, hi - 1);
        let left = range_product(lo, mid);
        let right = range_product(mid + 1, hi - 1);
        assert(range_product(mid + 1, hi) == right * hi);
        assert(range_product(lo, hi) == range_product(lo, hi - 1) * hi);
        assert((left * right) * hi == left * (right * hi)) by (nonlinear_arith);
    }
}

/// A range of positive integers carried on downwards: the product of the
/// upper part times that of the part below it is the product of the whole,
/// and is no less than either part.
pub proof fn lemma_range_product_downwards(lo: int, mid: int, hi: int)
    requires
        1 <= lo,
        lo - 1 <= mid <= hi,
    ensures
        range_product(lo, hi) == range_product(mid + 1, hi) * range_product(lo, mid),
        1 <= range_product(mid + 1, hi) <= range_product(lo, hi),
        1 <= range_product(lo, mid) <= range_product(lo, hi),
{
    lemma_range_product_split(lo, mid, hi);
    lemma_range_product_positive(lo, mid);
    lemma_range_product_positive(mid + 1, hi);
    let lower = range_product(lo, mid);
    let upper = range_product(mid + 1, hi);
    assert(lower * upper == upper * lower && lower <= upper * lower && upper <= upper * lower)
        by (nonlinear_arith)
        requires
            1 <= lower,
            1 <= upper,
    ;
}

/// A non-empty range gives up its first factor.
pub proof fn lemma_range_product_first(lo: int, hi: int)
    requires
        lo <= hi,
    ensures
        range_product(lo, hi) == lo * range_product(lo + 1, hi),
{
    lemma_range_product_split(lo, lo, hi);
    assert(range_product(lo, lo) == range_product(lo, lo - 1) * lo);
}

/// Drawing `j + k` elements is drawing `j` and then `k` from what is left.
pub proof fn lemma_falling_factorial_extend(n: int, j: int, k: int)
    requires
        0 <= j,
        0 <= k,
    ensures
        falling_factorial(n, j + k) == falling_factorial(n, j) * falling_factorial(n - j, k),
{
    lemma_range_product_split(n - j - k + 1, n - j, n);
    let low = range_product(n - j - k + 1, n - j);
    let high = range_product(n - j + 1, n);
    assert(low * high == high * low) by (nonlinear_arith);
}

/// With more to draw from there are at least as many ways to draw.
pub proof fn lemma_falling_factorial_monotone(n: int, m: int, k: int)
    requires
        0 <= k <= n <= m,
    ensures
        1 <= falling_factorial(n, k) <= falling_factorial(m, k),
    decreases k,
{
    lemma_range_product_positive(n - k + 1, n);
    if k > 0 {
        lemma_falling_factorial_monotone(n, m, k - 1);
        lemma_range_product_first(n - k + 1, n);
        lemma_range_product_first(m - k + 1, m);
        let few = falling_factorial(n, k - 1);
        let many = falling_factorial(m, k - 1);
        assert((n - k + 1) * few <= (m - k + 1) * many) by (nonlinear_arith)
            requires
                1 <= few <= many,
                1 <= n - k + 1 <= m - k + 1,
        ;
    }
}

/// With strictly more to draw from there are strictly more ways to draw
/// anything at all.
pub proof fn lemma_falling_factorial_strictly_monotone(n: int, m: int, k: int)
    requires
        1 <= k <= n < m,
    ensures
        falling_factorial(n, k) < falling_factorial(m, k),
{
    lemma_falling_factorial_monotone(n, m, k - 1);
    lemma_range_product_first(n - k + 1, n);
    lemma_range_product_first(m - k + 1, m);
    let few = falling_factorial(n, k - 1);
    let many = falling_factorial(m, k - 1);
    assert((n - k + 1) * few < (m - k + 1) * many) by (nonlinear_arith)
        requires
            1 <= few <= many,
            1 <= n - k + 1 < m - k + 1,
    ;
}

/// The quotient that defines the binomial is exact, and the binomials obey
/// Pascal's rule.
pub proof fn lemma_binomial_exact(n: int, r: int)
    requires
        0 <= n,
        0 <= r,
    ensures
        falling_factorial(n, r) == binomial(n, r) * factorial_of(r),
        1 <= n && 1 <= r ==> binomial(n, r) == binomial(n - 1, r - 1) + binomial(n - 1, r),
    decreases n,
{
    lemma_range_product_positive(1, r);
    let whole = factorial_of(r);
    if r == 0 {
        assert(falling_factorial(n, 0) == 1);
        assert(whole == 1);
    } else if n == 0 {
        assert(range_product(1 - r, 0) == range_product(1 - r, -1) * 0);
        assert(falling_factorial(0, r) == 0);
        assert(0int / whole == 0) by (nonlinear_arith)
            requires
                whole >= 1,
        ;
    } else {
        lemma_binomial_exact(n - 1, r);
        lemma_binomial_exact(n - 1, r - 1);
        let shorter = falling_factorial(n - 1, r - 1);
        let part = factorial_of(r - 1);
        let with_last = binomial(n - 1, r - 1);
        let without_last = binomial(n - 1, r);
        assert(falling_factorial(n, r) == shorter * n);
        assert(falling_factorial(n - 1, r) == (n - r) * shorter) by {
            lemma_range_product_first(n - r, n - 1);
        }
        assert(whole == part * r);
        assert(shorter * n == (with_last + without_last) * whole) by (nonlinear_arith)
            requires
                (n - r) * shorter == without_last * whole,
                shorter == with_last * part,
                whole == part * r,
        ;
        let sum = with_last + without_last;
        assert((sum * whole) / whole == sum) by (nonlinear_arith)
            requires
                whole >= 1,
        ;
    }
}

/// `n` choose `r` is at least 1 while `r <= n`, and grows with `n`.
pub proof fn lemma_binomial_monotone(n: int, m: int, r: int)
    requires
        0 <= r <= n <= m,
    ensures
        1 <= binomial(n, r) <= binomial(m, r),
{
    lemma_binomial_exact(n, r);
    lemma_binomial_exact(m, r);
    lemma_falling_factorial_monotone(r, n, r);
    lemma_falling_factorial_monotone(n, m, r);
    let whole = factorial_of(r);
    let few = binomial(n, r);
    let many = binomial(m, r);
    assert(1 <= few <= many) by (nonlinear_arith)
        requires
            1 <= whole <= few * whole <= many * whole,
    ;
}

/// Choosing nothing can be done in one way.
pub proof fn lemma_binomial_none(n: int)
    ensures
        binomial(n, 0) == 1,
{
    assert(falling_factorial(n, 0) == 1);
    assert(factorial_of(0) == 1);
}

/// Choosing everything can be done in one way.
pub proof fn lemma_binomial_all(n: int)
    requires
        0 <= n,
    ensures
        binomial(n, n) == 1,
{
    lemma_range_product_positive(1, n);
    let whole = factorial_of(n);
    assert(whole / whole == 1) by (nonlinear_arith)
        requires
            whole >= 1,
    ;
}

/// The factorials that fit in `u64` are those of 0 to 20.
pub proof fn lemma_factorial_fits(n: int)
    requires
        0 <= n,
    ensures
        factorial_of(n) <= u64::MAX <==> n <= 20,
        n <= 20 ==> factorial_of(n) <= 2432902008176640000,
{
    assert(factorial_of(20) == 2432902008176640000) by {
        reveal_with_fuel(range_product, 3);
        assert(range_product(1, 2) == 2);
        assert(range_product(1, 4) == 24);
        assert(range_product(1, 6) == 720);
        assert(range_product(1, 8) == 40320);
        assert(range_product(1, 10) == 3628800);
        assert(range_product(1, 12) == 479001600);
        assert(range_product(1, 14) == 87178291200);
        assert(range_product(1, 16) == 20922789888000);
        assert(range_product(1, 18) == 6402373705728000);
        assert(range_product(1, 20) == 2432902008176640000);
    }
    if n <= 20 {
        lemma_range_product_split(1, n, 20);
        lemma_range_product_positive(1, n);
        lemma_range_product_positive(n + 1, 20);
        let head = factorial_of(n);
        let tail = range_product(n + 1, 20);
        assert(head <= head * tail) by (nonlinear_arith)
            requires
                head >= 1,
                tail >= 1,
        ;
    } else {
        assert(factorial_of(21) == factorial_of(20) * 21);
        lemma_range_product_split(1, 21, n);
        lemma_range_product_positive(22, n);
        let head = factorial_of(21);
        let tail = range_product(22, n);
        assert(head <= head * tail) by (nonlinear_arith)
            requires
                head >= 1,
                tail >= 1,
        ;
    }
}

} // verus!
