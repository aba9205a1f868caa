use exclusivity::{comb, factorial, product_above, LikelihoodError};

#[test]
fn factorial_of_zero_is_one() {
    assert_eq!(factorial(&0), Ok(1));
}

#[test]
fn factorial_of_five() {
    assert_eq!(factorial(&5), Ok(120));
}

#[test]
fn factorial_of_one_and_ten() {
    assert_eq!(factorial(&1), Ok(1));
    assert_eq!(factorial(&10), Ok(3628800));
}

#[test]
fn factorial_of_twenty_is_the_last_that_fits() {
    assert_eq!(factorial(&20), Ok(2432902008176640000));
    assert_eq!(factorial(&21), Err(LikelihoodError::Overflow));
}

#[test]
fn factorial_of_a_huge_number_overflows_at_once() {
    assert_eq!(factorial(&u64::MAX), Err(LikelihoodError::Overflow));
}

#[test]
fn comb_of_nothing_is_one() {
    let populations: [u64; 6] = [0, 1, 5, 20, 1000, u64::MAX];
    for n in populations.iter() {
        assert_eq!(comb(n, &0), Ok(1));
    }
}

#[test]
fn comb_of_everything_is_one() {
    let mut n: u64 = 0;
    while n <= 20 {
        assert_eq!(comb(&n, &n), Ok(1));
        n += 1;
    }
}

#[test]
fn comb_of_everything_overflows_past_twenty() {
    assert_eq!(comb(&21, &21), Err(LikelihoodError::Overflow));
}

#[test]
fn comb_five_two() {
    assert_eq!(comb(&5, &2), Ok(10));
}

#[test]
fn comb_follows_pascal() {
    let mut n: u64 = 1;
    while n <= 20 {
        let mut r: u64 = 1;
        while r <= n {
            let above_left: u64 = comb(&(n - 1), &(r - 1)).unwrap();
            let above: u64 = if r <= n - 1 { comb(&(n - 1), &r).unwrap() } else { 0 };
            assert_eq!(comb(&n, &r), Ok(above_left + above));
            r += 1;
        }
        n += 1;
    }
}

#[test]
fn comb_known_values() {
    assert_eq!(comb(&40, &10), Ok(847660528));
    assert_eq!(comb(&1000, &2), Ok(499500));
    assert_eq!(comb(&u64::MAX, &1), Ok(u64::MAX));
}

#[test]
fn comb_of_more_than_there_is_is_invalid() {
    assert_eq!(comb(&2, &5), Err(LikelihoodError::InvalidInput));
    assert_eq!(comb(&0, &1), Err(LikelihoodError::InvalidInput));
}

#[test]
fn comb_overflows_with_its_range_product() {
    // 30 * 29 * ... * 17 fits, one more factor does not.
    assert_eq!(comb(&30, &14), Ok(145422675));
    assert_eq!(comb(&30, &15), Err(LikelihoodError::Overflow));
    assert_eq!(comb(&1000, &300), Err(LikelihoodError::Overflow));
}

#[test]
fn product_above_multiplies_the_range() {
    assert_eq!(product_above(0, 5), Some(120));
    assert_eq!(product_above(3, 5), Some(20));
    assert_eq!(product_above(4, 5), Some(5));
    assert_eq!(product_above(997, 1000), Some(998 * 999 * 1000));
}

#[test]
fn product_above_of_an_empty_range_is_one() {
    assert_eq!(product_above(5, 5), Some(1));
    assert_eq!(product_above(7, 5), Some(1));
    assert_eq!(product_above(0, 0), Some(1));
    assert_eq!(product_above(u64::MAX, u64::MAX), Some(1));
}

#[test]
fn product_above_reports_overflow() {
    assert_eq!(product_above(0, 20), Some(2432902008176640000));
    assert_eq!(product_above(0, 21), None);
    assert_eq!(product_above(50, 61), Some(16688980681121548800));
    assert_eq!(product_above(51, 62), None);
    assert_eq!(product_above(u64::MAX - 2, u64::MAX), None);
    assert_eq!(product_above(u64::MAX - 1, u64::MAX), Some(u64::MAX));
}
