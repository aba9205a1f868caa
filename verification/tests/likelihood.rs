use exclusivity::{
    likelihood_of_an_exclusive_relationship_algebraically_optimized,
    likelihood_of_an_exclusive_relationship_completely_optimized,
    likelihood_of_an_exclusive_relationship_not_optimized, Likelihood, LikelihoodError,
};

fn fraction(exclusive: u64, outcomes: u64) -> Result<Likelihood, LikelihoodError> {
    Ok(Likelihood { exclusive, outcomes })
}

fn probability(likelihood: Likelihood) -> f64 {
    1.0 - (likelihood.exclusive as f64 / likelihood.outcomes as f64)
}

/// Counts, by trying every subset of the population for every sample, the
/// ways to choose the samples; with `apart`, only those in which no two
/// samples share an element.
fn enumerate_choices(sizes: &[u64], population: u32, taken: u32, apart: bool) -> u64 {
    if sizes.is_empty() {
        return 1;
    }
    let mut count: u64 = 0;
    let mut subset: u32 = 0;
    while subset < (1u32 << population) {
        if u64::from(subset.count_ones()) == sizes[0] && (!apart || subset & taken == 0) {
            count += enumerate_choices(&sizes[1..], population, taken | subset, apart);
        }
        subset += 1;
    }
    count
}

#[test]
fn two_single_draws_from_two_collide_half_the_time() {
    let samples: Vec<u64> = vec![1, 1];
    let population: u64 = 2;
    // Four equally likely pairings, two of which take the same element twice.
    assert_eq!(enumerate_choices(&samples, 2, 0, false), 4);
    assert_eq!(enumerate_choices(&samples, 2, 0, true), 2);
    let direct = likelihood_of_an_exclusive_relationship_not_optimized(&samples, &population);
    let closed =
        likelihood_of_an_exclusive_relationship_algebraically_optimized(&samples, &population);
    let one_pass =
        likelihood_of_an_exclusive_relationship_completely_optimized(&samples, &population);
    assert_eq!(direct, fraction(2, 4));
    assert_eq!(closed, fraction(2, 4));
    assert_eq!(one_pass, fraction(2, 4));
    assert_eq!(probability(direct.unwrap()), 0.5);
    assert_eq!(probability(closed.unwrap()), 0.5);
    assert_eq!(probability(one_pass.unwrap()), 0.5);
}

#[test]
fn three_hundred_and_two_of_a_thousand_agree() {
    let samples: Vec<u64> = vec![300, 2];
    let population: u64 = 1000;
    let direct = likelihood_of_an_exclusive_relationship_not_optimized(&samples, &population);
    let closed =
        likelihood_of_an_exclusive_relationship_algebraically_optimized(&samples, &population);
    let one_pass =
        likelihood_of_an_exclusive_relationship_completely_optimized(&samples, &population);
    // The ranges of 300 factors leave `u64`: all three say so.
    assert_eq!(closed, Err(LikelihoodError::Overflow));
    assert_eq!(one_pass, closed);
    assert_eq!(direct, closed);
}

#[test]
fn three_and_two_of_ten_agree() {
    let samples: Vec<u64> = vec![3, 2];
    let population: u64 = 10;
    let direct = likelihood_of_an_exclusive_relationship_not_optimized(&samples, &population);
    let closed =
        likelihood_of_an_exclusive_relationship_algebraically_optimized(&samples, &population);
    let one_pass =
        likelihood_of_an_exclusive_relationship_completely_optimized(&samples, &population);
    assert_eq!(closed, fraction(30240, 64800));
    assert_eq!(one_pass, closed);
    assert_eq!(direct, fraction(2520, 5400));
    let reference: f64 = probability(closed.unwrap());
    let tolerance: f64 = 1e-9 * reference;
    assert!((probability(direct.unwrap()) - reference).abs() <= tolerance);
    assert!((probability(one_pass.unwrap()) - reference).abs() <= tolerance);
    assert!((reference - 8.0 / 15.0).abs() <= tolerance);
}

#[test]
fn closed_formula_exact_values() {
    let population: u64 = 10;
    assert_eq!(
        likelihood_of_an_exclusive_relationship_algebraically_optimized(
            &vec![3, 1, 2],
            &population
        ),
        fraction(151200, 648000)
    );
    assert_eq!(
        likelihood_of_an_exclusive_relationship_algebraically_optimized(&vec![5, 0, 2], &9),
        fraction(181440, 1088640)
    );
    assert_eq!(
        likelihood_of_an_exclusive_relationship_algebraically_optimized(&vec![4, 4, 4], &12),
        fraction(479001600, 1676676672000)
    );
}

#[test]
fn one_pass_sorts_before_it_builds_its_ranges() {
    // Descending and mixed orders: left as they are, the running product
    // would be carried on from the wrong range.
    assert_eq!(
        likelihood_of_an_exclusive_relationship_completely_optimized(&vec![3, 1, 2], &10),
        fraction(151200, 648000)
    );
    assert_eq!(
        likelihood_of_an_exclusive_relationship_completely_optimized(&vec![3, 2, 1], &10),
        fraction(151200, 648000)
    );
    assert_eq!(
        likelihood_of_an_exclusive_relationship_completely_optimized(&vec![4, 4, 4], &12),
        fraction(479001600, 1676676672000)
    );
    assert_eq!(
        likelihood_of_an_exclusive_relationship_completely_optimized(&vec![5, 0, 2], &9),
        fraction(181440, 1088640)
    );
}

#[test]
fn one_pass_leaves_its_argument_as_it_was() {
    let samples: Vec<u64> = vec![3, 1, 2];
    let result = likelihood_of_an_exclusive_relationship_completely_optimized(&samples, &10);
    assert!(result.is_ok());
    assert_eq!(samples, vec![3, 1, 2]);
}

#[test]
fn sample_by_sample_exact_values() {
    assert_eq!(
        likelihood_of_an_exclusive_relationship_not_optimized(&vec![3, 1, 2], &10),
        fraction(12600, 54000)
    );
    assert_eq!(
        likelihood_of_an_exclusive_relationship_not_optimized(&vec![5, 0, 2], &9),
        fraction(756, 4536)
    );
    assert_eq!(
        likelihood_of_an_exclusive_relationship_not_optimized(&vec![4, 4, 4], &12),
        fraction(34650, 121287375)
    );
}

#[test]
fn sample_by_sample_matches_enumeration() {
    let cases: Vec<(Vec<u64>, u32)> = vec![
        (vec![1, 1], 2),
        (vec![2, 1], 4),
        (vec![1, 2, 1], 5),
        (vec![2, 2, 2], 6),
        (vec![0, 3], 4),
        (vec![3, 0, 1], 4),
        (vec![1, 1, 1, 1], 4),
    ];
    for (samples, population) in cases.iter() {
        let apart: u64 = enumerate_choices(samples, *population, 0, true);
        let all: u64 = enumerate_choices(samples, *population, 0, false);
        let wide: u64 = u64::from(*population);
        assert_eq!(
            likelihood_of_an_exclusive_relationship_not_optimized(samples, &wide),
            fraction(apart, all)
        );
        let closed =
            likelihood_of_an_exclusive_relationship_algebraically_optimized(samples, &wide)
                .unwrap();
        assert_eq!(
            u128::from(closed.exclusive) * u128::from(all),
            u128::from(apart) * u128::from(closed.outcomes)
        );
        assert_eq!(
            likelihood_of_an_exclusive_relationship_completely_optimized(samples, &wide),
            Ok(closed)
        );
    }
}

#[test]
fn no_samples_never_collide() {
    let none: Vec<u64> = Vec::new();
    let populations: [u64; 4] = [0, 1, 1000, u64::MAX];
    for population in populations.iter() {
        let direct = likelihood_of_an_exclusive_relationship_not_optimized(&none, population);
        let closed =
            likelihood_of_an_exclusive_relationship_algebraically_optimized(&none, population);
        let one_pass =
            likelihood_of_an_exclusive_relationship_completely_optimized(&none, population);
        assert_eq!(direct, fraction(1, 1));
        assert_eq!(closed, fraction(1, 1));
        assert_eq!(one_pass, fraction(1, 1));
        assert_eq!(probability(direct.unwrap()), 0.0);
        assert_eq!(probability(closed.unwrap()), 0.0);
        assert_eq!(probability(one_pass.unwrap()), 0.0);
    }
}

#[test]
fn empty_samples_never_collide() {
    let population: u64 = 0;
    let samples: Vec<u64> = vec![0, 0];
    assert_eq!(
        likelihood_of_an_exclusive_relationship_not_optimized(&samples, &population),
        fraction(1, 1)
    );
    assert_eq!(
        likelihood_of_an_exclusive_relationship_algebraically_optimized(&samples, &population),
        fraction(1, 1)
    );
    assert_eq!(
        likelihood_of_an_exclusive_relationship_completely_optimized(&samples, &population),
        fraction(1, 1)
    );
}

#[test]
fn a_single_sample_never_collides() {
    assert_eq!(
        likelihood_of_an_exclusive_relationship_not_optimized(&vec![3], &10),
        fraction(120, 120)
    );
    assert_eq!(
        likelihood_of_an_exclusive_relationship_algebraically_optimized(&vec![3], &10),
        fraction(720, 720)
    );
    assert_eq!(
        likelihood_of_an_exclusive_relationship_completely_optimized(&vec![3], &10),
        fraction(720, 720)
    );
}

#[test]
fn samples_that_exhaust_the_population() {
    let samples: Vec<u64> = vec![2, 3];
    let population: u64 = 5;
    let direct = likelihood_of_an_exclusive_relationship_not_optimized(&samples, &population);
    let closed =
        likelihood_of_an_exclusive_relationship_algebraically_optimized(&samples, &population);
    let one_pass =
        likelihood_of_an_exclusive_relationship_completely_optimized(&samples, &population);
    assert_eq!(direct, fraction(10, 100));
    assert_eq!(closed, fraction(120, 1200));
    assert_eq!(one_pass, fraction(120, 1200));
    for likelihood in [direct.unwrap(), closed.unwrap(), one_pass.unwrap()].iter() {
        let p: f64 = probability(*likelihood);
        assert!(p.is_finite());
        assert!(0.0 <= p && p <= 1.0);
        assert!((p - 0.9).abs() <= 1e-9);
    }
}

#[test]
fn one_element_each_until_none_is_left() {
    let samples: Vec<u64> = vec![1, 1, 1, 1];
    let population: u64 = 4;
    assert_eq!(
        likelihood_of_an_exclusive_relationship_not_optimized(&samples, &population),
        fraction(24, 256)
    );
    assert_eq!(
        likelihood_of_an_exclusive_relationship_algebraically_optimized(&samples, &population),
        fraction(24, 256)
    );
    assert_eq!(
        likelihood_of_an_exclusive_relationship_completely_optimized(&samples, &population),
        fraction(24, 256)
    );
}

#[test]
fn more_than_the_population_holds_is_invalid() {
    let samples: Vec<u64> = vec![3, 3];
    let population: u64 = 5;
    assert_eq!(
        likelihood_of_an_exclusive_relationship_not_optimized(&samples, &population),
        Err(LikelihoodError::InvalidInput)
    );
    assert_eq!(
        likelihood_of_an_exclusive_relationship_algebraically_optimized(&samples, &population),
        Err(LikelihoodError::InvalidInput)
    );
    assert_eq!(
        likelihood_of_an_exclusive_relationship_completely_optimized(&samples, &population),
        Err(LikelihoodError::InvalidInput)
    );
}

#[test]
fn one_sample_larger_than_the_population_is_invalid() {
    let samples: Vec<u64> = vec![0, 6];
    let population: u64 = 5;
    assert_eq!(
        likelihood_of_an_exclusive_relationship_not_optimized(&samples, &population),
        Err(LikelihoodError::InvalidInput)
    );
    assert_eq!(
        likelihood_of_an_exclusive_relationship_algebraically_optimized(&samples, &population),
        Err(LikelihoodError::InvalidInput)
    );
    assert_eq!(
        likelihood_of_an_exclusive_relationship_completely_optimized(&samples, &population),
        Err(LikelihoodError::InvalidInput)
    );
}

#[test]
fn a_sum_beyond_u64_is_invalid() {
    let samples: Vec<u64> = vec![u64::MAX, 1];
    let population: u64 = u64::MAX;
    assert_eq!(
        likelihood_of_an_exclusive_relationship_not_optimized(&samples, &population),
        Err(LikelihoodError::InvalidInput)
    );
    assert_eq!(
        likelihood_of_an_exclusive_relationship_algebraically_optimized(&samples, &population),
        Err(LikelihoodError::InvalidInput)
    );
    assert_eq!(
        likelihood_of_an_exclusive_relationship_completely_optimized(&samples, &population),
        Err(LikelihoodError::InvalidInput)
    );
}

#[test]
fn invalid_input_is_told_before_overflow() {
    let samples: Vec<u64> = vec![600, 600];
    let population: u64 = 1000;
    assert_eq!(
        likelihood_of_an_exclusive_relationship_not_optimized(&samples, &population),
        Err(LikelihoodError::InvalidInput)
    );
    assert_eq!(
        likelihood_of_an_exclusive_relationship_algebraically_optimized(&samples, &population),
        Err(LikelihoodError::InvalidInput)
    );
    assert_eq!(
        likelihood_of_an_exclusive_relationship_completely_optimized(&samples, &population),
        Err(LikelihoodError::InvalidInput)
    );
}

#[test]
fn choices_fit_where_draws_do_not() {
    // Each range of ten factors fits, their product does not; the
    // combinations and their product do.
    let samples: Vec<u64> = vec![10, 10];
    let population: u64 = 40;
    assert_eq!(
        likelihood_of_an_exclusive_relationship_not_optimized(&samples, &population),
        fraction(25467973278667920, 718528370729238784)
    );
    assert_eq!(
        likelihood_of_an_exclusive_relationship_algebraically_optimized(&samples, &population),
        Err(LikelihoodError::Overflow)
    );
    assert_eq!(
        likelihood_of_an_exclusive_relationship_completely_optimized(&samples, &population),
        Err(LikelihoodError::Overflow)
    );
}

#[test]
fn sample_by_sample_overflows_with_the_product_of_choices() {
    assert_eq!(
        likelihood_of_an_exclusive_relationship_not_optimized(&vec![10, 10, 10], &40),
        Err(LikelihoodError::Overflow)
    );
}

#[test]
fn sample_by_sample_overflows_with_the_range_of_one_sample() {
    // 30 choose 15 would fit, the fifteen factors it is made from do not.
    assert_eq!(
        likelihood_of_an_exclusive_relationship_not_optimized(&vec![15], &30),
        Err(LikelihoodError::Overflow)
    );
    assert_eq!(
        likelihood_of_an_exclusive_relationship_not_optimized(&vec![14, 3], &30),
        fraction(81436698000, 590416060500)
    );
}

#[test]
fn closed_formula_overflows_with_the_product_of_ranges() {
    assert_eq!(
        likelihood_of_an_exclusive_relationship_algebraically_optimized(&vec![20, 2], &25),
        Err(LikelihoodError::Overflow)
    );
    assert_eq!(
        likelihood_of_an_exclusive_relationship_completely_optimized(&vec![20, 2], &25),
        Err(LikelihoodError::Overflow)
    );
    assert_eq!(
        likelihood_of_an_exclusive_relationship_algebraically_optimized(&vec![15], &30),
        Err(LikelihoodError::Overflow)
    );
    assert_eq!(
        likelihood_of_an_exclusive_relationship_completely_optimized(&vec![15], &30),
        Err(LikelihoodError::Overflow)
    );
}

#[test]
fn the_largest_population_is_no_obstacle() {
    let population: u64 = u64::MAX;
    assert_eq!(
        likelihood_of_an_exclusive_relationship_not_optimized(&vec![1, 0], &population),
        fraction(u64::MAX, u64::MAX)
    );
    assert_eq!(
        likelihood_of_an_exclusive_relationship_algebraically_optimized(
            &vec![1, 0],
            &population
        ),
        fraction(u64::MAX, u64::MAX)
    );
    assert_eq!(
        likelihood_of_an_exclusive_relationship_completely_optimized(&vec![0, 1], &population),
        fraction(u64::MAX, u64::MAX)
    );
    assert_eq!(
        likelihood_of_an_exclusive_relationship_completely_optimized(&vec![1, 1], &population),
        Err(LikelihoodError::Overflow)
    );
}
