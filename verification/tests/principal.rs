use amortize::{
    calc_number_of_payments, search_bracket, solve_for_principal, LoanError, MAX_PERIODS, SCALE,
    TOLERANCE,
};

/// Whole currency units or whole periods, in units of a billionth.
fn whole(count: u64) -> u64 {
    count * SCALE
}

/// The distance between two counts of periods.
fn distance(one: u64, other: u64) -> u64 {
    if one < other {
        other - one
    } else {
        one - other
    }
}

/// The schedule followed in double precision.
fn periods_in_doubles(principal: f64, rate: f64, payment: f64) -> f64 {
    let mut remaining: f64 = principal;
    let mut count: f64 = 0.0;
    while remaining > 0.0 {
        remaining += remaining * rate - payment;
        count += 1.0;
    }
    count + remaining / payment
}

/// Terms on which the search finds a principal: rate, payment, periods.
fn solvable_terms() -> [(u64, u64, u64); 6] {
    [
        (5_000_000, whole(300), whole(36)),
        (5_000_000, whole(300), whole(1)),
        (10_000_000, whole(1_000), whole(12)),
        (50_000_000, whole(100), whole(10)),
        (2_500_000, whole(1_500), whole(360)),
        (500_000_000, whole(500), whole(3)),
    ]
}

#[test]
fn search_finds_the_expected_principals() {
    let expected: [u128; 6] = [
        9_861_303_716_629,
        298_510_377_797,
        11_255_076_946_596,
        772_173_563_637,
        355_784_073_164_335,
        703_702_290_850,
    ];
    for ((rate, payment, periods), principal) in solvable_terms().into_iter().zip(expected) {
        assert_eq!(solve_for_principal(rate, payment, periods), Ok(principal));
    }
}

#[test]
fn simulating_the_found_principal_gives_the_periods_back() {
    let simulated: [u64; 6] = [
        35_999_995_393,
        1_000_009_815,
        11_999_999_407,
        10_000_001_210,
        360_000_001_491,
        2_999_990_464,
    ];
    for ((rate, payment, periods), expected) in solvable_terms().into_iter().zip(simulated) {
        let principal = solve_for_principal(rate, payment, periods).unwrap();
        let counted = calc_number_of_payments(principal, rate, payment).unwrap();
        assert_eq!(counted, expected);
        assert!(distance(counted, periods) <= TOLERANCE);
    }
}

#[test]
fn fractional_number_of_periods_can_be_asked_for() {
    let principal = solve_for_principal(5_000_000, whole(300), 35_300_000_000).unwrap();
    assert_eq!(principal, 9_685_817_804_334);
    let counted = calc_number_of_payments(principal, 5_000_000, whole(300)).unwrap();
    assert_eq!(counted, 35_299_993_481);
}

#[test]
fn bracket_ends_follow_their_formulas() {
    assert_eq!(
        search_bracket(5_000_000, whole(300), whole(36)),
        (298_507_462_686, 10_800_000_000_000)
    );
    assert_eq!(
        search_bracket(500_000_000, whole(500), whole(3)),
        (333_333_333_333, 800_000_000_000)
    );
    assert_eq!(
        search_bracket(10_000_000, whole(100), whole(200)),
        (99_009_900_990, 8_000_000_000_000)
    );
    assert_eq!(search_bracket(1, 1, 1), (0, 0));
}

#[test]
fn found_principal_lies_in_the_bracket() {
    for (rate, payment, periods) in solvable_terms() {
        let (lower, upper) = search_bracket(rate, payment, periods);
        let principal = solve_for_principal(rate, payment, periods).unwrap();
        assert!(lower <= principal && principal <= upper);
    }
}

#[test]
fn single_period_gives_a_principal_next_to_the_lower_end() {
    let (lower, _) = search_bracket(5_000_000, whole(300), whole(1));
    let principal = solve_for_principal(5_000_000, whole(300), whole(1)).unwrap();
    assert_eq!(lower, 298_507_462_686);
    assert!(principal >= lower);
    assert!(principal - lower < lower / 100_000);
}

#[test]
fn periods_beyond_what_the_bracket_holds_do_not_converge() {
    let result = solve_for_principal(10_000_000, whole(100), whole(200));
    assert_eq!(result, Err(LoanError::DidNotConverge));
}

#[test]
fn half_a_period_lies_below_the_bracket_and_does_not_converge() {
    let result = solve_for_principal(10_000_000, whole(1_000), 500_000_000);
    assert_eq!(result, Err(LoanError::DidNotConverge));
}

#[test]
fn middle_that_is_not_paid_off_in_time_gives_no_solution() {
    let result = solve_for_principal(1, whole(1), whole(200_000));
    assert_eq!(result, Err(LoanError::NoSolution));
}

#[test]
fn found_principal_may_need_more_than_sixty_four_bits() {
    let principal = solve_for_principal(10_000_000, u64::MAX, whole(100)).unwrap();
    assert_eq!(principal, 1_162_677_627_171_256_985_838);
    let counted = calc_number_of_payments(principal, 10_000_000, u64::MAX).unwrap();
    assert!(distance(counted, whole(100)) <= TOLERANCE);
}

#[test]
fn largest_inputs_are_searched_without_overflow() {
    assert_eq!(solve_for_principal(u64::MAX, u64::MAX, u64::MAX), Err(LoanError::DidNotConverge));
    assert_eq!(solve_for_principal(1, u64::MAX, u64::MAX), Err(LoanError::NoSolution));
}

#[test]
fn smallest_inputs_find_an_empty_loan() {
    assert_eq!(solve_for_principal(1, 1, 1), Ok(0));
}

#[test]
fn same_terms_give_the_same_principal_every_time() {
    for (rate, payment, periods) in solvable_terms() {
        let first = solve_for_principal(rate, payment, periods);
        let second = solve_for_principal(rate, payment, periods);
        assert_eq!(first, second);
    }
    let failed = solve_for_principal(10_000_000, whole(100), whole(200));
    assert_eq!(failed, solve_for_principal(10_000_000, whole(100), whole(200)));
}

#[test]
fn found_principal_pays_off_in_time_in_doubles_too() {
    for (rate, payment, periods) in solvable_terms() {
        let principal = solve_for_principal(rate, payment, periods).unwrap();
        let simulated = periods_in_doubles(
            principal as f64 / SCALE as f64,
            rate as f64 / SCALE as f64,
            payment as f64 / SCALE as f64,
        );
        let wanted = periods as f64 / SCALE as f64;
        assert!((simulated - wanted).abs() < 2e-5);
    }
}

#[test]
fn lower_end_of_the_bracket_is_retired_by_one_payment() {
    for (rate, payment, periods) in solvable_terms() {
        let (lower, _) = search_bracket(rate, payment, periods);
        let counted = calc_number_of_payments(lower, rate, payment).unwrap();
        assert!(counted <= SCALE);
        assert!(SCALE - counted < 10);
    }
}

#[test]
fn principal_above_the_sum_of_the_payments_takes_too_long() {
    let rate: u64 = 1_000;
    let payment: u64 = whole(300);
    let periods: u64 = whole(36);
    let (_, upper) = search_bracket(rate, payment, periods);
    assert_eq!(upper, whole(300) as u128 * 36);
    let counted = calc_number_of_payments(upper + 1, rate, payment).unwrap();
    assert!(counted > periods);
}

#[test]
fn payment_covers_the_interest_at_both_ends_of_the_bracket() {
    let terms: [(u64, u64, u64); 4] = [
        (5_000_000, whole(300), whole(36)),
        (10_000_000, whole(100), whole(200)),
        (u64::MAX, u64::MAX, u64::MAX),
        (1, 1, 1),
    ];
    for (rate, payment, periods) in terms {
        let (lower, upper) = search_bracket(rate, payment, periods);
        assert!(calc_number_of_payments(lower, rate, payment).is_ok());
        assert_ne!(
            calc_number_of_payments(upper, rate, payment),
            Err(LoanError::InvalidPayment)
        );
    }
}

/// The most by which the number of payments can rise from one principal to
/// the next, below four fifths of the interest-only principal.
fn largest_step(rate: u64, payment: u64) -> u128 {
    let scale = SCALE as u128;
    let grown = scale + rate as u128;
    (5 * grown * grown - scale * scale) * grown / (rate as u128 * scale * payment as u128) + 1
}

/// Terms on which the search has to succeed.
fn ordinary(rate: u64, payment: u64, periods: u64) -> bool {
    let scale = SCALE as u128;
    rate > 0
        && largest_step(rate, payment) <= 2 * TOLERANCE as u128
        && 2 * scale <= TOLERANCE as u128 * payment as u128
        && SCALE <= periods
        && 5 * periods as u128 <= MAX_PERIODS as u128 * scale
        && 5 * rate as u128 * periods as u128 <= 4 * scale * scale
}

#[test]
fn search_succeeds_on_ordinary_terms() {
    let rates: [u64; 6] = [1_000, 1_000_000, 4_166_667, 5_000_000, 100_000_000, 800_000_000];
    let payments: [u64; 5] = [1_710_001, 200_700_751, whole(1), whole(300), whole(1_000_000)];
    let counts: [u64; 6] =
        [whole(1), 1_500_000_000, whole(2), whole(36), whole(160), whole(3_000)];
    let mut searched = 0;
    for rate in rates {
        for payment in payments {
            for periods in counts {
                if ordinary(rate, payment, periods) {
                    let principal = solve_for_principal(rate, payment, periods).unwrap();
                    let counted = calc_number_of_payments(principal, rate, payment).unwrap();
                    assert!(distance(counted, periods) <= TOLERANCE);
                    searched += 1;
                }
            }
        }
    }
    assert_eq!(searched, 89);
}

#[test]
fn count_rises_by_small_steps_below_the_upper_end() {
    let terms: [(u64, u64, u64); 3] = [
        (5_000_000, whole(300), whole(36)),
        (100_000_000, 2_777_501, whole(8)),
        (1_000, 200_000_700_001, whole(3_000)),
    ];
    for (rate, payment, periods) in terms {
        let (lower, upper) = search_bracket(rate, payment, periods);
        let step = largest_step(rate, payment);
        let stride = (upper - lower) / 500;
        let mut principal = lower;
        while principal < upper {
            let here = calc_number_of_payments(principal, rate, payment).unwrap();
            let next = calc_number_of_payments(principal + 1, rate, payment).unwrap();
            assert!(here <= next && (next - here) as u128 <= step);
            principal += stride;
        }
    }
}
