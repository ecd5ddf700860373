use amortize::{calc_number_of_payments, LoanError, MAX_PERIODS, SCALE};

/// Whole currency units, whole percent and the like, in units of a billionth.
fn whole(count: u64) -> u64 {
    count * SCALE
}

/// A count of periods as a double.
fn as_periods(units: u64) -> f64 {
    units as f64 / SCALE as f64
}

/// The same schedule followed in double precision.
fn periods_in_doubles(principal: f64, rate: f64, payment: f64) -> f64 {
    let mut remaining: f64 = principal;
    let mut count: f64 = 0.0;
    while remaining > 0.0 {
        remaining += remaining * rate - payment;
        count += 1.0;
    }
    count + remaining / payment
}

#[test]
fn ten_thousand_at_half_a_percent_with_payments_of_three_hundred() {
    let periods = calc_number_of_payments(whole(10_000) as u128, 5_000_000, whole(300));
    assert_eq!(periods, Ok(36_556_012_093));
}

#[test]
fn payment_equal_to_the_first_interest_is_refused() {
    let periods = calc_number_of_payments(whole(1_000) as u128, 10_000_000, whole(10));
    assert_eq!(periods, Err(LoanError::InvalidPayment));
}

#[test]
fn payment_below_the_first_interest_is_refused() {
    let periods = calc_number_of_payments(whole(1_000) as u128, 10_000_000, whole(10) - 1);
    assert_eq!(periods, Err(LoanError::InvalidPayment));
}

#[test]
fn payment_one_unit_above_the_first_interest_is_accepted() {
    let periods = calc_number_of_payments(whole(1_000) as u128, 10_000_000, whole(10) + 1);
    assert_eq!(periods, Ok(2_272_122_826_854));
}

#[test]
fn no_principal_takes_no_payments() {
    assert_eq!(calc_number_of_payments(0, 5, 7), Ok(0));
}

#[test]
fn no_payment_is_refused_even_without_principal() {
    assert_eq!(calc_number_of_payments(0, 0, 0), Err(LoanError::InvalidPayment));
    assert_eq!(calc_number_of_payments(5, 0, 0), Err(LoanError::InvalidPayment));
}

#[test]
fn without_interest_the_count_is_principal_over_payment_rounded_up() {
    assert_eq!(calc_number_of_payments(100, 0, 60), Ok(1_666_666_667));
    assert_eq!(calc_number_of_payments(120, 0, 60), Ok(2_000_000_000));
    assert_eq!(calc_number_of_payments(1, 0, 1), Ok(1_000_000_000));
    assert_eq!(calc_number_of_payments(1, 0, 3), Ok(333_333_334));
}

#[test]
fn one_payment_that_retires_the_loan_exactly_counts_as_one_period() {
    let periods = calc_number_of_payments(whole(100) as u128, 50_000_000, whole(105));
    assert_eq!(periods, Ok(SCALE));
}

#[test]
fn one_payment_that_overshoots_counts_as_part_of_a_period() {
    let periods = calc_number_of_payments(whole(100) as u128, 50_000_000, whole(200));
    assert_eq!(periods, Ok(525_000_000));
}

#[test]
fn one_payment_that_falls_short_needs_part_of_a_second_period() {
    let periods = calc_number_of_payments(whole(100) as u128, 50_000_000, whole(104));
    assert_eq!(periods, Ok(1_010_096_154));
}

#[test]
fn loan_paid_off_with_the_last_allowed_payment_is_counted() {
    let principal = MAX_PERIODS as u128 * 7;
    assert_eq!(calc_number_of_payments(principal, 0, 7), Ok(MAX_PERIODS * SCALE));
}

#[test]
fn loan_still_open_after_the_last_allowed_payment_does_not_converge() {
    let principal = MAX_PERIODS as u128 * 7 + 1;
    assert_eq!(calc_number_of_payments(principal, 0, 7), Err(LoanError::DidNotConverge));
}

#[test]
fn high_rate_with_payment_barely_above_interest_still_ends() {
    let periods = calc_number_of_payments(whole(1_000) as u128, 500_000_000, whole(500) + 1);
    assert_eq!(periods, Ok(65_961_702_255));
    let refused = calc_number_of_payments(whole(1_000) as u128, 500_000_000, whole(500));
    assert_eq!(refused, Err(LoanError::InvalidPayment));
}

#[test]
fn largest_inputs_are_handled_without_overflow() {
    assert_eq!(calc_number_of_payments(u128::MAX, 0, u64::MAX), Err(LoanError::DidNotConverge));
    assert_eq!(calc_number_of_payments(u128::MAX, 1, u64::MAX), Err(LoanError::InvalidPayment));
    assert_eq!(
        calc_number_of_payments(u128::MAX, u64::MAX, u64::MAX),
        Err(LoanError::InvalidPayment)
    );
    assert_eq!(calc_number_of_payments(u64::MAX as u128 * 1_000, 0, u64::MAX), Ok(1_000 * SCALE));
}

#[test]
fn interest_that_reaches_the_payment_exactly_is_refused_at_the_largest_payment() {
    let interest_only = u64::MAX as u128 * SCALE as u128;
    assert_eq!(calc_number_of_payments(interest_only, 1, u64::MAX), Err(LoanError::InvalidPayment));
    assert_eq!(
        calc_number_of_payments(interest_only - 1, 1, u64::MAX),
        Err(LoanError::DidNotConverge)
    );
}

#[test]
fn count_does_not_fall_as_the_principal_rises() {
    let mut previous: u64 = 0;
    let mut principal: u128 = 0;
    while principal <= whole(40_000) as u128 {
        let periods = calc_number_of_payments(principal, 5_000_000, whole(300)).unwrap();
        assert!(previous <= periods);
        previous = periods;
        principal += 123_456_789_012;
    }
    assert!(previous > 200 * SCALE);
}

#[test]
fn count_does_not_fall_from_one_unit_to_the_next() {
    let start: u128 = whole(9_861) as u128;
    let mut previous = calc_number_of_payments(start, 5_000_000, whole(300)).unwrap();
    for step in 1..2_000u128 {
        let periods = calc_number_of_payments(start + step, 5_000_000, whole(300)).unwrap();
        assert!(previous <= periods);
        previous = periods;
    }
}

#[test]
fn share_taken_off_is_less_than_a_period() {
    for principal in [1u128, 299, 300, 301, 10_000, 57_123] {
        let periods =
            calc_number_of_payments(principal * SCALE as u128, 5_000_000, whole(300)).unwrap();
        let counted = (periods + SCALE - 1) / SCALE;
        assert!(periods <= counted * SCALE);
        assert!(periods > (counted - 1) * SCALE);
    }
}

#[test]
fn same_loan_gives_the_same_count_every_time() {
    let first = calc_number_of_payments(whole(250_000) as u128, 4_166_667, whole(1_500));
    let second = calc_number_of_payments(whole(250_000) as u128, 4_166_667, whole(1_500));
    assert!(first.is_ok());
    assert_eq!(first, second);
    let refused = calc_number_of_payments(whole(250_000) as u128, 4_166_667, whole(1_000));
    assert_eq!(refused, Err(LoanError::InvalidPayment));
    assert_eq!(refused, calc_number_of_payments(whole(250_000) as u128, 4_166_667, whole(1_000)));
}

#[test]
fn count_agrees_with_the_schedule_followed_in_doubles() {
    let loans: [(u64, u64, u64); 5] = [
        (10_000, 5_000_000, 300),
        (250_000, 4_000_000, 1_500),
        (1_000, 500_000_000, 501),
        (772, 50_000_000, 100),
        (5_000, 0, 7),
    ];
    for (principal, rate, payment) in loans {
        let exact =
            calc_number_of_payments(whole(principal) as u128, rate, whole(payment)).unwrap();
        let doubles =
            periods_in_doubles(principal as f64, rate as f64 / SCALE as f64, payment as f64);
        assert!((as_periods(exact) - doubles).abs() < 1e-6);
    }
}

#[test]
fn payments_add_up_to_at_least_the_principal() {
    let loans: [(u128, u64, u64); 4] = [
        (whole(10_000) as u128, 5_000_000, whole(300)),
        (whole(1_000) as u128, 500_000_000, whole(500) + 1),
        (100, 0, 60),
        (whole(772) as u128, 50_000_000, whole(100)),
    ];
    for (principal, rate, payment) in loans {
        let periods = calc_number_of_payments(principal, rate, payment).unwrap();
        assert!(periods as u128 * payment as u128 >= principal * SCALE as u128);
    }
}

#[test]
fn loan_that_reduced_payments_cover_within_the_limit_is_paid_off() {
    let principal: u128 = whole(1_000_000) as u128;
    let rate: u64 = 9_000_000;
    let payment: u64 = whole(9_010);
    let first_interest = principal * rate as u128 / SCALE as u128;
    assert_eq!(first_interest, whole(9_000) as u128);
    assert!(principal <= MAX_PERIODS as u128 * (payment as u128 - first_interest));
    assert_eq!(calc_number_of_payments(principal, rate, payment), Ok(759_342_709_634));
}
