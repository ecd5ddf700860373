//! The bracket that the search for a principal starts from.
//!
//! The lower end is the principal that one payment retires. The upper end is
//! the smaller of two principals that are surely large enough: what the
//! payments add up to when no interest is charged, and four fifths of the
//! principal whose interest alone equals the payment, beyond which the number
//! of payments grows without limit.
use vstd::prelude::*;

use crate::payments::{covers_interest, lemma_payments_add_up_to_principal, number_of_payments};
use crate::schedule::{balance_after, lemma_unpaid_at_limit, next_balance, payoff_period};
use crate::units::{MAX_PERIODS, SCALE};

verus! {

/// Where the search starts from below: the principal that a single payment
/// retires, interest included, rounded down to a unit.
pub open spec fn lower_bound(rate: int, payment: int) -> int {
    payment * SCALE / (SCALE + rate)
}

/// Where the search starts from above: the smaller of what the payments add
/// up to without any interest, and four fifths of the principal whose
/// interest equals the payment, each rounded down to a unit.
pub open spec fn upper_bound(rate: int, payment: int, num_periods: int) -> int {
    let without_interest = payment * num_periods / (SCALE as int);
    let below_interest_only = 4 * payment * SCALE / (5 * rate);
    if without_interest <= below_interest_only {
        without_interest
    } else {
        below_interest_only
    }
}

/// Whether `value` lies between `one_end` and `other_end`, whichever of the
/// two is the smaller.
pub open spec fn between(value: int, one_end: int, other_end: int) -> bool {
    (one_end <= value <= other_end) || (other_end <= value <= one_end)
}

/// The larger of the two ends of a bracket.
pub open spec fn larger_end(one_end: int, other_end: int) -> int {
    if one_end <= other_end {
        other_end
    } else {
        one_end
    }
}

/// Both ends of the bracket that the search starts from fit in 96 bits.
proof fn lemma_bounds_fit(rate: int, payment: int, num_periods: int)
    requires
        0 < rate,
        0 < payment <= u64::MAX,
        0 < num_periods <= u64::MAX,
    ensures
        0 <= lower_bound(rate, payment) <= payment,
        0 <= upper_bound(rate, payment, num_periods) <= 4 * payment * SCALE,
        0 <= payment * num_periods <= u64::MAX * u64::MAX,
{
    let scaled: int = payment * 1_000_000_000;
    let divisor: int = 1_000_000_000 + rate;
    assert(0 <= scaled / divisor <= payment) by (nonlinear_arith)
        requires
            scaled == payment * 1_000_000_000,
            divisor > 1_000_000_000,
            payment > 0,
    ;
    let summed: int = payment * num_periods;
    assert(0 <= summed <= 0xFFFF_FFFF_FFFF_FFFF * 0xFFFF_FFFF_FFFF_FFFF) by (nonlinear_arith)
        requires
            summed == payment * num_periods,
            0 < payment <= 0xFFFF_FFFF_FFFF_FFFF,
            0 < num_periods <= 0xFFFF_FFFF_FFFF_FFFF,
    ;
    let capped: int = 4 * payment * 1_000_000_000;
    let fifths: int = 5 * rate;
    assert(0 <= capped / fifths <= capped) by (nonlinear_arith)
        requires
            capped >= 0,
            fifths >= 5,
    ;
}

/// Computes the two ends of the bracket that the search for a principal
/// starts from: first the principal that one payment retires, then the
/// smaller of the sum of the payments and four fifths of the principal whose
/// interest equals the payment.
pub fn search_bracket(interest_rate: u64, payment: u64, num_periods: u64) -> (ends: (u128, u128))
    requires
        interest_rate > 0,
        payment > 0,
        num_periods > 0,
    ensures
        ends.0 == lower_bound(interest_rate as int, payment as int),
        ends.1 == upper_bound(interest_rate as int, payment as int, num_periods as int),
        ends.0 <= payment,
        ends.1 <= 4 * payment * SCALE,
{
    let rate: u128 = interest_rate as u128;
    let pay: u128 = payment as u128;
    let target: u128 = num_periods as u128;
    let scale: u128 = SCALE as u128;
    proof {
        lemma_bounds_fit(rate as int, pay as int, target as int);
    }
    let lower: u128 = pay * scale / (scale + rate);
    let without_interest: u128 = pay * target / scale;
    let below_interest_only: u128 = 4 * pay * scale / (5 * rate);
    if without_interest <= below_interest_only {
        (lower, without_interest)
    } else {
        (lower, below_interest_only)
    }
}

/// The payment covers the first interest of every principal in the bracket
/// that the search starts from, so the search never meets a middle that is
/// refused for its payment: a middle that cannot be simulated is one that is
/// not paid off within the limit on periods.
pub proof fn lemma_bracket_covers_interest(
    rate: int,
    payment: int,
    num_periods: int,
    principal: int,
)
    requires
        0 < rate,
        0 < payment,
        0 < num_periods,
        between(
            principal,
            lower_bound(rate, payment),
            upper_bound(rate, payment, num_periods),
        ),
    ensures
        0 <= principal,
        covers_interest(principal, rate, payment),
{
    let lower: int = lower_bound(rate, payment);
    let upper: int = upper_bound(rate, payment, num_periods);
    let capped: int = 4 * payment * 1_000_000_000 / (5 * rate);
    let summed: int = payment * num_periods;
    assert(0 <= lower && lower * (1_000_000_000 + rate) <= payment * 1_000_000_000)
        by (nonlinear_arith)
        requires
            lower == payment * 1_000_000_000 / (1_000_000_000 + rate),
            0 < rate,
            0 < payment,
    ;
    assert(0 <= capped && capped * (5 * rate) <= 4 * payment * 1_000_000_000)
        by (nonlinear_arith)
        requires
            capped == 4 * payment * 1_000_000_000 / (5 * rate),
            0 < rate,
            0 < payment,
    ;
    assert(0 <= summed / 1_000_000_000) by (nonlinear_arith)
        requires
            summed == payment * num_periods,
            0 < payment,
            0 < num_periods,
    ;
    if principal <= upper {
        assert(principal * rate < payment * 1_000_000_000) by (nonlinear_arith)
            requires
                0 <= principal <= capped,
                capped * (5 * rate) <= 4 * payment * 1_000_000_000,
                0 < rate,
                0 < payment,
        ;
    } else {
        assert(principal * rate < payment * 1_000_000_000) by (nonlinear_arith)
            requires
                0 <= principal <= lower,
                lower * (1_000_000_000 + rate) <= payment * 1_000_000_000,
                0 < rate,
                0 < payment,
        ;
    }
}

/// The lower end of the starting bracket is a principal that a single
/// payment retires: its number of payments is at most one period.
pub proof fn lemma_lower_bound_takes_one_payment(rate: int, payment: int)
    requires
        0 < rate,
        0 < payment,
    ensures
        number_of_payments(lower_bound(rate, payment), rate, payment) matches Ok(periods)
            && 0 <= periods <= SCALE,
{
    let lower: int = lower_bound(rate, payment);
    let limit: nat = MAX_PERIODS as nat;
    assert(0 <= lower && lower * (1_000_000_000 + rate) <= payment * 1_000_000_000)
        by (nonlinear_arith)
        requires
            lower == payment * 1_000_000_000 / (1_000_000_000 + rate),
            0 < rate,
            0 < payment,
    ;
    assert(lower * rate < payment * 1_000_000_000 && lower + lower * rate / 1_000_000_000
        <= payment) by (nonlinear_arith)
        requires
            0 <= lower,
            lower * (1_000_000_000 + rate) <= payment * 1_000_000_000,
            0 < rate,
            0 < payment,
    ;
    let settled: int = next_balance(lower, rate, payment);
    assert(payoff_period(settled, rate, payment, (limit - 1) as nat) == 0);
    assert(balance_after(settled, rate, payment, 0) == settled);
    lemma_unpaid_at_limit(lower, rate, payment, limit);
    if lower > 0 {
        assert(0 <= (-settled) * 1_000_000_000 / payment < 1_000_000_000) by (nonlinear_arith)
            requires
                0 <= -settled < payment,
        ;
    } else {
        assert(0int * 1_000_000_000 / payment == 0) by (nonlinear_arith)
            requires
                0 < payment,
        ;
    }
}

/// No principal above what the payments add up to without interest is paid
/// off in the wanted number of periods: such a principal takes more.
pub proof fn lemma_sum_of_payments_bounds_principal(
    rate: int,
    payment: int,
    num_periods: int,
    principal: int,
)
    requires
        0 <= rate,
        0 < payment,
        0 <= num_periods,
        principal * SCALE > payment * num_periods,
    ensures
        number_of_payments(principal, rate, payment) matches Ok(periods) ==> periods
            > num_periods,
{
    assert(principal > 0) by (nonlinear_arith)
        requires
            principal * 1_000_000_000 > payment * num_periods,
            0 < payment,
            0 <= num_periods,
    ;
    lemma_payments_add_up_to_principal(principal, rate, payment);
    if number_of_payments(principal, rate, payment) is Ok {
        let periods: int = number_of_payments(principal, rate, payment)->Ok_0;
        assert(periods > num_periods) by (nonlinear_arith)
            requires
                periods * payment >= principal * 1_000_000_000,
                principal * 1_000_000_000 > payment * num_periods,
                0 < payment,
        ;
    }
}

} // verus!
