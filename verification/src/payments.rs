//! The number of payments that a loan takes.
//!
//! The count is made of the whole periods up to and including the one in
//! which the balance is gone, less the share of that last period that the
//! last payment did not need. That share keeps the count moving smoothly with
//! the principal, which a search over principals relies on.
use vstd::prelude::*;

use crate::error::LoanError;
use crate::schedule::{
    balance_after, interest_due, lemma_balance_after_monotonic,
    lemma_paid_off_within, lemma_payments_reach_the_balance, lemma_payoff_period_monotonic,
    lemma_payoff_period_settles, lemma_unpaid_at_limit, next_balance, payoff_period,
};
use crate::units::{MAX_PERIODS, SCALE};

verus! {

/// Whether the payment is strictly more than one period's exact interest on
/// the principal. No rounding is involved: both sides are scaled products.
pub open spec fn covers_interest(principal: int, rate: int, payment: int) -> bool {
    payment * SCALE > principal * rate
}

/// The share of the last period that the last payment did not need, rounded
/// down to a unit. `final_balance` is the balance after that payment, zero or
/// negative.
pub open spec fn unused_share(final_balance: int, payment: int) -> int {
    (-final_balance) * SCALE / payment
}

/// The count of periods, in units, of a loan that is paid off with the
/// `periods`-th payment and then stands at `final_balance`.
pub open spec fn fractional_periods(periods: nat, final_balance: int, payment: int) -> int {
    periods * SCALE - unused_share(final_balance, payment)
}

/// The number of payments that a loan takes, in units, or the reason why it
/// has none: the payment does not cover the first period's interest, or the
/// balance is still positive after [`MAX_PERIODS`] payments.
pub open spec fn number_of_payments(principal: int, rate: int, payment: int) -> Result<
    int,
    LoanError,
> {
    if !covers_interest(principal, rate, payment) {
        Err(LoanError::InvalidPayment)
    } else if balance_after(principal, rate, payment, MAX_PERIODS as nat) > 0 {
        Err(LoanError::DidNotConverge)
    } else {
        let periods = payoff_period(principal, rate, payment, MAX_PERIODS as nat);
        Ok(fractional_periods(periods, balance_after(principal, rate, payment, periods), payment))
    }
}

/// Whether `result`, in machine integers, is what [`number_of_payments`]
/// gives for the loan.
pub open spec fn is_count_of(
    result: Result<u64, LoanError>,
    principal: int,
    rate: int,
    payment: int,
) -> bool {
    match result {
        Ok(periods) => number_of_payments(principal, rate, payment) == Ok::<int, LoanError>(
            periods as int,
        ),
        Err(error) => number_of_payments(principal, rate, payment) == Err::<int, LoanError>(error),
    }
}

/// A loan has one count only: two results for the same loan are the same
/// result, whenever and wherever they were computed.
pub proof fn lemma_count_is_determined(
    first: Result<u64, LoanError>,
    second: Result<u64, LoanError>,
    principal: int,
    rate: int,
    payment: int,
)
    requires
        is_count_of(first, principal, rate, payment),
        is_count_of(second, principal, rate, payment),
    ensures
        first == second,
{
}

/// While the balance has not grown beyond a principal whose interest the
/// payment covers, one period's interest on it stays below the payment, and
/// the product that it is computed from stays below the scaled payment.
proof fn lemma_interest_below_payment(balance: int, principal: int, rate: int, payment: int)
    requires
        0 <= balance <= principal,
        0 <= rate,
        covers_interest(principal, rate, payment),
    ensures
        0 <= balance * rate < payment * SCALE,
        0 <= interest_due(balance, rate) < payment,
{
    assert(0 <= balance * rate <= principal * rate) by (nonlinear_arith)
        requires
            0 <= balance <= principal,
            0 <= rate,
    ;
    let product: int = balance * rate;
    assert(0 <= product / 1_000_000_000 < payment) by (nonlinear_arith)
        requires
            0 <= product < payment * 1_000_000_000,
    ;
}

/// A larger overshoot leaves a larger share of the last period unused, and an
/// overshoot of less than a payment leaves less than a period unused.
proof fn lemma_unused_share_bounds(lower: int, higher: int, payment: int)
    requires
        lower <= higher <= 0,
        0 < payment,
    ensures
        0 <= unused_share(higher, payment) <= unused_share(lower, payment),
        -payment < lower ==> unused_share(lower, payment) < SCALE,
{
    let less: int = (-higher) * 1_000_000_000;
    let more: int = (-lower) * 1_000_000_000;
    assert(0 <= less / payment <= more / payment) by (nonlinear_arith)
        requires
            0 <= less <= more,
            0 < payment,
    ;
    if -payment < lower {
        assert(more / payment < 1_000_000_000) by (nonlinear_arith)
            requires
                0 <= more < payment * 1_000_000_000,
                0 < payment,
        ;
    }
}

/// A loan is paid off, and so has a number of payments, whenever the payment
/// covers the first interest and [`MAX_PERIODS`] payments, each reduced by the
/// first period's interest, add up to the principal.
pub proof fn lemma_payments_that_suffice(principal: int, rate: int, payment: int)
    requires
        0 <= principal,
        0 <= rate,
        covers_interest(principal, rate, payment),
        principal <= MAX_PERIODS * (payment - interest_due(principal, rate)),
    ensures
        number_of_payments(principal, rate, payment) is Ok,
{
    lemma_interest_below_payment(principal, principal, rate, payment);
    lemma_paid_off_within(principal, principal, rate, payment, MAX_PERIODS as nat);
}

/// The count of a loan that is paid off lies within the last period that was
/// counted: the share taken off is at least nothing and less than a period.
pub proof fn lemma_last_period_counts_in_part(principal: int, rate: int, payment: int)
    requires
        0 <= principal,
        0 <= rate,
        0 <= payment,
    ensures
        number_of_payments(principal, rate, payment) matches Ok(periods) ==> {
            let whole = payoff_period(principal, rate, payment, MAX_PERIODS as nat);
            &&& periods <= whole * SCALE
            &&& whole > 0 ==> (whole - 1) * SCALE < periods
            &&& whole == 0 ==> periods == 0
        },
{
    if number_of_payments(principal, rate, payment) is Ok {
        let whole: nat = payoff_period(principal, rate, payment, MAX_PERIODS as nat);
        let settled: int = balance_after(principal, rate, payment, whole);
        assert(principal * rate >= 0) by (nonlinear_arith)
            requires
                0 <= principal,
                0 <= rate,
        ;
        lemma_unpaid_at_limit(principal, rate, payment, MAX_PERIODS as nat);
        lemma_payoff_period_settles(principal, rate, payment, MAX_PERIODS as nat);
        lemma_unused_share_bounds(settled, settled, payment);
        if whole == 0 {
            assert(0int * 1_000_000_000 / payment == 0) by (nonlinear_arith)
                requires
                    0 < payment,
            ;
        }
    }
}

/// The payments that a loan takes add up to at least its principal: interest
/// can only add to what has to be paid.
pub proof fn lemma_payments_add_up_to_principal(principal: int, rate: int, payment: int)
    requires
        0 <= principal,
        0 <= rate,
        0 <= payment,
    ensures
        number_of_payments(principal, rate, payment) matches Ok(periods) ==> periods * payment
            >= principal * SCALE,
{
    if number_of_payments(principal, rate, payment) is Ok {
        let limit: nat = MAX_PERIODS as nat;
        let whole: nat = payoff_period(principal, rate, payment, limit);
        let overshoot: int = -balance_after(principal, rate, payment, whole);
        let unused: int = overshoot * 1_000_000_000 / payment;
        assert(principal * rate >= 0) by (nonlinear_arith)
            requires
                0 <= principal,
                0 <= rate,
        ;
        lemma_unpaid_at_limit(principal, rate, payment, limit);
        lemma_payments_reach_the_balance(principal, rate, payment, limit);
        assert((whole * 1_000_000_000 - unused) * payment >= principal * 1_000_000_000)
            by (nonlinear_arith)
            requires
                unused == overshoot * 1_000_000_000 / payment,
                0 < payment,
                0 <= overshoot <= whole * payment - principal,
        ;
    }
}

/// On fixed terms the number of payments does not fall as the principal
/// rises: where the larger of two principals is paid off, so is the smaller,
/// in no more payments.
pub proof fn lemma_number_of_payments_monotonic(
    smaller: int,
    larger: int,
    rate: int,
    payment: int,
)
    requires
        0 <= smaller <= larger,
        0 <= rate,
        0 <= payment,
    ensures
        number_of_payments(larger, rate, payment) matches Ok(more) ==> (number_of_payments(
            smaller,
            rate,
            payment,
        ) matches Ok(fewer) && fewer <= more),
{
    if number_of_payments(larger, rate, payment) is Ok {
        let limit: nat = MAX_PERIODS as nat;
        assert(0 <= smaller * rate <= larger * rate) by (nonlinear_arith)
            requires
                0 <= smaller <= larger,
                0 <= rate,
        ;
        lemma_balance_after_monotonic(smaller, larger, rate, payment, limit);
        let early: nat = payoff_period(smaller, rate, payment, limit);
        let late: nat = payoff_period(larger, rate, payment, limit);
        let early_balance: int = balance_after(smaller, rate, payment, early);
        let late_balance: int = balance_after(larger, rate, payment, late);
        lemma_payoff_period_monotonic(smaller, larger, rate, payment, limit);
        lemma_unpaid_at_limit(smaller, rate, payment, limit);
        lemma_unpaid_at_limit(larger, rate, payment, limit);
        if early == late {
            lemma_balance_after_monotonic(smaller, larger, rate, payment, early);
            lemma_unused_share_bounds(early_balance, late_balance, payment);
        } else {
            lemma_payoff_period_settles(larger, rate, payment, limit);
            lemma_unused_share_bounds(early_balance, early_balance, payment);
            lemma_unused_share_bounds(late_balance, late_balance, payment);
            assert(early * SCALE <= (late - 1) * SCALE) by (nonlinear_arith)
                requires
                    early <= late - 1,
            ;
        }
    }
}

/// Tells whether `payment` is more than one period's interest on `principal`,
/// without forming a product that could leave 128 bits.
fn payment_covers_interest(principal: u128, interest_rate: u64, payment: u64) -> (covered: bool)
    ensures
        covered == covers_interest(principal as int, interest_rate as int, payment as int),
{
    if payment == 0 {
        assert(principal * interest_rate >= 0) by (nonlinear_arith);
        false
    } else if interest_rate == 0 {
        assert(principal * interest_rate == 0) by (nonlinear_arith)
            requires
                interest_rate == 0,
        ;
        true
    } else {
        let rate: u128 = interest_rate as u128;
        let scale: u128 = SCALE as u128;
        let budget: u128 = payment as u128 * scale - 1;
        let largest: u128 = budget / rate;
        proof {
            let p: int = principal as int;
            let r: int = rate as int;
            let b: int = budget as int;
            let q: int = largest as int;
            assert(q * r <= b < (q + 1) * r) by (nonlinear_arith)
                requires
                    q == b / r,
                    r > 0,
                    b >= 0,
            ;
            if p <= q {
                assert(p * r <= q * r) by (nonlinear_arith)
                    requires
                        0 <= p <= q,
                        r > 0,
                ;
            } else {
                assert(p * r >= (q + 1) * r) by (nonlinear_arith)
                    requires
                        p >= q + 1,
                        r > 0,
                ;
            }
        }
        principal <= largest
    }
}

/// Computes the number of payments that pay off `principal` at `interest_rate`
/// per period with `payment` per period, all in units of a billionth.
///
/// The result counts whole periods up to and including the one in which the
/// balance is gone, less the share of that period that the last payment did
/// not need. It fails with [`LoanError::InvalidPayment`] exactly when the
/// payment does not exceed the first period's interest, and with
/// [`LoanError::DidNotConverge`] exactly when the payment does but the balance
/// is still positive after [`MAX_PERIODS`] payments.
pub fn calc_number_of_payments(principal: u128, interest_rate: u64, payment: u64) -> (result:
    Result<u64, LoanError>)
    ensures
        is_count_of(result, principal as int, interest_rate as int, payment as int),
        result == Err::<u64, LoanError>(LoanError::InvalidPayment) <==> payment * SCALE
            <= principal * interest_rate,
        result == Err::<u64, LoanError>(LoanError::DidNotConverge) <==> payment * SCALE
            > principal * interest_rate && balance_after(
            principal as int,
            interest_rate as int,
            payment as int,
            MAX_PERIODS as nat,
        ) > 0,
        result != Err::<u64, LoanError>(LoanError::NoSolution),
{
    if !payment_covers_interest(principal, interest_rate, payment) {
        return Err(LoanError::InvalidPayment);
    }
    let ghost limit: nat = MAX_PERIODS as nat;
    proof {
        lemma_unpaid_at_limit(principal as int, interest_rate as int, payment as int, limit);
    }
    if principal == 0 {
        return Ok(0);
    }
    let rate: u128 = interest_rate as u128;
    let pay: u128 = payment as u128;
    let scale: u128 = SCALE as u128;
    let mut balance: u128 = principal;
    let mut elapsed: u64 = 0;
    while elapsed < MAX_PERIODS
        invariant
            rate == interest_rate,
            pay == payment,
            scale == SCALE,
            limit == MAX_PERIODS,
            0 < balance <= principal,
            elapsed <= MAX_PERIODS,
            covers_interest(principal as int, rate as int, pay as int),
            payoff_period(principal as int, rate as int, pay as int, limit) == elapsed
                + payoff_period(balance as int, rate as int, pay as int, (limit - elapsed) as nat),
            balance_after(
                principal as int,
                rate as int,
                pay as int,
                payoff_period(principal as int, rate as int, pay as int, limit),
            ) == balance_after(
                balance as int,
                rate as int,
                pay as int,
                payoff_period(balance as int, rate as int, pay as int, (limit - elapsed) as nat),
            ),
        decreases MAX_PERIODS - elapsed,
    {
        proof {
            lemma_interest_below_payment(
                balance as int,
                principal as int,
                rate as int,
                pay as int,
            );
        }
        let interest: u128 = balance * rate / scale;
        let reduction: u128 = pay - interest;
        elapsed = elapsed + 1;
        if balance <= reduction {
            let overshoot: u128 = reduction - balance;
            proof {
                let settled: int = next_balance(balance as int, rate as int, pay as int);
                let rest: nat = (limit - elapsed) as nat;
                assert(payoff_period(settled, rate as int, pay as int, rest) == 0);
                assert(balance_after(settled, rate as int, pay as int, 0) == settled);
                lemma_unused_share_bounds(settled, settled, pay as int);
                lemma_unpaid_at_limit(principal as int, rate as int, pay as int, limit);
            }
            let unused: u128 = overshoot * scale / pay;
            return Ok(elapsed * SCALE - (unused as u64));
        }
        balance = balance - reduction;
    }
    Err(LoanError::DidNotConverge)
}

} // verus!
