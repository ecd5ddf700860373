//! How little the number of payments moves from one principal to the next.
//!
//! Two loans on the same terms whose principals differ by a unit drift apart
//! as interest is charged on the difference, but no faster than the part of
//! the payment that goes to the principal grows. Below four fifths of the
//! principal whose interest alone equals the payment, that part can grow
//! fivefold at most before the loan is paid off, and so the two loans stay
//! close until then.
use vstd::prelude::*;

use crate::bisection::is_answer;
use crate::payments::{lemma_number_of_payments_monotonic, number_of_payments, unused_share};
use crate::schedule::{
    balance_after, interest_due, lemma_balance_after_monotonic, lemma_balance_after_sum,
    lemma_payoff_period_is_first, lemma_payoff_period_monotonic, lemma_payoff_period_settles,
    lemma_settled_stays_settled, lemma_unpaid_at_limit, next_balance, payoff_period,
};
use crate::units::{MAX_PERIODS, SCALE, TOLERANCE};

verus! {

/// The part of a payment that goes to the principal before the interest is
/// rounded, times [`SCALE`]: the scaled payment less the balance times the
/// rate.
pub open spec fn repayment(balance: int, rate: int, payment: int) -> int {
    payment * SCALE - rate * balance
}

/// The distance between two balances as interest sees it: the rate times the
/// distance, and [`SCALE`] more for what rounding can add in a period.
pub open spec fn spread(smaller: int, larger: int, rate: int) -> int {
    rate * (larger - smaller) + SCALE
}

/// From one period to the next the repayment grows at least as the balance
/// would at the same rate.
pub proof fn lemma_repayment_grows(balance: int, rate: int, payment: int)
    requires
        0 <= rate,
    ensures
        SCALE * repayment(next_balance(balance, rate, payment), rate, payment) >= (SCALE + rate)
            * repayment(balance, rate, payment),
{
    let interest: int = interest_due(balance, rate);
    let product: int = balance * rate;
    assert(interest * 1_000_000_000 <= product) by (nonlinear_arith)
        requires
            interest == product / 1_000_000_000,
    ;
    let next: int = balance + interest - payment;
    assert(1_000_000_000 * (payment * 1_000_000_000 - rate * next) >= (1_000_000_000 + rate) * (
    payment * 1_000_000_000 - rate * balance)) by (nonlinear_arith)
        requires
            next == balance + interest - payment,
            interest * 1_000_000_000 <= balance * rate,
            0 <= rate,
    ;
}

/// From one period to the next the spread of two balances grows at most as a
/// balance would at the same rate.
pub proof fn lemma_spread_grows(smaller: int, larger: int, rate: int, payment: int)
    requires
        smaller <= larger,
        0 <= rate,
    ensures
        SCALE * spread(
            next_balance(smaller, rate, payment),
            next_balance(larger, rate, payment),
            rate,
        ) <= (SCALE + rate) * spread(smaller, larger, rate),
{
    let low: int = interest_due(smaller, rate);
    let high: int = interest_due(larger, rate);
    let low_product: int = smaller * rate;
    let high_product: int = larger * rate;
    assert(high * 1_000_000_000 <= high_product) by (nonlinear_arith)
        requires
            high == high_product / 1_000_000_000,
    ;
    assert(low * 1_000_000_000 > low_product - 1_000_000_000) by (nonlinear_arith)
        requires
            low == low_product / 1_000_000_000,
    ;
    let distance: int = larger - smaller;
    let next_distance: int = distance + high - low;
    assert(high_product - low_product == rate * distance) by (nonlinear_arith)
        requires
            high_product == larger * rate,
            low_product == smaller * rate,
            distance == larger - smaller,
    ;
    assert(1_000_000_000 * (rate * next_distance + 1_000_000_000) <= (1_000_000_000 + rate) * (
    rate * distance + 1_000_000_000)) by (nonlinear_arith)
        requires
            next_distance == distance + high - low,
            (high - low) * 1_000_000_000 < rate * distance + 1_000_000_000,
            0 <= rate,
            0 <= distance,
    ;
}

/// One more period is one more step from where the loan then stands.
pub proof fn lemma_balance_after_one_more(balance: int, rate: int, payment: int, periods: nat)
    ensures
        balance_after(balance, rate, payment, periods + 1) == next_balance(
            balance_after(balance, rate, payment, periods),
            rate,
            payment,
        ),
{
    let reached: int = balance_after(balance, rate, payment, periods);
    lemma_balance_after_sum(balance, rate, payment, periods, 1);
    assert(balance_after(next_balance(reached, rate, payment), rate, payment, 0) == next_balance(
        reached,
        rate,
        payment,
    ));
}

/// Two loans on the same terms drift apart no faster than the repayment of
/// the smaller grows: the spread after any number of periods is to the
/// spread at the start at most as the repayment then is to the repayment at
/// the start.
pub proof fn lemma_spread_follows_repayment(
    smaller: int,
    larger: int,
    rate: int,
    payment: int,
    periods: nat,
)
    requires
        smaller <= larger,
        0 <= rate,
        0 <= repayment(smaller, rate, payment),
    ensures
        spread(
            balance_after(smaller, rate, payment, periods),
            balance_after(larger, rate, payment, periods),
            rate,
        ) * repayment(smaller, rate, payment) <= spread(smaller, larger, rate) * repayment(
            balance_after(smaller, rate, payment, periods),
            rate,
            payment,
        ),
    decreases periods,
{
    if periods > 0 {
        let before: nat = (periods - 1) as nat;
        let low: int = balance_after(smaller, rate, payment, before);
        let high: int = balance_after(larger, rate, payment, before);
        lemma_spread_follows_repayment(smaller, larger, rate, payment, before);
        lemma_balance_after_monotonic(smaller, larger, rate, payment, before);
        lemma_balance_after_one_more(smaller, rate, payment, before);
        lemma_balance_after_one_more(larger, rate, payment, before);
        lemma_spread_grows(low, high, rate, payment);
        lemma_repayment_grows(low, rate, payment);
        let spread_before: int = spread(low, high, rate);
        let spread_now: int = spread(
            next_balance(low, rate, payment),
            next_balance(high, rate, payment),
            rate,
        );
        let repayment_before: int = repayment(low, rate, payment);
        let repayment_now: int = repayment(next_balance(low, rate, payment), rate, payment);
        let first_spread: int = spread(smaller, larger, rate);
        let first_repayment: int = repayment(smaller, rate, payment);
        let grown: int = 1_000_000_000 + rate;
        assert(first_spread >= 0) by (nonlinear_arith)
            requires
                first_spread == rate * (larger - smaller) + 1_000_000_000,
                smaller <= larger,
                0 <= rate,
        ;
        assert(1_000_000_000 * (spread_now * first_repayment) <= 1_000_000_000 * (first_spread
            * repayment_now)) by (nonlinear_arith)
            requires
                1_000_000_000 * spread_now <= grown * spread_before,
                spread_before * first_repayment <= first_spread * repayment_before,
                1_000_000_000 * repayment_now >= grown * repayment_before,
                0 <= first_repayment,
                0 <= first_spread,
                0 < grown,
        ;
    }
}

/// Below four fifths of the principal whose interest equals the payment, a
/// loan and the loan of one unit more are still close when the smaller is
/// paid off: the repayment has grown less than fivefold by then, and the
/// spread no more than the repayment.
pub proof fn lemma_neighbours_stay_close(principal: int, rate: int, payment: int, limit: nat)
    requires
        0 <= principal,
        0 < rate,
        0 < payment,
        5 * rate * principal <= 4 * payment * SCALE,
    ensures
        ({
            let period = payoff_period(principal, rate, payment, limit);
            let distance = balance_after(principal + 1, rate, payment, period) - balance_after(
                principal,
                rate,
                payment,
                period,
            );
            0 <= distance && rate * SCALE * distance < 5 * (SCALE + rate) * (SCALE + rate) - SCALE
                * SCALE
        }),
{
    let period: nat = payoff_period(principal, rate, payment, limit);
    let low: int = balance_after(principal, rate, payment, period);
    let high: int = balance_after(principal + 1, rate, payment, period);
    let distance: int = high - low;
    lemma_payoff_period_settles(principal, rate, payment, limit);
    lemma_balance_after_monotonic(principal, principal + 1, rate, payment, period);
    assert(0 <= repayment(principal, rate, payment) && 5 * repayment(principal, rate, payment)
        >= payment * 1_000_000_000) by (nonlinear_arith)
        requires
            repayment(principal, rate, payment) == payment * 1_000_000_000 - rate * principal,
            5 * rate * principal <= 4 * payment * 1_000_000_000,
            0 < payment,
    ;
    lemma_spread_follows_repayment(principal, principal + 1, rate, payment, period);
    let first_repayment: int = repayment(principal, rate, payment);
    let last_repayment: int = repayment(low, rate, payment);
    let last_spread: int = spread(low, high, rate);
    let grown: int = 1_000_000_000 + rate;
    assert(spread(principal, principal + 1, rate) == grown) by (nonlinear_arith)
        requires
            spread(principal, principal + 1, rate) == rate * (principal + 1 - principal)
                + 1_000_000_000,
            grown == 1_000_000_000 + rate,
    ;
    assert(last_repayment < payment * grown) by (nonlinear_arith)
        requires
            last_repayment == payment * 1_000_000_000 - rate * low,
            low > -payment,
            0 < rate,
            grown == 1_000_000_000 + rate,
    ;
    assert(last_spread >= 1_000_000_000) by (nonlinear_arith)
        requires
            last_spread == rate * (high - low) + 1_000_000_000,
            low <= high,
            0 < rate,
    ;
    assert(last_spread * 1_000_000_000 < 5 * grown * grown) by (nonlinear_arith)
        requires
            last_spread * first_repayment <= grown * last_repayment,
            last_repayment < payment * grown,
            5 * first_repayment >= payment * 1_000_000_000,
            0 < last_spread,
            0 < grown,
            0 < payment,
    ;
    assert(rate * 1_000_000_000 * distance == last_spread * 1_000_000_000 - 1_000_000_000
        * 1_000_000_000) by (nonlinear_arith)
        requires
            last_spread == rate * distance + 1_000_000_000,
    ;
}

/// The most by which the number of payments can rise from one principal to
/// the next, below four fifths of the principal whose interest equals the
/// payment. It falls as the payment rises.
pub open spec fn largest_step(rate: int, payment: int) -> int {
    (5 * (SCALE + rate) * (SCALE + rate) - SCALE * SCALE) * (SCALE + rate) / (rate * SCALE
        * payment) + 1
}

/// The number of payments moves little from one principal to the next: where
/// the payment is large enough for a step to stay within a period, a
/// principal below four fifths of the one whose interest equals the payment
/// takes at most [`largest_step`] fewer payments than the principal of one
/// unit more.
pub proof fn lemma_count_moves_little(principal: int, rate: int, payment: int)
    requires
        0 <= principal,
        0 < rate,
        0 < payment,
        5 * rate * principal <= 4 * payment * SCALE,
        largest_step(rate, payment) <= SCALE,
        number_of_payments(principal + 1, rate, payment) is Ok,
    ensures
        number_of_payments(principal, rate, payment) is Ok,
        0 <= number_of_payments(principal + 1, rate, payment)->Ok_0 - number_of_payments(
            principal,
            rate,
            payment,
        )->Ok_0 <= largest_step(rate, payment),
{
    let limit: nat = MAX_PERIODS as nat;
    let grown: int = 1_000_000_000 + rate;
    let widest: int = (5 * grown * grown - 1_000_000_000 * 1_000_000_000) * grown;
    let unit: int = rate * 1_000_000_000 * payment;
    lemma_number_of_payments_monotonic(principal, principal + 1, rate, payment);
    let fewer: int = number_of_payments(principal, rate, payment)->Ok_0;
    let more: int = number_of_payments(principal + 1, rate, payment)->Ok_0;
    let period: nat = payoff_period(principal, rate, payment, limit);
    let later: nat = payoff_period(principal + 1, rate, payment, limit);
    let low: int = balance_after(principal, rate, payment, period);
    let high: int = balance_after(principal + 1, rate, payment, period);
    let distance: int = high - low;
    lemma_unpaid_at_limit(principal, rate, payment, limit);
    lemma_unpaid_at_limit(principal + 1, rate, payment, limit);
    lemma_payoff_period_monotonic(principal, principal + 1, rate, payment, limit);
    lemma_payoff_period_settles(principal, rate, payment, limit);
    lemma_payoff_period_settles(principal + 1, rate, payment, limit);
    lemma_neighbours_stay_close(principal, rate, payment, limit);
    // A step within a period means that the distance, grown by one period's
    // interest, is less than a payment.
    assert(0 < unit) by (nonlinear_arith)
        requires
            unit == rate * 1_000_000_000 * payment,
            0 < rate,
            0 < payment,
    ;
    assert(widest < 1_000_000_000 * unit) by (nonlinear_arith)
        requires
            widest / unit + 1 <= 1_000_000_000,
            0 < unit,
    ;
    assert(distance * grown < 1_000_000_000 * payment && rate * 1_000_000_000 * (distance * grown)
        < widest) by (nonlinear_arith)
        requires
            rate * 1_000_000_000 * distance < 5 * grown * grown - 1_000_000_000 * 1_000_000_000,
            widest == (5 * grown * grown - 1_000_000_000 * 1_000_000_000) * grown,
            widest < 1_000_000_000 * unit,
            unit == rate * 1_000_000_000 * payment,
            0 < rate,
            0 < payment,
            0 < grown,
            0 <= distance,
    ;
    let unused: int = unused_share(low, payment);
    assert(unused * payment <= (-low) * 1_000_000_000) by (nonlinear_arith)
        requires
            unused == (-low) * 1_000_000_000 / payment,
            0 < payment,
    ;
    if high <= 0 {
        // Both loans are paid off in the same period: the counts differ by
        // the unused shares of that period only.
        if later > period {
            lemma_payoff_period_is_first(principal + 1, rate, payment, limit, period);
        }
        let other: int = unused_share(high, payment);
        assert(other * payment > (-high) * 1_000_000_000 - payment) by (nonlinear_arith)
            requires
                other == (-high) * 1_000_000_000 / payment,
                0 < payment,
        ;
        assert((more - fewer - 1) * payment < distance * grown) by (nonlinear_arith)
            requires
                more - fewer == unused - other,
                unused * payment <= (-low) * 1_000_000_000,
                other * payment > (-high) * 1_000_000_000 - payment,
                distance == high - low,
                grown == 1_000_000_000 + rate,
                0 <= distance,
                0 < rate,
        ;
    } else {
        // The larger loan is still open when the smaller is paid off. What is
        // left of it is no more than the distance, which one more payment
        // covers: it is paid off in the next period.
        if later <= period {
            lemma_balance_after_sum(
                principal + 1,
                rate,
                payment,
                later,
                (period - later) as nat,
            );
            lemma_settled_stays_settled(
                balance_after(principal + 1, rate, payment, later),
                rate,
                payment,
                (period - later) as nat,
            );
        }
        let interest: int = interest_due(high, rate);
        let product: int = high * rate;
        let settled: int = next_balance(high, rate, payment);
        lemma_balance_after_one_more(principal + 1, rate, payment, period);
        assert(interest * 1_000_000_000 <= product) by (nonlinear_arith)
            requires
                interest == product / 1_000_000_000,
        ;
        assert(product <= distance * rate) by (nonlinear_arith)
            requires
                product == high * rate,
                high <= distance,
                0 < rate,
        ;
        assert(settled < 0 && (settled + payment - low) * 1_000_000_000 <= distance * grown)
            by (nonlinear_arith)
            requires
                settled == high + interest - payment,
                interest * 1_000_000_000 <= distance * rate,
                distance == high - low,
                low <= 0,
                grown == 1_000_000_000 + rate,
                distance * grown < 1_000_000_000 * payment,
        ;
        if later > period + 1 {
            lemma_payoff_period_is_first(
                principal + 1,
                rate,
                payment,
                limit,
                (period + 1) as nat,
            );
        }
        let other: int = unused_share(settled, payment);
        assert(other * payment > (-settled) * 1_000_000_000 - payment) by (nonlinear_arith)
            requires
                other == (-settled) * 1_000_000_000 / payment,
                0 < payment,
        ;
        assert((more - fewer - 1) * payment < distance * grown) by (nonlinear_arith)
            requires
                more - fewer == 1_000_000_000 + unused - other,
                unused * payment <= (-low) * 1_000_000_000,
                other * payment > (-settled) * 1_000_000_000 - payment,
                (settled + payment - low) * 1_000_000_000 <= distance * grown,
        ;
    }
    assert(more - fewer - 1 <= widest / unit) by (nonlinear_arith)
        requires
            (more - fewer - 1) * payment < distance * grown,
            rate * 1_000_000_000 * (distance * grown) < widest,
            unit == rate * 1_000_000_000 * payment,
            0 < rate,
            0 < payment,
            0 < unit,
    ;
}

/// Where the number of payments rises by no more than twice the tolerance
/// from one principal to the next, it cannot step over a wanted number: if
/// the count at `lo` is not too large and the count just below `hi` is not too
/// small, some principal from `lo` up to, but not including, `hi` takes the
/// wanted number of payments, to within the tolerance.
pub proof fn lemma_answer_lies_between(
    lo: int,
    hi: int,
    rate: int,
    payment: int,
    num_periods: int,
)
    requires
        0 <= lo < hi,
        0 < rate,
        0 < payment,
        5 * rate * (hi - 1) <= 4 * payment * SCALE,
        largest_step(rate, payment) <= 2 * TOLERANCE,
        number_of_payments(lo, rate, payment) matches Ok(first) && first <= num_periods
            + TOLERANCE,
        number_of_payments(hi - 1, rate, payment) matches Ok(last) && last >= num_periods
            - TOLERANCE,
    ensures
        exists|answer: int|
            lo <= answer < hi && #[trigger] is_answer(answer, rate, payment, num_periods),
    decreases hi - lo,
{
    let first: int = number_of_payments(lo, rate, payment)->Ok_0;
    if first >= num_periods - TOLERANCE {
        assert(is_answer(lo, rate, payment, num_periods));
    } else {
        // The count at `lo` is too small by more than the tolerance, so the
        // next principal, a step of at most twice the tolerance further, is
        // not too large.
        lemma_number_of_payments_monotonic(lo + 1, hi - 1, rate, payment);
        assert(5 * rate * lo <= 4 * payment * 1_000_000_000) by (nonlinear_arith)
            requires
                5 * rate * (hi - 1) <= 4 * payment * 1_000_000_000,
                lo <= hi - 1,
                0 < rate,
        ;
        lemma_count_moves_little(lo, rate, payment);
        lemma_answer_lies_between(lo + 1, hi, rate, payment, num_periods);
        let answer: int = choose|answer: int|
            lo + 1 <= answer < hi && #[trigger] is_answer(answer, rate, payment, num_periods);
        assert(lo <= answer < hi && is_answer(answer, rate, payment, num_periods));
    }
}

} // verus!
