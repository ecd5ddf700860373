//! The amortization schedule of a loan: how its balance moves from period to
//! period, and in which period it is gone.
//!
//! In each period the interest on the balance, rounded down to a unit, is
//! added and the payment is taken off. Everything here is a mathematical
//! statement over unbounded integers; the laws are what the executable
//! functions of this crate rest on.
use vstd::prelude::*;

use crate::units::SCALE;

verus! {

/// Interest charged on `balance` for one period, rounded down to a unit.
pub open spec fn interest_due(balance: int, rate: int) -> int {
    balance * rate / (SCALE as int)
}

/// The balance one period later: interest is added, the payment taken off.
pub open spec fn next_balance(balance: int, rate: int, payment: int) -> int {
    balance + interest_due(balance, rate) - payment
}

/// The balance of a loan `periods` periods after it stood at `balance`. It
/// goes on below zero when the payments do.
pub open spec fn balance_after(balance: int, rate: int, payment: int, periods: nat) -> int
    decreases periods,
{
    if periods == 0 {
        balance
    } else {
        balance_after(next_balance(balance, rate, payment), rate, payment, (periods - 1) as nat)
    }
}

/// The number of periods until a loan that stands at `balance` is no longer
/// positive, or `limit` if it still is after `limit` periods.
pub open spec fn payoff_period(balance: int, rate: int, payment: int, limit: nat) -> nat
    decreases limit,
{
    if balance <= 0 || limit == 0 {
        0
    } else {
        1 + payoff_period(next_balance(balance, rate, payment), rate, payment, (limit - 1) as nat)
    }
}

/// A larger balance is charged at least as much interest.
pub proof fn lemma_interest_monotonic(smaller: int, larger: int, rate: int)
    requires
        smaller <= larger,
        0 <= rate,
    ensures
        interest_due(smaller, rate) <= interest_due(larger, rate),
{
    let low: int = smaller * rate;
    let high: int = larger * rate;
    assert(low <= high) by (nonlinear_arith)
        requires
            smaller <= larger,
            0 <= rate,
            low == smaller * rate,
            high == larger * rate,
    ;
}

/// Interest has the sign of the balance that it is charged on.
pub proof fn lemma_interest_sign(balance: int, rate: int)
    requires
        0 <= rate,
    ensures
        balance >= 0 ==> interest_due(balance, rate) >= 0,
        balance <= 0 ==> interest_due(balance, rate) <= 0,
{
    assert(0 * rate == 0) by (nonlinear_arith);
    if balance >= 0 {
        lemma_interest_monotonic(0, balance, rate);
    }
    if balance <= 0 {
        lemma_interest_monotonic(balance, 0, rate);
    }
}

/// Of two loans on the same terms, the one with the larger balance has at
/// least as large a balance after any number of periods.
pub proof fn lemma_balance_after_monotonic(
    smaller: int,
    larger: int,
    rate: int,
    payment: int,
    periods: nat,
)
    requires
        smaller <= larger,
        0 <= rate,
    ensures
        balance_after(smaller, rate, payment, periods) <= balance_after(
            larger,
            rate,
            payment,
            periods,
        ),
    decreases periods,
{
    if periods > 0 {
        lemma_interest_monotonic(smaller, larger, rate);
        lemma_balance_after_monotonic(
            next_balance(smaller, rate, payment),
            next_balance(larger, rate, payment),
            rate,
            payment,
            (periods - 1) as nat,
        );
    }
}

/// Of two loans on the same terms, the one with the larger balance is paid off
/// no earlier.
pub proof fn lemma_payoff_period_monotonic(
    smaller: int,
    larger: int,
    rate: int,
    payment: int,
    limit: nat,
)
    requires
        smaller <= larger,
        0 <= rate,
    ensures
        payoff_period(smaller, rate, payment, limit) <= payoff_period(
            larger,
            rate,
            payment,
            limit,
        ),
    decreases limit,
{
    if smaller > 0 && limit > 0 {
        lemma_interest_monotonic(smaller, larger, rate);
        lemma_payoff_period_monotonic(
            next_balance(smaller, rate, payment),
            next_balance(larger, rate, payment),
            rate,
            payment,
            (limit - 1) as nat,
        );
    }
}

/// Following a loan for `first` periods and then for `second` more is
/// following it for their sum.
pub proof fn lemma_balance_after_sum(
    balance: int,
    rate: int,
    payment: int,
    first: nat,
    second: nat,
)
    ensures
        balance_after(balance, rate, payment, first + second) == balance_after(
            balance_after(balance, rate, payment, first),
            rate,
            payment,
            second,
        ),
    decreases first,
{
    if first > 0 {
        lemma_balance_after_sum(
            next_balance(balance, rate, payment),
            rate,
            payment,
            (first - 1) as nat,
            second,
        );
    }
}

/// A balance that is no longer positive never rises again.
pub proof fn lemma_settled_stays_settled(balance: int, rate: int, payment: int, periods: nat)
    requires
        balance <= 0,
        0 <= rate,
        0 <= payment,
    ensures
        balance_after(balance, rate, payment, periods) <= balance,
    decreases periods,
{
    if periods > 0 {
        lemma_interest_sign(balance, rate);
        lemma_settled_stays_settled(
            next_balance(balance, rate, payment),
            rate,
            payment,
            (periods - 1) as nat,
        );
    }
}

/// While the balance is positive and no more than `principal`, each payment
/// takes at least the payment less the interest on `principal` off it. So a
/// loan is paid off once that many payments, each reduced by that much
/// interest, add up to the balance.
pub proof fn lemma_paid_off_within(
    balance: int,
    principal: int,
    rate: int,
    payment: int,
    periods: nat,
)
    requires
        balance <= principal,
        0 <= rate,
        0 <= payment,
        interest_due(principal, rate) < payment,
        balance <= periods * (payment - interest_due(principal, rate)),
    ensures
        balance_after(balance, rate, payment, periods) <= 0,
    decreases periods,
{
    let reduction: int = payment - interest_due(principal, rate);
    if balance <= 0 {
        lemma_settled_stays_settled(balance, rate, payment, periods);
    } else {
        assert(periods > 0) by (nonlinear_arith)
            requires
                0 < balance <= periods * reduction,
        ;
        lemma_interest_monotonic(balance, principal, rate);
        assert((periods - 1) * reduction == periods * reduction - reduction) by (nonlinear_arith);
        lemma_paid_off_within(
            next_balance(balance, rate, payment),
            principal,
            rate,
            payment,
            (periods - 1) as nat,
        );
    }
}

/// The payoff period is within the limit; unless it is the limit itself, the
/// balance is gone by then; and the payment that settles a loan overshoots by
/// less than itself.
pub proof fn lemma_payoff_period_settles(balance: int, rate: int, payment: int, limit: nat)
    requires
        0 <= rate,
    ensures
        payoff_period(balance, rate, payment, limit) <= limit,
        payoff_period(balance, rate, payment, limit) < limit ==> balance_after(
            balance,
            rate,
            payment,
            payoff_period(balance, rate, payment, limit),
        ) <= 0,
        payoff_period(balance, rate, payment, limit) > 0 ==> balance_after(
            balance,
            rate,
            payment,
            payoff_period(balance, rate, payment, limit),
        ) > -payment,
    decreases limit,
{
    if balance > 0 && limit > 0 {
        let next: int = next_balance(balance, rate, payment);
        lemma_interest_sign(balance, rate);
        lemma_payoff_period_settles(next, rate, payment, (limit - 1) as nat);
        assert(balance_after(next, rate, payment, 0) == next);
    }
}

/// No payment takes more than itself off a positive balance, so at its payoff
/// period a loan stands no lower than its balance less that many payments.
pub proof fn lemma_payments_reach_the_balance(balance: int, rate: int, payment: int, limit: nat)
    requires
        0 <= rate,
    ensures
        balance_after(balance, rate, payment, payoff_period(balance, rate, payment, limit))
            >= balance - payoff_period(balance, rate, payment, limit) * payment,
    decreases limit,
{
    if balance > 0 && limit > 0 {
        let next: int = next_balance(balance, rate, payment);
        let rest: nat = payoff_period(next, rate, payment, (limit - 1) as nat);
        lemma_interest_sign(balance, rate);
        lemma_payments_reach_the_balance(next, rate, payment, (limit - 1) as nat);
        assert((1 + rest) * payment == payment + rest * payment) by (nonlinear_arith);
    } else {
        assert(0 * payment == 0) by (nonlinear_arith);
    }
}

/// Before its payoff period a loan has a positive balance: the payoff period
/// is the first in which it has none.
pub proof fn lemma_payoff_period_is_first(
    balance: int,
    rate: int,
    payment: int,
    limit: nat,
    earlier: nat,
)
    requires
        earlier < payoff_period(balance, rate, payment, limit),
    ensures
        balance_after(balance, rate, payment, earlier) > 0,
    decreases limit,
{
    if earlier > 0 {
        lemma_payoff_period_is_first(
            next_balance(balance, rate, payment),
            rate,
            payment,
            (limit - 1) as nat,
            (earlier - 1) as nat,
        );
    }
}

/// A loan is unpaid at its payoff period exactly when it is unpaid at the
/// limit that the payoff period was sought within.
pub proof fn lemma_unpaid_at_limit(balance: int, rate: int, payment: int, limit: nat)
    requires
        0 <= rate,
        0 <= payment,
    ensures
        balance_after(balance, rate, payment, payoff_period(balance, rate, payment, limit)) > 0
            <==> balance_after(balance, rate, payment, limit) > 0,
{
    let period: nat = payoff_period(balance, rate, payment, limit);
    let settled: int = balance_after(balance, rate, payment, period);
    lemma_payoff_period_settles(balance, rate, payment, limit);
    if period < limit {
        lemma_balance_after_sum(balance, rate, payment, period, (limit - period) as nat);
        lemma_settled_stays_settled(settled, rate, payment, (limit - period) as nat);
    }
}

} // verus!
