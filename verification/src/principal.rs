//! The principal that a given payment retires in a given number of periods.
//!
//! The principal is sought by bisection between the two ends of the starting
//! bracket: the middle is simulated and the half that cannot hold the answer
//! is dropped, until the simulated number of payments is within
//! [`TOLERANCE`] of the wanted one.
use vstd::arithmetic::power2::{lemma2_to64, lemma_pow2_adds, lemma_pow2_strictly_increases, pow2};
use vstd::prelude::*;

use crate::bisection::{
    bisect, is_answer, lemma_bisect_answer, lemma_bisect_finds_answer,
    lemma_bisect_without_solution,
};
use crate::bracket::{
    between, larger_end, lemma_bracket_covers_interest, lemma_lower_bound_takes_one_payment,
    lower_bound, search_bracket, upper_bound,
};
use crate::continuity::{largest_step, lemma_answer_lies_between};
use crate::error::LoanError;
use crate::payments::{
    calc_number_of_payments, lemma_number_of_payments_monotonic,
    lemma_payments_add_up_to_principal, lemma_payments_that_suffice, number_of_payments,
};
use crate::schedule::interest_due;
use crate::units::{MAX_BISECTIONS, MAX_PERIODS, SCALE, TOLERANCE};

verus! {

/// The principal that `payment` per period retires in `num_periods` periods
/// at `rate` per period, as the search finds it, or the reason why it finds
/// none.
pub open spec fn solved_principal(rate: int, payment: int, num_periods: int) -> Result<
    int,
    LoanError,
> {
    bisect(
        lower_bound(rate, payment),
        upper_bound(rate, payment, num_periods),
        rate,
        payment,
        num_periods,
        MAX_BISECTIONS as nat,
    )
}

/// Whether `result`, in machine integers, is what [`solved_principal`] gives
/// for the terms.
pub open spec fn is_principal_for(
    result: Result<u128, LoanError>,
    rate: int,
    payment: int,
    num_periods: int,
) -> bool {
    match result {
        Ok(principal) => solved_principal(rate, payment, num_periods) == Ok::<int, LoanError>(
            principal as int,
        ),
        Err(error) => solved_principal(rate, payment, num_periods) == Err::<int, LoanError>(
            error,
        ),
    }
}

/// Whether there is a principal for the search to find: the upper end of the
/// starting bracket is paid off within the limit on periods, and some
/// principal from the lower end up to, but not including, the upper end takes
/// the wanted number of payments, to within the tolerance.
pub open spec fn answer_in_reach(rate: int, payment: int, num_periods: int) -> bool {
    &&& number_of_payments(upper_bound(rate, payment, num_periods), rate, payment) is Ok
    &&& exists|answer: int|
        lower_bound(rate, payment) <= answer < upper_bound(rate, payment, num_periods)
            && #[trigger] is_answer(answer, rate, payment, num_periods)
}

/// The search has one outcome only: two results for the same terms are the
/// same result, whenever and wherever they were computed.
pub proof fn lemma_principal_is_determined(
    first: Result<u128, LoanError>,
    second: Result<u128, LoanError>,
    rate: int,
    payment: int,
    num_periods: int,
)
    requires
        is_principal_for(first, rate, payment, num_periods),
        is_principal_for(second, rate, payment, num_periods),
    ensures
        first == second,
{
}

/// Simulating the principal that the search found gives back the number of
/// periods that the search was asked for, to within the tolerance.
pub proof fn lemma_solved_principal_round_trip(rate: int, payment: int, num_periods: int)
    requires
        0 < rate,
        0 < payment,
        0 < num_periods,
    ensures
        solved_principal(rate, payment, num_periods) matches Ok(principal) ==> is_answer(
            principal,
            rate,
            payment,
            num_periods,
        ),
{
    lemma_bisect_answer(
        lower_bound(rate, payment),
        upper_bound(rate, payment, num_periods),
        rate,
        payment,
        num_periods,
        MAX_BISECTIONS as nat,
    );
}

/// The search for a principal succeeds whenever there is one to find.
pub proof fn lemma_search_finds_answer(rate: int, payment: int, num_periods: int)
    requires
        0 < rate,
        0 < payment <= u64::MAX,
        0 < num_periods,
        answer_in_reach(rate, payment, num_periods),
    ensures
        solved_principal(rate, payment, num_periods) is Ok,
{
    let answer: int = choose|answer: int|
        lower_bound(rate, payment) <= answer < upper_bound(rate, payment, num_periods)
            && #[trigger] is_answer(answer, rate, payment, num_periods);
    let lower: int = lower_bound(rate, payment);
    let upper: int = upper_bound(rate, payment, num_periods);
    let capped: int = 4 * payment * 1_000_000_000;
    let fifths: int = 5 * rate;
    assert(0 <= lower) by (nonlinear_arith)
        requires
            lower == payment * 1_000_000_000 / (1_000_000_000 + rate),
            0 < rate,
            0 < payment,
    ;
    assert(capped / fifths <= capped) by (nonlinear_arith)
        requires
            capped >= 0,
            fifths >= 5,
    ;
    lemma2_to64();
    lemma_pow2_adds(64, 32);
    lemma_pow2_strictly_increases(96, 127);
    assert(pow2(96) == 0x1_0000_0000_0000_0000_0000_0000) by (nonlinear_arith)
        requires
            pow2(96) == pow2(64) * pow2(32),
            pow2(64) == 0x1_0000_0000_0000_0000,
            pow2(32) == 0x1_0000_0000,
    ;
    lemma_bisect_finds_answer(
        lower,
        upper,
        rate,
        payment,
        num_periods,
        MAX_BISECTIONS as nat,
        answer,
    );
}

/// The search for a principal ends without a solution only when the larger
/// end of its starting bracket is not paid off within the limit on periods.
pub proof fn lemma_search_without_solution(rate: int, payment: int, num_periods: int)
    requires
        0 < rate,
        0 < payment,
        0 < num_periods,
    ensures
        solved_principal(rate, payment, num_periods) == Err::<int, LoanError>(
            LoanError::NoSolution,
        ) ==> number_of_payments(
            larger_end(lower_bound(rate, payment), upper_bound(rate, payment, num_periods)),
            rate,
            payment,
        ) == Err::<int, LoanError>(LoanError::DidNotConverge),
{
    let lower: int = lower_bound(rate, payment);
    let upper: int = upper_bound(rate, payment, num_periods);
    lemma_bracket_covers_interest(rate, payment, num_periods, lower);
    lemma_bracket_covers_interest(rate, payment, num_periods, upper);
    lemma_bisect_without_solution(
        lower,
        upper,
        rate,
        payment,
        num_periods,
        MAX_BISECTIONS as nat,
    );
}

/// The search succeeds when the payment is large enough for the number of
/// payments to rise by no more than twice the tolerance from one principal
/// to the next, and the wanted number lies, to within the tolerance, between
/// the number that the lower end takes, which is at most one period, and the
/// number that the principal just below the upper end takes.
pub proof fn lemma_search_succeeds(rate: int, payment: int, num_periods: int)
    requires
        0 < rate,
        0 < payment <= u64::MAX,
        0 < num_periods,
        largest_step(rate, payment) <= 2 * TOLERANCE,
        lower_bound(rate, payment) < upper_bound(rate, payment, num_periods),
        SCALE - TOLERANCE <= num_periods,
        number_of_payments(upper_bound(rate, payment, num_periods), rate, payment) is Ok,
        number_of_payments(upper_bound(rate, payment, num_periods) - 1, rate, payment)->Ok_0
            >= num_periods - TOLERANCE,
    ensures
        solved_principal(rate, payment, num_periods) is Ok,
{
    let lower: int = lower_bound(rate, payment);
    let upper: int = upper_bound(rate, payment, num_periods);
    let capped: int = 4 * payment * 1_000_000_000 / (5 * rate);
    lemma_lower_bound_takes_one_payment(rate, payment);
    lemma_bracket_covers_interest(rate, payment, num_periods, lower);
    lemma_number_of_payments_monotonic(upper - 1, upper, rate, payment);
    assert(capped * (5 * rate) <= 4 * payment * 1_000_000_000) by (nonlinear_arith)
        requires
            capped == 4 * payment * 1_000_000_000 / (5 * rate),
            0 < rate,
    ;
    assert(5 * rate * (upper - 1) <= 4 * payment * 1_000_000_000) by (nonlinear_arith)
        requires
            upper <= capped,
            capped * (5 * rate) <= 4 * payment * 1_000_000_000,
            0 < rate,
    ;
    lemma_answer_lies_between(lower, upper, rate, payment, num_periods);
    lemma_search_finds_answer(rate, payment, num_periods);
}

/// Terms on which the search is sure to succeed: a payment that is not tiny
/// for the rate, between one period and a fifth of the limit on periods, and
/// a rate that, charged once per period without compounding, adds up to no
/// more than four fifths.
pub open spec fn ordinary_terms(rate: int, payment: int, num_periods: int) -> bool {
    &&& 0 < rate
    &&& largest_step(rate, payment) <= 2 * TOLERANCE
    &&& 2 * SCALE <= TOLERANCE * payment
    &&& SCALE <= num_periods
    &&& 5 * num_periods <= MAX_PERIODS * SCALE
    &&& 5 * rate * num_periods <= 4 * SCALE * SCALE
}

/// On ordinary terms the search finds a principal.
pub proof fn lemma_search_succeeds_on_ordinary_terms(rate: int, payment: int, num_periods: int)
    requires
        0 < payment <= u64::MAX,
        ordinary_terms(rate, payment, num_periods),
    ensures
        solved_principal(rate, payment, num_periods) is Ok,
{
    let lower: int = lower_bound(rate, payment);
    let upper: int = upper_bound(rate, payment, num_periods);
    let summed: int = payment * num_periods;
    let without_interest: int = summed / 1_000_000_000;
    let capped: int = 4 * payment * 1_000_000_000 / (5 * rate);
    assert(without_interest * 1_000_000_000 <= summed < without_interest * 1_000_000_000
        + 1_000_000_000) by (nonlinear_arith)
        requires
            without_interest == summed / 1_000_000_000,
    ;
    // The search starts from the sum of the payments: it is the smaller of
    // the two candidates for the upper end, and above the lower end.
    assert(without_interest <= capped) by (nonlinear_arith)
        requires
            capped == 4 * payment * 1_000_000_000 / (5 * rate),
            without_interest * 1_000_000_000 <= summed,
            summed == payment * num_periods,
            5 * rate * num_periods <= 4 * 1_000_000_000 * 1_000_000_000,
            0 < rate,
            0 < payment,
            0 <= without_interest,
    ;
    assert(lower < payment) by (nonlinear_arith)
        requires
            lower == payment * 1_000_000_000 / (1_000_000_000 + rate),
            0 < rate,
            0 < payment,
    ;
    assert(payment <= without_interest) by (nonlinear_arith)
        requires
            summed < without_interest * 1_000_000_000 + 1_000_000_000,
            summed == payment * num_periods,
            1_000_000_000 <= num_periods,
            0 < payment,
    ;
    // At the upper end interest takes at most four fifths of a payment, so a
    // fifth of the limit on periods is enough to pay it off.
    lemma_bracket_covers_interest(rate, payment, num_periods, upper);
    let interest: int = interest_due(upper, rate);
    let product: int = upper * rate;
    assert(interest * 1_000_000_000 <= product) by (nonlinear_arith)
        requires
            interest == product / 1_000_000_000,
    ;
    assert(capped * (5 * rate) <= 4 * payment * 1_000_000_000) by (nonlinear_arith)
        requires
            capped == 4 * payment * 1_000_000_000 / (5 * rate),
            0 < rate,
    ;
    assert(5 * interest <= 4 * payment) by (nonlinear_arith)
        requires
            interest * 1_000_000_000 <= product,
            product == upper * rate,
            upper <= capped,
            capped * (5 * rate) <= 4 * payment * 1_000_000_000,
            0 < rate,
    ;
    assert(upper <= 100_000 * (payment - interest)) by (nonlinear_arith)
        requires
            upper * 1_000_000_000 <= summed,
            summed == payment * num_periods,
            5 * num_periods <= 100_000 * 1_000_000_000,
            5 * interest <= 4 * payment,
            0 < payment,
    ;
    lemma_payments_that_suffice(upper, rate, payment);
    // Just below the upper end the payments add up to the principal at
    // least, which is all but two units of the wanted sum.
    lemma_number_of_payments_monotonic(upper - 1, upper, rate, payment);
    lemma_payments_add_up_to_principal(upper - 1, rate, payment);
    let last: int = number_of_payments(upper - 1, rate, payment)->Ok_0;
    assert(last >= num_periods - 10_000) by (nonlinear_arith)
        requires
            last * payment >= (upper - 1) * 1_000_000_000,
            summed < upper * 1_000_000_000 + 1_000_000_000,
            summed == payment * num_periods,
            2 * 1_000_000_000 <= 10_000 * payment,
            0 < payment,
    ;
    lemma_search_succeeds(rate, payment, num_periods);
}

/// Finds the principal that `payment` per period pays off in `num_periods`
/// periods at `interest_rate` per period, all in units of a billionth.
///
/// The result is the first middle of the narrowing bracket whose simulated
/// number of payments is within [`TOLERANCE`] of `num_periods`; it lies
/// between the two ends that [`search_bracket`] gives. The search fails with
/// [`LoanError::NoSolution`] when a middle cannot be simulated, and with
/// [`LoanError::DidNotConverge`] when [`MAX_BISECTIONS`] halvings have not
/// brought the count within the tolerance. It does not fail on
/// [`ordinary_terms`], nor whenever the bracket holds a principal to find and
/// its upper end can be simulated, and it ends without a solution only when
/// the larger end of the bracket is not paid off within the limit on periods.
pub fn solve_for_principal(interest_rate: u64, payment: u64, num_periods: u64) -> (result: Result<
    u128,
    LoanError,
>)
    requires
        interest_rate > 0,
        payment > 0,
        num_periods > 0,
    ensures
        is_principal_for(result, interest_rate as int, payment as int, num_periods as int),
        result matches Ok(principal) ==> between(
            principal as int,
            lower_bound(interest_rate as int, payment as int),
            upper_bound(interest_rate as int, payment as int, num_periods as int),
        ) && is_answer(principal as int, interest_rate as int, payment as int, num_periods as int),
        answer_in_reach(interest_rate as int, payment as int, num_periods as int) ==> result is Ok,
        ordinary_terms(interest_rate as int, payment as int, num_periods as int) ==> result is Ok,
        result == Err::<u128, LoanError>(LoanError::NoSolution) ==> number_of_payments(
            larger_end(
                lower_bound(interest_rate as int, payment as int),
                upper_bound(interest_rate as int, payment as int, num_periods as int),
            ),
            interest_rate as int,
            payment as int,
        ) == Err::<int, LoanError>(LoanError::DidNotConverge),
        result != Err::<u128, LoanError>(LoanError::InvalidPayment),
{
    let (lower, upper) = search_bracket(interest_rate, payment, num_periods);
    proof {
        if answer_in_reach(interest_rate as int, payment as int, num_periods as int) {
            lemma_search_finds_answer(interest_rate as int, payment as int, num_periods as int);
        }
        if ordinary_terms(interest_rate as int, payment as int, num_periods as int) {
            lemma_search_succeeds_on_ordinary_terms(
                interest_rate as int,
                payment as int,
                num_periods as int,
            );
        }
    }
    let mut lo: u128 = lower;
    let mut hi: u128 = upper;
    let mut round: u64 = 0;
    while round < MAX_BISECTIONS
        invariant
            interest_rate > 0,
            payment > 0,
            num_periods > 0,
            round <= MAX_BISECTIONS,
            lo <= 4 * payment * SCALE,
            hi <= 4 * payment * SCALE,
            answer_in_reach(interest_rate as int, payment as int, num_periods as int)
                || ordinary_terms(interest_rate as int, payment as int, num_periods as int)
                ==> solved_principal(
                interest_rate as int,
                payment as int,
                num_periods as int,
            ) is Ok,
            solved_principal(interest_rate as int, payment as int, num_periods as int) == bisect(
                lo as int,
                hi as int,
                interest_rate as int,
                payment as int,
                num_periods as int,
                (MAX_BISECTIONS - round) as nat,
            ),
        decreases MAX_BISECTIONS - round,
    {
        let principal: u128 = (lo + hi) / 2;
        match calc_number_of_payments(principal, interest_rate, payment) {
            Err(_) => {
                proof {
                    lemma_search_without_solution(
                        interest_rate as int,
                        payment as int,
                        num_periods as int,
                    );
                }
                return Err(LoanError::NoSolution);
            },
            Ok(periods) => {
                let too_early: bool = periods < num_periods;
                let distance: u64 = if too_early {
                    num_periods - periods
                } else {
                    periods - num_periods
                };
                if distance <= TOLERANCE {
                    proof {
                        lemma_bisect_answer(
                            lower_bound(interest_rate as int, payment as int),
                            upper_bound(interest_rate as int, payment as int, num_periods as int),
                            interest_rate as int,
                            payment as int,
                            num_periods as int,
                            MAX_BISECTIONS as nat,
                        );
                    }
                    return Ok(principal);
                }
                if too_early {
                    lo = principal;
                } else {
                    hi = principal;
                }
            },
        }
        round = round + 1;
    }
    Err(LoanError::DidNotConverge)
}

} // verus!
