//! Bisection over principals, as a mathematical function, and what holds of
//! its outcome.
//!
//! The number of payments does not fall as the principal rises. That is what
//! lets a bisection drop, in each round, the half of its bracket that cannot
//! hold the answer.
use vstd::arithmetic::power2::{lemma2_to64, lemma_pow2_unfold, pow2};
use vstd::prelude::*;

use crate::bracket::{between, larger_end};
use crate::error::LoanError;
use crate::payments::{lemma_number_of_payments_monotonic, number_of_payments};
use crate::units::TOLERANCE;

verus! {

/// Whether a count of periods is as close to the wanted count as the search
/// asks for.
pub open spec fn within_tolerance(periods: int, num_periods: int) -> bool {
    -TOLERANCE <= periods - num_periods <= TOLERANCE
}

/// Whether `principal` takes the wanted number of payments, to within the
/// tolerance.
pub open spec fn is_answer(principal: int, rate: int, payment: int, num_periods: int) -> bool {
    number_of_payments(principal, rate, payment) matches Ok(periods) && within_tolerance(
        periods,
        num_periods,
    )
}

/// The outcome of at most `rounds` halvings of the bracket from `lo` to `hi`.
/// Each round simulates the middle of the bracket: a middle that cannot be
/// simulated ends the search, one within the tolerance is the answer, one
/// that is paid off too early becomes the lower end and any other the upper
/// end.
pub open spec fn bisect(
    lo: int,
    hi: int,
    rate: int,
    payment: int,
    num_periods: int,
    rounds: nat,
) -> Result<int, LoanError>
    decreases rounds,
{
    if rounds == 0 {
        Err(LoanError::DidNotConverge)
    } else {
        let middle = (lo + hi) / 2;
        match number_of_payments(middle, rate, payment) {
            Err(_) => Err(LoanError::NoSolution),
            Ok(periods) => if within_tolerance(periods, num_periods) {
                Ok(middle)
            } else if periods < num_periods {
                bisect(middle, hi, rate, payment, num_periods, (rounds - 1) as nat)
            } else {
                bisect(lo, middle, rate, payment, num_periods, (rounds - 1) as nat)
            },
        }
    }
}

/// A principal that a bisection returns takes the wanted number of payments,
/// to within the tolerance, and lies in the bracket that the bisection
/// started from.
pub proof fn lemma_bisect_answer(
    lo: int,
    hi: int,
    rate: int,
    payment: int,
    num_periods: int,
    rounds: nat,
)
    ensures
        bisect(lo, hi, rate, payment, num_periods, rounds) matches Ok(principal) ==> between(
            principal,
            lo,
            hi,
        ) && is_answer(principal, rate, payment, num_periods),
    decreases rounds,
{
    if rounds > 0 {
        let middle: int = (lo + hi) / 2;
        lemma_bisect_answer(middle, hi, rate, payment, num_periods, (rounds - 1) as nat);
        lemma_bisect_answer(lo, middle, rate, payment, num_periods, (rounds - 1) as nat);
    }
}

/// A bisection succeeds when its bracket holds an answer below its upper
/// end, the upper end can be simulated, and the rounds suffice to halve the
/// bracket down to a single principal. Because the number of payments does
/// not fall as the principal rises, a middle that is paid off too early has
/// the answer above it and any other has it below, so the answer never
/// leaves the bracket.
pub proof fn lemma_bisect_finds_answer(
    lo: int,
    hi: int,
    rate: int,
    payment: int,
    num_periods: int,
    rounds: nat,
    answer: int,
)
    requires
        0 <= lo <= answer < hi,
        0 <= rate,
        0 <= payment,
        0 < rounds,
        hi - lo <= pow2((rounds - 1) as nat),
        number_of_payments(hi, rate, payment) is Ok,
        is_answer(answer, rate, payment, num_periods),
    ensures
        bisect(lo, hi, rate, payment, num_periods, rounds) is Ok,
    decreases rounds,
{
    let middle: int = (lo + hi) / 2;
    lemma_number_of_payments_monotonic(middle, hi, rate, payment);
    let periods: int = number_of_payments(middle, rate, payment)->Ok_0;
    if !within_tolerance(periods, num_periods) {
        if rounds == 1 {
            // A bracket of one principal has the answer for its middle.
            lemma2_to64();
            assert(middle == answer);
        } else {
            lemma_pow2_unfold((rounds - 1) as nat);
        }
        if periods < num_periods {
            if answer <= middle {
                lemma_number_of_payments_monotonic(answer, middle, rate, payment);
            }
            lemma_bisect_finds_answer(
                middle,
                hi,
                rate,
                payment,
                num_periods,
                (rounds - 1) as nat,
                answer,
            );
        } else {
            if middle <= answer {
                lemma_number_of_payments_monotonic(middle, answer, rate, payment);
            }
            lemma_bisect_finds_answer(
                lo,
                middle,
                rate,
                payment,
                num_periods,
                (rounds - 1) as nat,
                answer,
            );
        }
    }
}

/// A bisection gives up for a middle that cannot be simulated only when the
/// larger end of its bracket cannot be simulated either: whatever is paid
/// off at the larger end is paid off at every middle.
pub proof fn lemma_bisect_without_solution(
    lo: int,
    hi: int,
    rate: int,
    payment: int,
    num_periods: int,
    rounds: nat,
)
    requires
        0 <= lo,
        0 <= hi,
        0 <= rate,
        0 <= payment,
    ensures
        bisect(lo, hi, rate, payment, num_periods, rounds) == Err::<int, LoanError>(
            LoanError::NoSolution,
        ) ==> number_of_payments(larger_end(lo, hi), rate, payment) is Err,
    decreases rounds,
{
    if rounds > 0 {
        let middle: int = (lo + hi) / 2;
        lemma_number_of_payments_monotonic(middle, larger_end(lo, hi), rate, payment);
        lemma_number_of_payments_monotonic(
            larger_end(middle, hi),
            larger_end(lo, hi),
            rate,
            payment,
        );
        lemma_number_of_payments_monotonic(
            larger_end(lo, middle),
            larger_end(lo, hi),
            rate,
            payment,
        );
        lemma_bisect_without_solution(middle, hi, rate, payment, num_periods, (rounds - 1) as nat);
        lemma_bisect_without_solution(lo, middle, rate, payment, num_periods, (rounds - 1) as nat);
    }
}

} // verus!
