//! Ways in which a computation on a loan can fail.
use vstd::prelude::*;

verus! {

/// Why no result could be given.
#[derive(Clone, Copy, Debug, PartialEq, Eq, Structural)]
pub enum LoanError {
    /// The payment does not exceed the interest charged in the first period,
    /// so the balance would never shrink.
    InvalidPayment,
    /// A limit on the number of steps was reached before the loan was paid
    /// off, or before the search settled within the tolerance.
    DidNotConverge,
    /// The search for a principal had to stop because a candidate could not be
    /// simulated.
    NoSolution,
}

} // verus!
