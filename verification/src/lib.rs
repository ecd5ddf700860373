//! Fixed-rate loan amortization in exact fixed-point arithmetic.
//!
//! Every amount of money, every interest rate and every count of periods is an
//! unsigned integer number of billionths ([`SCALE`] units make one whole), so
//! each step of a computation is an integer operation with a stated rounding,
//! and the contracts speak of exact values.
//!
//! * [`calc_number_of_payments`] follows the amortization schedule of a loan
//!   and tells after how many periods, the last one counted in part, the
//!   balance is gone.
//! * [`solve_for_principal`] searches by bisection for the principal that a
//!   given payment retires in a given number of periods.
//!
//! The modules hold, beside these functions, what is proved of them:
//!
//! * [`schedule`]: how the balance of a loan moves, and that a larger loan
//!   stays larger;
//! * [`payments`]: the number of payments does not fall as the principal
//!   rises, and the payments add up to at least the principal;
//! * [`continuity`]: from one principal to the next the number of payments
//!   rises by little;
//! * [`bracket`]: the two ends that the search starts from enclose what it
//!   looks for;
//! * [`bisection`] and [`principal`]: a principal that the search returns
//!   takes the wanted number of payments, and the search succeeds whenever
//!   its bracket holds such a principal, as it does on ordinary terms.
use vstd::prelude::*;

pub mod bisection;
pub mod bracket;
pub mod continuity;
pub mod error;
pub mod payments;
pub mod principal;
pub mod schedule;
pub mod units;

pub use bracket::search_bracket;
pub use error::LoanError;
pub use payments::calc_number_of_payments;
pub use principal::solve_for_principal;
pub use units::{MAX_BISECTIONS, MAX_PERIODS, SCALE, TOLERANCE};
