//! The fixed-point scale, the tolerance of the search and the limits on steps.
use vstd::prelude::*;

verus! {

/// Units per whole. An amount of `1_500_000_000` is one and a half currency
/// units, a rate of `5_000_000` is half a percent per period, and a count of
/// `35_300_000_000` is 35.3 periods.
pub const SCALE: u64 = 1_000_000_000;

/// Largest accepted distance between a simulated and a wanted count of
/// periods: a hundred-thousandth of a period, in units.
pub const TOLERANCE: u64 = 10_000;

/// Whole periods after which a simulation gives up on a loan whose balance is
/// still positive.
pub const MAX_PERIODS: u64 = 100_000;

/// Halvings after which the search for a principal gives up.
pub const MAX_BISECTIONS: u64 = 128;

} // verus!
