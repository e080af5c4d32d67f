//! Curves and conversions that the host computes.

use vstd::prelude::*;

use crate::scalar::Scalar;

verus! {

/// The exponential and logarithmic curves, and the conversions between times
/// and hours, which the host supplies.
///
/// Their last digit varies from one platform to the next, so nothing is
/// claimed of what they return. What depends on them says which of them was
/// asked for what, and holds for every answer.
pub trait Curves {
    /// `e^x`.
    fn exp(&self, x: Scalar) -> Scalar;

    /// `2^x`.
    fn exp2(&self, x: Scalar) -> Scalar;

    /// The logarithm of `x` to the base two.
    fn log2(&self, x: Scalar) -> Scalar;

    /// Nanoseconds in hours.
    fn ns_to_hours(&self, ns: u64) -> Scalar;

    /// Hours in nanoseconds.
    fn hours_to_ns(&self, hours: Scalar) -> u64;
}

/// Whether the host may give `y` for `e^x`.
pub open spec fn exp_gives<M: Curves>(curves: M, x: Scalar, y: Scalar) -> bool {
    call_ensures(M::exp, (&curves, x), y)
}

/// Whether a fraction is what the host's curves leave of a weight after a time,
/// by half-life: two to the power of the half-lives that have passed, negated.
pub open spec fn leaves<M: Curves>(
    curves: M,
    elapsed_ns: u64,
    half_life_hours: Scalar,
    remaining: Scalar,
) -> bool {
    exists|hours: Scalar| #[trigger]
        call_ensures(M::ns_to_hours, (&curves, elapsed_ns), hours) && call_ensures(
            M::exp2,
            (&curves, hours.negated().quotient(half_life_hours)),
            remaining,
        )
}

/// Whether a time is what the host's curves give for a fall by a ratio, by
/// half-life: as many half-lives as the ratio has halvings.
pub open spec fn falls_in<M: Curves>(
    curves: M,
    ratio: Scalar,
    half_life_hours: Scalar,
    time_ns: u64,
) -> bool {
    exists|halvings: Scalar| #[trigger]
        call_ensures(M::log2, (&curves, ratio), halvings) && call_ensures(
            M::hours_to_ns,
            (&curves, halvings.product(half_life_hours)),
            time_ns,
        )
}

} // verus!
