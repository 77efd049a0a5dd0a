//! Sampling periods: lengths of time as std's `Duration` holds them.
use core::time::Duration;
use vstd::prelude::*;

verus! {

/// The length of a duration in nanoseconds, as `Duration::as_nanos` gives it.
pub uninterp spec fn nanos(d: Duration) -> nat;

/// `Duration::as_nanos`: the length in nanoseconds.
pub assume_specification[ Duration::as_nanos ](d: &Duration) -> (n: u128)
    ensures
        n == nanos(*d),
;

/// `Duration::from_millis`: a duration as long as the given number of
/// milliseconds.
pub assume_specification[ Duration::from_millis ](millis: u64) -> (d: Duration)
    ensures
        nanos(d) == millis * 1_000_000,
;

/// A period in whole nanoseconds, as timelines record it: the low 64 bits.
pub fn period_ns(period: &Duration) -> (n: u64)
    ensures
        n == nanos(*period) as u64,
{
    #[verifier::truncate]
    let n: u64 = period.as_nanos() as u64;
    n
}

} // verus!
