//! Durations and instants of `std::time`, as the frame timing code uses them.

use vstd::prelude::*;
use std::time::{Duration, Instant};
use crate::debug_profiler::MAX_DURATION_NANOS;

verus! {

#[verifier::external_type_specification]
#[verifier::external_body]
pub struct ExInstant(Instant);

/// The length of a duration in nanoseconds, as `Duration::as_nanos` gives it.
pub uninterp spec fn duration_nanos(d: Duration) -> nat;

/// `Duration::as_nanos`: the total number of nanoseconds in the duration,
/// which is at most that of `Duration::MAX` (`u64::MAX` seconds and
/// 999,999,999 nanoseconds).
#[verifier::external_body]
pub(crate) fn duration_as_nanos(d: Duration) -> (n: u128)
    ensures
        n == duration_nanos(d),
        n <= MAX_DURATION_NANOS,
{
    d.as_nanos()
}

/// `Duration::new`: the duration of `secs` seconds and `nanos` nanoseconds.
#[verifier::external_body]
pub(crate) fn duration_new(secs: u64, nanos: u32) -> (d: Duration)
    requires
        nanos < 1_000_000_000,
    ensures
        duration_nanos(d) == secs * 1_000_000_000 + nanos,
{
    Duration::new(secs, nanos)
}

/// `Duration::ZERO`: the empty duration.
#[verifier::external_body]
pub(crate) fn duration_zero() -> (d: Duration)
    ensures
        duration_nanos(d) == 0,
{
    Duration::ZERO
}

/// `Instant::now`: the current time; nothing is known of its value.
#[verifier::external_body]
pub(crate) fn instant_now() -> Instant {
    Instant::now()
}

/// `Instant::elapsed`: the time since `i`; nothing is known of its value.
#[verifier::external_body]
pub(crate) fn instant_elapsed(i: &Instant) -> Duration {
    i.elapsed()
}

} // verus!
