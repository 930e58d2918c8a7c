//! The search's view of time and of an external stop request.

use std::sync::atomic::AtomicBool;
use std::sync::atomic::Ordering;
use std::sync::Arc;
use std::time::{Duration, Instant};

use vstd::prelude::*;

verus! {

#[verifier::external_type_specification]
#[verifier::external_body]
pub struct ExInstant(Instant);

/// `Instant::now`: the current time. Nothing is claimed of it.
#[verifier::external_body]
pub(crate) fn now() -> (t: Instant) {
    Instant::now()
}

/// `Instant::elapsed`: the time passed since `start`. Nothing is claimed
/// of it.
#[verifier::external_body]
pub(crate) fn elapsed(start: &Instant) -> (d: Duration) {
    start.elapsed()
}

/// What `Duration::as_nanos` gives for `d`: its total number of whole
/// nanoseconds.
pub uninterp spec fn nanos_of(d: Duration) -> u128;

/// `Duration::as_nanos`: the duration in whole nanoseconds, named by
/// `nanos_of`.
#[verifier::external_body]
pub(crate) fn as_nanos(d: &Duration) -> (n: u128)
    ensures
        n == nanos_of(*d),
{
    d.as_nanos()
}

/// `Duration::as_millis`: the duration in whole milliseconds, that is its
/// whole nanoseconds divided by a million, rounded down.
#[verifier::external_body]
pub(crate) fn as_millis(d: &Duration) -> (n: u128)
    ensures
        n == nanos_of(*d) / 1_000_000,
{
    d.as_millis()
}

/// What `Duration::from_millis` gives for `ms` milliseconds.
pub uninterp spec fn duration_of_millis(ms: u64) -> Duration;

/// `Duration::from_millis`: the duration of `ms` milliseconds, named by
/// `duration_of_millis`; it holds `ms` million nanoseconds.
#[verifier::external_body]
pub(crate) fn from_millis(ms: u64) -> (d: Duration)
    ensures
        d == duration_of_millis(ms),
        nanos_of(d) == ms * 1_000_000,
{
    Duration::from_millis(ms)
}

/// Whether a stop has been requested through the shared flag.
pub fn stop_requested(stop: &Option<Arc<AtomicBool>>) -> (r: bool)
    ensures
        stop is None ==> !r,
{
    match stop {
        Some(flag) => flag.load(Ordering::Relaxed),
        None => false,
    }
}

} // verus!
