//! Monotonic time as nanoseconds since a starting point.

use std::time::Instant;
use vstd::prelude::*;

verus! {

/// A reading of the monotonic clock.
#[verifier::external_type_specification]
#[verifier::external_body]
pub struct ExInstant(Instant);

/// Calls `Instant::now`. Nothing is stated of the reading.
#[verifier::external_body]
fn instant_now() -> (instant: Instant) {
    Instant::now()
}

/// Calls `Instant::elapsed` and gives the `Duration` in nanoseconds. A `Duration` holds
/// at most `u64::MAX` seconds and 999,999,999 nanoseconds. How much time has passed is
/// left open.
#[verifier::external_body]
fn instant_elapsed(start: &Instant) -> (nanos: u128)
    ensures
        nanos <= u64::MAX * 1_000_000_000 + 999_999_999,
{
    start.elapsed().as_nanos()
}

/// The largest number of nanoseconds that a clock reads.
pub open spec fn last_tick() -> int {
    u64::MAX * 1_000_000_000 + 999_999_999
}

/// Counts nanoseconds from the moment it was started. Copies share that moment.
#[derive(Clone, Copy, Debug)]
pub struct Clock {
    start: Instant,
}

impl Clock {
    /// Starts a clock.
    pub fn start() -> (clock: Clock) {
        Clock { start: instant_now() }
    }

    /// The nanoseconds since the clock was started.
    pub fn nanos(&self) -> (nanos: u128)
        ensures
            nanos <= last_tick(),
    {
        instant_elapsed(&self.start)
    }
}

} // verus!
