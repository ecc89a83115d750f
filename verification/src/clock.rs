//! Time: a monotonic clock in nanoseconds, and points in calendar time.
use std::time::Instant;
use vstd::prelude::*;

verus! {

/// `std::time::Instant`, kept as the origin of a clock.
#[verifier::external_type_specification]
#[verifier::external_body]
pub struct ExInstant(Instant);

/// `Instant::now` reads the monotonic clock; nothing is claimed of what it shows.
#[verifier::external_body]
fn instant_now() -> Instant {
    Instant::now()
}

/// `Instant::elapsed` tells how long ago an instant was, here in whole nanoseconds;
/// nothing is claimed of how long that is.
#[verifier::external_body]
fn instant_elapsed(origin: &Instant) -> u64 {
    origin.elapsed().as_nanos() as u64
}

/// A point in calendar time: seconds since the start of 1970, and nanoseconds.
#[derive(Clone, Copy, Debug, PartialEq, Eq, Structural)]
pub struct Timestamp {
    pub seconds: i64,
    pub nanos: u32,
}

impl Timestamp {
    /// A leap second counts past a thousand million nanoseconds.
    pub open spec fn well_formed(self) -> bool {
        self.nanos < 2_000_000_000
    }
}

/// `chrono::Utc::now` reads the calendar clock. Of what it shows only the range of the
/// nanoseconds is claimed. It does not return where the clock of the system stands before
/// the start of 1970.
#[verifier::external_body]
pub(crate) fn utc_now() -> (r: Timestamp)
    ensures
        r.well_formed(),
{
    let now = chrono::Utc::now();
    Timestamp { seconds: now.timestamp(), nanos: now.timestamp_subsec_nanos() }
}

/// A clock that counts nanoseconds from the time it was made.
pub struct Clock {
    origin: Instant,
}

impl Clock {
    /// A clock that starts now; when that is depends on the machine, and nothing is claimed of
    /// it.
    pub fn new() -> Clock {
        Clock { origin: instant_now() }
    }

    /// The nanoseconds since the clock was made; how many depends on the machine, and nothing
    /// is claimed of it.
    pub fn now(&self) -> u64 {
        instant_elapsed(&self.origin)
    }
}

} // verus!
