//! The limiter's clock: a monotonic clock, read as whole nanoseconds since
//! the moment it was started.

use std::time::Instant;

use vstd::prelude::*;

verus! {

#[verifier::external_type_specification]
#[verifier::external_body]
pub struct ExInstant(Instant);

/// The current instant of the system's monotonic clock (`Instant::now`).
/// Nothing is promised of the value: it is the moment at which it is read.
#[verifier::external_body]
fn instant_now() -> (t: Instant) {
    Instant::now()
}

/// The nanoseconds that have passed since `origin` on the monotonic clock
/// (`Instant::elapsed`, which gives zero rather than a negative span, and
/// `Duration::as_nanos`). Nothing is promised of the value: it depends on
/// the moment at which it is read.
#[verifier::external_body]
fn nanos_since(origin: &Instant) -> (n: u64) {
    origin.elapsed().as_nanos() as u64
}

/// A monotonic clock, read in nanoseconds since it was started. Copies of it
/// share its starting moment, so that readings taken from any of them lie on
/// one time line; each copy never reads a time earlier than its last reading.
#[derive(Clone, Copy)]
pub struct MonotonicClock {
    origin: Instant,
    last: u64,
}

impl View for MonotonicClock {
    type V = u64;

    /// The latest reading of this clock.
    closed spec fn view(&self) -> u64 {
        self.last
    }
}

impl MonotonicClock {
    /// A clock started now; it has read nothing yet.
    pub fn start() -> (c: MonotonicClock)
        ensures
            c@ == 0,
    {
        MonotonicClock { origin: instant_now(), last: 0 }
    }

    /// Reads the clock: the nanoseconds since it was started, never less than
    /// its last reading.
    pub fn now(&mut self) -> (t: u64)
        ensures
            t >= old(self)@,
            final(self)@ == t,
    {
        let read = nanos_since(&self.origin);
        let t = if read > self.last {
            read
        } else {
            self.last
        };
        self.last = t;
        t
    }
}

/// How long ago `then` was at time `now`; zero where `then` lies after `now`.
pub open spec fn spec_elapsed(now: u64, then: u64) -> nat {
    if now >= then {
        (now - then) as nat
    } else {
        0
    }
}

/// How long ago `then` was at time `now`, in nanoseconds; zero where `then`
/// lies after `now`.
pub fn elapsed(now: u64, then: u64) -> (d: u64)
    ensures
        d == spec_elapsed(now, then),
{
    now.saturating_sub(then)
}

} // verus!
