use std::time::{Duration, Instant};
use vstd::prelude::*;

verus! {

/// A reading of std's monotonic clock.
#[verifier::external_type_specification]
#[verifier::external_body]
pub struct ExInstant(std::time::Instant);

/// Calls `Instant::now`, which reads the monotonic clock. Nothing is
/// claimed of the reading.
#[verifier::external_body]
fn instant_now() -> (t: Instant) {
    Instant::now()
}

/// Calls `Instant::elapsed`, the time gone by since the reading was taken.
/// Nothing is claimed of it.
#[verifier::external_body]
fn elapsed_since(origin: &Instant) -> (d: Duration) {
    origin.elapsed()
}

/// Calls `Duration::as_nanos`, the duration in whole nanoseconds. Nothing
/// is claimed of it.
#[verifier::external_body]
fn whole_nanos(d: &Duration) -> (n: u128) {
    d.as_nanos()
}

/// The reading that follows `last` when the clock shows `nanos`: the
/// clock's value, held within 64 bits and never behind `last`.
pub open spec fn reading_after(last: u64, nanos: u128) -> u64 {
    if nanos > u64::MAX {
        u64::MAX
    } else if nanos < last {
        last
    } else {
        nanos as u64
    }
}

/// Computes `reading_after`.
pub fn next_reading(last: u64, nanos: u128) -> (now: u64)
    ensures
        now == reading_after(last, nanos),
        now >= last,
{
    if nanos > u64::MAX as u128 {
        u64::MAX
    } else if nanos < last as u128 {
        last
    } else {
        nanos as u64
    }
}

/// A clock that counts nanoseconds from the moment it was started and
/// never goes back.
pub struct Stopwatch {
    origin: Instant,
    last: u64,
}

impl Stopwatch {
    /// The latest reading.
    pub closed spec fn reading(&self) -> u64 {
        self.last
    }

    /// A stopwatch that starts now, at zero.
    pub fn start() -> (w: Self)
        ensures
            w.reading() == 0,
    {
        Stopwatch { origin: instant_now(), last: 0 }
    }

    /// The latest reading.
    pub fn last(&self) -> (t: u64)
        ensures
            t == self.reading(),
    {
        self.last
    }

    /// Reads the clock. The reading is never less than the one before.
    pub fn read(&mut self) -> (now: u64)
        ensures
            now >= old(self).reading(),
            final(self).reading() == now,
    {
        let gone = elapsed_since(&self.origin);
        let now = next_reading(self.last, whole_nanos(&gone));
        self.last = now;
        now
    }
}

} // verus!
