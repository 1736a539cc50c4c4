//! Readings of the machine's clocks.

use std::time::{Duration, Instant, SystemTime, UNIX_EPOCH};
use vstd::prelude::*;

verus! {

/// A point on the machine's monotonic clock.
#[verifier::external_type_specification]
#[verifier::external_body]
pub struct ExInstant(std::time::Instant);

/// A point on the machine's wall clock.
#[verifier::external_type_specification]
#[verifier::external_body]
pub struct ExSystemTime(std::time::SystemTime);

/// `SystemTime::now`. Nothing is claimed of the reading.
#[verifier::external_body]
fn wall_now() -> SystemTime {
    SystemTime::now()
}

/// `SystemTime::duration_since` the Unix epoch, no time where the clock stands before it. Nothing
/// is claimed of the span.
#[verifier::external_body]
fn since_epoch(t: &SystemTime) -> Duration {
    t.duration_since(UNIX_EPOCH).unwrap_or_default()
}

/// `Instant::now`. Nothing is claimed of the reading.
#[verifier::external_body]
pub(crate) fn monotonic_now() -> Instant {
    Instant::now()
}

/// `Instant::elapsed`. Nothing is claimed of the span.
#[verifier::external_body]
fn elapsed(start: &Instant) -> Duration {
    start.elapsed()
}

/// `Duration::as_micros`. Nothing is claimed of the number: the span that it is of is a reading.
#[verifier::external_body]
fn whole_micros(d: &Duration) -> u128 {
    d.as_micros()
}

/// The microseconds since the Unix epoch by the machine's wall clock, in 64 bits.
pub(crate) fn unix_micros() -> u64 {
    low_bits(whole_micros(&since_epoch(&wall_now())))
}

/// The microseconds that have passed since `start`, in 64 bits.
pub(crate) fn micros_since(start: &Instant) -> u64 {
    low_bits(whole_micros(&elapsed(start)))
}

/// The low 64 bits of a count of microseconds.
fn low_bits(micros: u128) -> (r: u64)
    ensures
        r as int == micros as int % 0x1_0000_0000_0000_0000,
{
    proof {
        assert(micros as u64 == micros % 0x1_0000_0000_0000_0000u128) by (bit_vector);
    }
    micros as u64
}

} // verus!
