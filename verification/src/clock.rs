//! The wall clock and the stopwatch.

use std::time::{Instant, SystemTime};

use vstd::prelude::*;

use crate::types::Timestamp;

verus! {

/// A moment of the wall clock.
#[verifier::external_type_specification]
#[verifier::external_body]
pub struct ExSystemTime(SystemTime);

/// A moment of the stopwatch.
#[verifier::external_type_specification]
#[verifier::external_body]
pub struct ExInstant(Instant);

/// `SystemTime::now` reads the wall clock. Nothing is claimed of the moment.
pub assume_specification[ SystemTime::now ]() -> SystemTime;

/// `Instant::now` reads the stopwatch. Nothing is claimed of the moment.
pub assume_specification[ Instant::now ]() -> Instant;

/// Calls `SystemTime::duration_since` with the Unix epoch, and hands back whole seconds, zero for
/// a moment before it. Nothing is claimed of the number.
#[verifier::external_body]
fn epoch_seconds(t: SystemTime) -> u64 {
    t.duration_since(std::time::UNIX_EPOCH).unwrap_or_default().as_secs()
}

/// Calls `Instant::elapsed`, and hands back whole microseconds. Nothing is claimed of the number.
#[verifier::external_body]
fn elapsed_micros(t: Instant) -> u128 {
    t.elapsed().as_micros()
}

/// The present time in seconds since the Unix epoch.
pub fn now() -> Timestamp {
    #[verifier::truncate]
    let seconds: i64 = epoch_seconds(SystemTime::now()) as i64;
    seconds
}

/// Microseconds since a moment of the stopwatch.
pub fn micros_since(start: Instant) -> u64 {
    #[verifier::truncate]
    let micros: u64 = elapsed_micros(start) as u64;
    micros
}

/// Milliseconds since a moment of the stopwatch.
pub fn millis_since(start: Instant) -> u64 {
    #[verifier::truncate]
    let millis: u64 = (elapsed_micros(start) / 1000) as u64;
    millis
}

} // verus!
