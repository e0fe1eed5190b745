//! Wall-clock time in milliseconds.

use std::time::{Duration, SystemTime};
use vstd::prelude::*;

verus! {

/// A reading of the system clock, opaque here.
#[verifier::external_type_specification]
#[verifier::external_body]
pub struct ExSystemTime(std::time::SystemTime);

/// What `SystemTime::duration_since` gives for a reading against the Unix epoch;
/// none for a reading before it.
pub uninterp spec fn since_epoch(reading: SystemTime) -> Option<Duration>;

/// What `Duration::as_millis` gives for a span.
pub uninterp spec fn whole_millis(span: Duration) -> u128;

/// Calls `SystemTime::now`.  Nothing is claimed of the reading.
#[verifier::external_body]
fn read_clock() -> (reading: SystemTime) {
    SystemTime::now()
}

/// Calls `SystemTime::duration_since` with the Unix epoch.  The outcome depends on
/// the reading alone.
#[verifier::external_body]
fn span_since_epoch(reading: &SystemTime) -> (span: Option<Duration>)
    ensures
        span == since_epoch(*reading),
{
    reading.duration_since(std::time::UNIX_EPOCH).ok()
}

/// Calls `Duration::as_millis`.  The outcome depends on the span alone.
#[verifier::external_body]
fn span_millis(span: &Duration) -> (millis: u128)
    ensures
        millis == whole_millis(*span),
{
    span.as_millis()
}

/// The low 64 bits of a count.
pub fn low_u64(count: u128) -> (low: u64)
    ensures
        low == count as int % 0x1_0000_0000_0000_0000,
{
    (count % 0x1_0000_0000_0000_0000) as u64
}

/// A 64-bit count read as a two's complement number.
pub open spec fn signed(count: u64) -> int {
    if count < 0x8000_0000_0000_0000 {
        count as int
    } else {
        count - 0x1_0000_0000_0000_0000
    }
}

/// Reads a 64-bit count as a two's complement number.
pub fn to_signed(count: u64) -> (value: i64)
    ensures
        value == signed(count),
{
    if count < 0x8000_0000_0000_0000 {
        count as i64
    } else {
        -((u64::MAX - count) as i64) - 1
    }
}

/// The Unix time of a reading in milliseconds, modulo `2^64`.
pub open spec fn unix_ms(reading: SystemTime) -> Option<u64> {
    match since_epoch(reading) {
        Some(span) => Some((whole_millis(span) as int % 0x1_0000_0000_0000_0000) as u64),
        None => None,
    }
}

/// The Unix time of a reading in milliseconds; none for a reading before the epoch.
pub fn reading_ms(reading: &SystemTime) -> (ms: Option<u64>)
    ensures
        ms == unix_ms(*reading),
{
    match span_since_epoch(reading) {
        Some(span) => Some(low_u64(span_millis(&span))),
        None => None,
    }
}

/// The current Unix time in milliseconds; none when the clock is set before the epoch.
pub fn current_time_ms_u64() -> (ms: Option<u64>)
    ensures
        exists|reading: SystemTime| ms == #[trigger] unix_ms(reading),
{
    let reading = read_clock();
    reading_ms(&reading)
}

} // verus!
