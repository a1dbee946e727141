//! The wall clock.

use vstd::prelude::*;
use core::time::Duration;
use std::time::{SystemTime, UNIX_EPOCH};

verus! {

#[verifier::external_type_specification]
#[verifier::external_body]
pub struct ExSystemTime(std::time::SystemTime);

/// Calls `SystemTime::now`: the machine's current time. It depends on the
/// clock, so nothing is stated of it.
#[verifier::external_body]
fn system_now() -> SystemTime {
    SystemTime::now()
}

/// Calls `SystemTime::duration_since` with the Unix epoch: the time elapsed
/// since the epoch, or `None` when the time lies before it (std returns an
/// error there). The time is opaque here, so nothing more is stated.
#[verifier::external_body]
fn elapsed_since_epoch(t: &SystemTime) -> Option<Duration> {
    t.duration_since(UNIX_EPOCH).ok()
}

/// Calls `Duration::as_secs`: the whole seconds of a duration. The duration
/// is opaque here, so nothing is stated of the result.
#[verifier::external_body]
fn duration_secs(d: &Duration) -> u64 {
    d.as_secs()
}

/// Calls `Duration::as_micros`: the whole microseconds of a duration. The
/// duration is opaque here, so nothing is stated of the result.
#[verifier::external_body]
fn duration_micros(d: &Duration) -> u128 {
    d.as_micros()
}

/// The current time in microseconds since the Unix epoch; a clock set
/// before the epoch reads as 0 (and one beyond `i64::MAX` microseconds as
/// `i64::MAX`).
pub(crate) fn unix_micros_now() -> (r: i64)
    ensures
        r >= 0,
{
    let now = system_now();
    match elapsed_since_epoch(&now) {
        Some(d) => {
            let micros = duration_micros(&d);
            if micros > 9_223_372_036_854_775_807u128 { 9_223_372_036_854_775_807i64 } else { micros as i64 }
        },
        None => 0,
    }
}

/// The current time in whole seconds since the Unix epoch; a clock set
/// before the epoch reads as 0 (and one beyond `i64::MAX` seconds as
/// `i64::MAX`).
pub(crate) fn unix_seconds_now() -> (r: i64)
    ensures
        r >= 0,
{
    let now = system_now();
    match elapsed_since_epoch(&now) {
        Some(d) => {
            let secs = duration_secs(&d);
            if secs > 9_223_372_036_854_775_807u64 { 9_223_372_036_854_775_807i64 } else { secs as i64 }
        },
        None => 0,
    }
}

} // verus!
