//! The wall clock, read as Unix milliseconds.

use vstd::prelude::*;

verus! {

/// Something stamped at `stamp` is still fresh at `now` under a time to live
/// of `ttl_ms` milliseconds (times in Unix milliseconds); a clock that runs
/// backwards counts as no time elapsed.
pub open spec fn is_fresh(stamp: i64, now: i64, ttl_ms: int) -> bool {
    let elapsed = now - stamp;
    (if elapsed < 0 { 0 } else { elapsed }) < ttl_ms
}

/// Whether something stamped at `stamp` is still fresh at `now` under a time
/// to live of `ttl_ms` milliseconds.
pub fn fresh_at(stamp: i64, now: i64, ttl_ms: u128) -> (b: bool)
    ensures
        b == is_fresh(stamp, now, ttl_ms as int),
{
    let elapsed: i128 = now as i128 - stamp as i128;
    let waited: i128 = if elapsed < 0 { 0 } else { elapsed };
    (waited as u128) < ttl_ms
}

/// Calls `chrono::Utc::now` and reads it with `timestamp_millis`. The result
/// depends on the time of the call; nothing is stated of it.
#[verifier::external_body]
pub(crate) fn now_millis() -> (t: i64) {
    chrono::Utc::now().timestamp_millis()
}

} // verus!

verus! {

/// The duration that `Duration::from_secs` builds from a number of seconds.
pub uninterp spec fn spec_duration_from_secs(secs: u64) -> core::time::Duration;

/// The whole number of milliseconds that `Duration::as_millis` reads from a
/// duration.
pub uninterp spec fn spec_duration_millis(d: core::time::Duration) -> u128;

/// `Duration::from_secs` builds the same duration from the same number of
/// seconds; the duration is named by `spec_duration_from_secs`, and it holds
/// that number of seconds times a thousand whole milliseconds.
pub assume_specification[ core::time::Duration::from_secs ](secs: u64) -> (d: core::time::Duration)
    ensures
        d == spec_duration_from_secs(secs),
        spec_duration_millis(d) == secs * 1000,
;

/// `Duration::as_millis` reads the whole number of milliseconds of a duration,
/// named by `spec_duration_millis`.
pub assume_specification[ core::time::Duration::as_millis ](d: &core::time::Duration) -> (ms: u128)
    ensures
        ms == spec_duration_millis(*d),
;

} // verus!
