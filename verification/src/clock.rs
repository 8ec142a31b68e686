//! Reading today's date from the system clock, as a day number from the
//! start of the era, without failing on a clock that is set before 1970 or
//! beyond the calendar.

use vstd::prelude::*;
use crate::views::{day_from_ce_of_timestamp, utc_day_of};

verus! {

/// std's `SystemTime`.
#[verifier::external_type_specification]
#[verifier::external_body]
pub struct ExSystemTime(std::time::SystemTime);

/// std's `SystemTimeError`.
#[verifier::external_type_specification]
#[verifier::external_body]
pub struct ExSystemTimeError(std::time::SystemTimeError);

/// std's `SystemTime::now()`: the system clock's current reading. It depends
/// on the clock, so nothing is claimed of it.
#[verifier::external_body]
fn clock_now() -> std::time::SystemTime {
    std::time::SystemTime::now()
}

/// std's `SystemTime::duration_since(UNIX_EPOCH)`: how long after the Unix
/// epoch `t` lies, or, as the error, a `SystemTimeError` when `t` lies before
/// it. Nothing is claimed of the values: `SystemTime` is opaque here.
#[verifier::external_body]
fn since_unix_epoch(t: &std::time::SystemTime) -> std::result::Result<
    core::time::Duration,
    std::time::SystemTimeError,
> {
    t.duration_since(std::time::UNIX_EPOCH)
}

/// std's `SystemTimeError::duration`: how long before the Unix epoch the
/// moment lies. Nothing is claimed of it.
#[verifier::external_body]
fn error_duration(e: &std::time::SystemTimeError) -> core::time::Duration {
    e.duration()
}

/// std's `Duration::as_secs`: the whole seconds of the span. Nothing is
/// claimed of it: `Duration` is opaque here.
#[verifier::external_body]
fn whole_seconds(d: &core::time::Duration) -> u64 {
    d.as_secs()
}

/// std's `Duration::subsec_nanos`: the nanoseconds beyond the whole
/// seconds, which std documents as always less than one billion.
#[verifier::external_body]
fn subsecond_nanos(d: &core::time::Duration) -> (n: u32)
    ensures
        n < 1_000_000_000,
{
    d.subsec_nanos()
}

/// The second, counted from the Unix epoch, in which a moment falls that lies
/// `secs` seconds and `nanos` nanoseconds after the epoch (`after`) or
/// before it: the whole seconds after it, or their negation before it, one
/// further back when the moment is not on a whole second.
pub open spec fn epoch_second_of(after: bool, secs: u64, nanos: u32) -> int {
    if after {
        secs as int
    } else if nanos == 0 {
        -(secs as int)
    } else {
        -(secs as int) - 1
    }
}

/// The second from the Unix epoch in which the moment falls, when it fits in
/// an `i64`.
pub fn epoch_second(after: bool, secs: u64, nanos: u32) -> (r: Option<i64>)
    ensures
        r == (if i64::MIN <= epoch_second_of(after, secs, nanos) <= i64::MAX {
            Some(epoch_second_of(after, secs, nanos) as i64)
        } else {
            None
        }),
{
    if secs > i64::MAX as u64 {
        if !after && nanos == 0 && secs == i64::MAX as u64 + 1 {
            return Some(i64::MIN);
        }
        return None;
    }
    let whole: i64 = secs as i64;
    if after {
        Some(whole)
    } else if nanos == 0 {
        Some(-whole)
    } else {
        Some(-whole - 1)
    }
}

/// The day (from January 1 of year 1, day 1) of a clock reading `secs`
/// seconds and `nanos` nanoseconds after the Unix epoch (`after`) or before
/// it; none when its second does not fit in an `i64` or its day lies outside
/// the calendar.
pub open spec fn reading_day(after: bool, secs: u64, nanos: u32) -> Option<i32> {
    if i64::MIN <= epoch_second_of(after, secs, nanos) <= i64::MAX {
        utc_day_of(epoch_second_of(after, secs, nanos) as i64)
    } else {
        None
    }
}

/// The day of a clock reading.
pub fn day_of_reading(after: bool, secs: u64, nanos: u32) -> (r: Option<i32>)
    ensures
        r == reading_day(after, secs, nanos),
{
    match epoch_second(after, secs, nanos) {
        Some(s) => day_from_ce_of_timestamp(s),
        None => None,
    }
}

/// Today's day number (from January 1 of year 1, day 1) by the system
/// clock; none when the clock reads a moment whose day lies outside the
/// calendar. Which moment the clock reads is not known; the day returned is
/// `reading_day` of that reading, whatever it is.
pub fn today_from_ce() -> (r: Option<i32>)
    ensures
        exists|after: bool, secs: u64, nanos: u32| nanos < 1_000_000_000 && r == #[trigger] reading_day(after, secs, nanos),
{
    let now = clock_now();
    let (after, span) = match since_unix_epoch(&now) {
        Ok(d) => (true, d),
        Err(e) => (false, error_duration(&e)),
    };
    let secs = whole_seconds(&span);
    let nanos = subsecond_nanos(&span);
    day_of_reading(after, secs, nanos)
}

} // verus!
