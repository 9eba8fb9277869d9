//! Mapping timestamps (seconds since the Unix epoch, UTC) to hour and day
//! boundaries, and the reporting periods built from them.

use vstd::prelude::*;
use crate::types::TimePeriod;

verus! {

pub const SECS_PER_HOUR: i64 = 3600;

pub const SECS_PER_DAY: i64 = 86400;

/// Bound on timestamps, a whole number of days: every difference of two
/// timestamps, and every bucket boundary of one, fits in an `i64`.
pub const TIMESTAMP_LIMIT: i64 = 4_611_686_018_427_360_000;

/// A timestamp inside the range the library computes with.
pub open spec fn valid_timestamp(t: int) -> bool {
    -TIMESTAMP_LIMIT <= t < TIMESTAMP_LIMIT
}

/// Start of the hour that holds `t`.
pub open spec fn hour_floor(t: int) -> int {
    t - t % (SECS_PER_HOUR as int)
}

/// Start of the (UTC) day that holds `t`.
pub open spec fn day_floor(t: int) -> int {
    t - t % (SECS_PER_DAY as int)
}

fn floor_to(t: i64, width: i64) -> (r: i64)
    requires
        valid_timestamp(t as int),
        width == SECS_PER_HOUR || width == SECS_PER_DAY,
    ensures
        r == t - t % width,
        r <= t < r + width,
        r % width == 0,
        valid_timestamp(r as int),
{
    let rem: i64 = t % width;
    if rem < 0 {
        t - rem - width
    } else {
        t - rem
    }
}

/// The hour boundary at or before `t`.
pub fn hour_start(t: i64) -> (r: i64)
    requires
        valid_timestamp(t as int),
    ensures
        r == hour_floor(t as int),
        r <= t < r + SECS_PER_HOUR,
        valid_timestamp(r as int),
{
    floor_to(t, SECS_PER_HOUR)
}

/// The day boundary at or before `t`.
pub fn day_start(t: i64) -> (r: i64)
    requires
        valid_timestamp(t as int),
    ensures
        r == day_floor(t as int),
        r <= t < r + SECS_PER_DAY,
        valid_timestamp(r as int),
{
    floor_to(t, SECS_PER_DAY)
}

} // verus!

verus! {

/// The half-open range `[start, end)` that `period` covers when the time is `now`.
pub open spec fn period_range(period: TimePeriod, now: int) -> (int, int) {
    match period {
        TimePeriod::Today => (day_floor(now), day_floor(now) + SECS_PER_DAY),
        TimePeriod::LastCompletedHour => (hour_floor(now) - SECS_PER_HOUR, hour_floor(now)),
        TimePeriod::CurrentHour => (hour_floor(now), now + 1),
    }
}

/// Start (inclusive) and end (exclusive) of `period` when the time is `now`.
pub fn calculate_timestamps(period: TimePeriod, now: i64) -> (r: (i64, i64))
    requires
        valid_timestamp(now as int),
    ensures
        (r.0 as int, r.1 as int) == period_range(period, now as int),
        r.0 < r.1,
        -TIMESTAMP_LIMIT - SECS_PER_HOUR <= r.0,
        r.1 <= TIMESTAMP_LIMIT + SECS_PER_DAY,
{
    match period {
        TimePeriod::Today => {
            let start = day_start(now);
            (start, start + SECS_PER_DAY)
        },
        TimePeriod::LastCompletedHour => {
            let end = hour_start(now);
            (end - SECS_PER_HOUR, end)
        },
        TimePeriod::CurrentHour => (hour_start(now), now + 1),
    }
}

} // verus!
