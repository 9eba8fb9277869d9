//! The statistics query engine: usage totals per application (or per
//! application and title) over a reporting period, from the summary tables
//! plus the raw intervals not yet rolled up.

use vstd::prelude::*;
use vstd::arithmetic::div_mod::{lemma_div_is_ordered, lemma_fundamental_div_mod};
use crate::rollup::{
    aggregable, day_key_fn, hour_key_fn, kept_pred, recent, retire_cutoff, retired_app_day, rolled_sum,
    rolled_weight, rollup_result, app_day_abs, app_day_abs_total, app_day_abs_weight, app_day_sum, app_day_weight, magnitude,
    summary_abs, summary_abs_total, summary_abs_weight, summary_sum, summary_weight,
    upsert_summary, lemma_has_summary_key_push, lemma_summary_row_within_abs,
};
use crate::store::{
    app_day_key, has_summary_key, summary_key, summary_keys_unique, AppDayKey, AppDayRow,
    Interval, IntervalStore, StoreError, StoreView, SummaryKey, SummaryRow,
};
use crate::sums::{
    lemma_sum_add, lemma_sum_ext, lemma_sum_filter, lemma_sum_zero, lemma_sum_nonneg, lemma_sum_prefix_le, lemma_sum_push, lemma_sum_take_all,
    lemma_sum_take_step, sum_of,
};
use crate::time_bucket::{
    day_floor, hour_floor, calculate_timestamps, period_range, valid_timestamp, SECS_PER_DAY,
    SECS_PER_HOUR, TIMESTAMP_LIMIT,
};
use crate::types::{AggregatedResult, AggregationLevel, DetailedUsageRecord, TimePeriod};

verus! {

/// The title a report groups by: none (empty) per application, the window
/// title in detail.
pub open spec fn level_title(level: AggregationLevel, title: Seq<char>) -> Seq<char> {
    if level == AggregationLevel::ByApplication { Seq::empty() } else { title }
}

/// Report key of a summary row's key: `(application, grouping title, 0)`.
pub open spec fn report_key(level: AggregationLevel, k: SummaryKey) -> SummaryKey {
    (k.0, level_title(level, k.1), 0)
}

/// Rows of a summary table that count for the period `[start, end)` and
/// whose report key satisfies `p`.
pub open spec fn lift(p: spec_fn(SummaryKey) -> bool, level: AggregationLevel, start: int, end: int) -> spec_fn(SummaryKey) -> bool {
    |k: SummaryKey| start <= k.2 < end && p(report_key(level, k))
}

/// Long-term rows that count for the period, by application only.
pub open spec fn lift_app_day(p: spec_fn(SummaryKey) -> bool, start: int, end: int) -> spec_fn(AppDayKey) -> bool {
    |k: AppDayKey| start <= k.1 < end && p((k.0, Seq::<char>::empty(), 0))
}

/// Seconds of the interval inside `[start, end)`, an open interval counting
/// up to `now`.
pub open spec fn overlap(iv: Interval, start: int, end: int, now: int) -> int {
    let s = if iv.start_time as int > start { iv.start_time as int } else { start };
    let stop = match iv.end_time {
        Some(e) => e as int,
        None => now,
    };
    let e = if stop < end { stop } else { end };
    if s < e { e - s } else { 0 }
}

pub open spec fn interval_report_key(level: AggregationLevel, iv: Interval) -> SummaryKey {
    (iv.app_name@, level_title(level, iv.detailed_title@), 0)
}

pub open spec fn overlap_weight(
    p: spec_fn(SummaryKey) -> bool,
    level: AggregationLevel,
    start: int,
    end: int,
    now: int,
) -> spec_fn(Interval) -> int {
    |iv: Interval| if p(interval_report_key(level, iv)) { overlap(iv, start, end, now) } else { 0 }
}

pub open spec fn overlap_total_weight(start: int, end: int, now: int) -> spec_fn(Interval) -> int {
    |iv: Interval| overlap(iv, start, end, now)
}

/// Whether some summary row inside the period has report key `k`.
pub open spec fn has_lifted(rows: Seq<SummaryRow>, level: AggregationLevel, start: int, end: int, k: SummaryKey) -> bool {
    exists|i: int| 0 <= i < rows.len() && start <= (#[trigger] rows[i]).bucket_start < end
        && report_key(level, summary_key(rows[i])) == k
}

pub open spec fn has_lifted_app_day(rows: Seq<AppDayRow>, start: int, end: int, k: SummaryKey) -> bool {
    exists|i: int| 0 <= i < rows.len() && start <= (#[trigger] rows[i]).day_timestamp < end
        && (rows[i].app_name@, Seq::<char>::empty(), 0int) == k
}

pub open spec fn has_overlapping(rows: Seq<Interval>, level: AggregationLevel, start: int, end: int, now: int, k: SummaryKey) -> bool {
    exists|i: int| 0 <= i < rows.len() && overlap(#[trigger] rows[i], start, end, now) > 0
        && interval_report_key(level, rows[i]) == k
}

/// Seconds reported for the period, over the report keys satisfying `p`:
/// today reads the daily rows (and, per application, the long-term rows),
/// an hour reads the hourly rows; to these come the overlaps of the raw
/// intervals with the period.
pub open spec fn report_sum(s: StoreView, period: TimePeriod, level: AggregationLevel, now: int, p: spec_fn(SummaryKey) -> bool) -> int {
    let (start, end) = period_range(period, now);
    let summaries = if period == TimePeriod::Today {
        summary_sum(s.daily, lift(p, level, start, end)) + if level == AggregationLevel::ByApplication {
            app_day_sum(s.historical, lift_app_day(p, start, end))
        } else {
            0
        }
    } else {
        summary_sum(s.hourly, lift(p, level, start, end))
    };
    summaries + sum_of(s.intervals, overlap_weight(p, level, start, end, now))
}

/// Seconds reported for one application (`title` empty) or one application
/// and title.
pub open spec fn report_total(s: StoreView, period: TimePeriod, level: AggregationLevel, now: int, app: Seq<char>, title: Seq<char>) -> int {
    report_sum(s, period, level, now, |k: SummaryKey| k == (app, title, 0int))
}

/// Whether the report has a row for key `k`: some summary row of the
/// period, or some raw interval overlapping it, has that key.
pub open spec fn report_has(s: StoreView, period: TimePeriod, level: AggregationLevel, now: int, k: SummaryKey) -> bool {
    let (start, end) = period_range(period, now);
    ||| (period == TimePeriod::Today && has_lifted(s.daily, level, start, end, k))
    ||| (period == TimePeriod::Today && level == AggregationLevel::ByApplication && has_lifted_app_day(s.historical, start, end, k))
    ||| (period != TimePeriod::Today && has_lifted(s.hourly, level, start, end, k))
    ||| has_overlapping(s.intervals, level, start, end, now, k)
}

/// Bound on every sum the query forms; the query answers while it fits.
pub open spec fn report_magnitude(s: StoreView, period: TimePeriod, level: AggregationLevel, now: int) -> int {
    let (start, end) = period_range(period, now);
    let summaries = if period == TimePeriod::Today {
        summary_abs(s.daily) + if level == AggregationLevel::ByApplication { app_day_abs(s.historical) } else { 0 }
    } else {
        summary_abs(s.hourly)
    };
    summaries + sum_of(s.intervals, overlap_total_weight(start, end, now))
}

/// Adds the rows of `rows` inside `[start, end)` into the accumulator, under
/// their report keys.
fn add_summary_rows(acc: &mut Vec<SummaryRow>, rows: &Vec<SummaryRow>, level: AggregationLevel, start: i64, end: i64)
    requires
        summary_keys_unique(old(acc)@),
        forall|i: int| 0 <= i < old(acc)@.len() ==> (#[trigger] old(acc)@[i]).bucket_start == 0,
        summary_abs(old(acc)@) + summary_abs(rows@) <= i64::MAX,
    ensures
        summary_keys_unique(final(acc)@),
        forall|i: int| 0 <= i < final(acc)@.len() ==> (#[trigger] final(acc)@[i]).bucket_start == 0,
        forall|p: spec_fn(SummaryKey) -> bool| #[trigger] summary_sum(final(acc)@, p)
            == summary_sum(old(acc)@, p) + summary_sum(rows@, lift(p, level, start as int, end as int)),
        forall|k: SummaryKey| #[trigger] has_summary_key(final(acc)@, k)
            <==> (has_summary_key(old(acc)@, k) || has_lifted(rows@, level, start as int, end as int, k)),
        summary_abs(final(acc)@) <= summary_abs(old(acc)@) + summary_abs(rows@),
{
    let ghost a0 = acc@;
    let mut j: usize = 0;
    proof {
        assert(rows@.take(0) =~= Seq::<SummaryRow>::empty());
        assert forall|k: int| 0 <= k < rows@.len() implies #[trigger] summary_abs_weight()(rows@[k]) >= 0 by {}
    }
    while j < rows.len()
        invariant
            0 <= j <= rows@.len(),
            summary_keys_unique(acc@),
            forall|i: int| 0 <= i < acc@.len() ==> (#[trigger] acc@[i]).bucket_start == 0,
            summary_abs(a0) + summary_abs(rows@) <= i64::MAX,
            forall|k: int| 0 <= k < rows@.len() ==> #[trigger] summary_abs_weight()(rows@[k]) >= 0,
            forall|p: spec_fn(SummaryKey) -> bool| #[trigger] summary_sum(acc@, p)
                == summary_sum(a0, p) + summary_sum(rows@.take(j as int), lift(p, level, start as int, end as int)),
            forall|k: SummaryKey| #[trigger] has_summary_key(acc@, k)
                <==> (has_summary_key(a0, k) || has_lifted(rows@.take(j as int), level, start as int, end as int, k)),
            summary_abs(acc@) <= summary_abs(a0) + summary_abs(rows@.take(j as int)),
        decreases rows@.len() - j,
    {
        let ghost prev = acc@;
        let ghost row = rows@[j as int];
        let ghost pre = rows@.take(j as int);
        proof {
            assert(rows@.take(j + 1) == pre.push(row)) by {
                assert(rows@.take(j + 1) =~= pre.push(row));
            }
            lemma_sum_take_step(rows@, j as int, summary_abs_weight());
            lemma_sum_prefix_le(rows@, j + 1, summary_abs_weight());
        }
        let r = &rows[j];
        let inside = start <= r.bucket_start && r.bucket_start < end;
        if inside {
            let title = match level {
                AggregationLevel::ByApplication => String::new(),
                AggregationLevel::Detailed => r.detailed_title.clone(),
            };
            proof {
                assert(summary_abs_weight()(row) == magnitude(row.total_duration_secs as int));
                assert forall|x: int| 0 <= x < prev.len() && summary_key(#[trigger] prev[x]) == (r.app_name@, title@, 0int)
                    implies i64::MIN <= prev[x].total_duration_secs + r.total_duration_secs <= i64::MAX by {
                    lemma_summary_row_within_abs(prev, x);
                }
            }
            upsert_summary(acc, &r.app_name, &title, 0, r.total_duration_secs);
            proof {
                assert(report_key(level, summary_key(row)) == (r.app_name@, title@, 0int));
                assert forall|i: int| 0 <= i < acc@.len() implies (#[trigger] acc@[i]).bucket_start == 0 by {
                    if !has_summary_key(prev, summary_key(acc@[i])) {
                        assert(has_summary_key(acc@, summary_key(acc@[i])));
                    } else {
                        let x = choose|x: int| 0 <= x < prev.len() && summary_key(#[trigger] prev[x]) == summary_key(acc@[i]);
                        assert(prev[x].bucket_start == 0);
                    }
                }
            }
        }
        proof {
            assert forall|p: spec_fn(SummaryKey) -> bool| #[trigger] summary_sum(acc@, p)
                == summary_sum(a0, p) + summary_sum(rows@.take(j + 1), lift(p, level, start as int, end as int)) by {
                assert(summary_sum(prev, p) == summary_sum(a0, p) + summary_sum(pre, lift(p, level, start as int, end as int)));
                lemma_sum_push(pre, row, summary_weight(lift(p, level, start as int, end as int)));
            }
            assert forall|k: SummaryKey| #[trigger] has_summary_key(acc@, k)
                <==> (has_summary_key(a0, k) || has_lifted(rows@.take(j + 1), level, start as int, end as int, k)) by {
                assert(has_summary_key(prev, k) <==> (has_summary_key(a0, k) || has_lifted(pre, level, start as int, end as int, k)));
                let cur = rows@.take(j + 1);
                if has_lifted(pre, level, start as int, end as int, k) {
                    let b = choose|b: int| 0 <= b < pre.len() && start <= (#[trigger] pre[b]).bucket_start < end
                        && report_key(level, summary_key(pre[b])) == k;
                    assert(cur[b] == pre[b]);
                }
                if inside && report_key(level, summary_key(row)) == k {
                    assert(cur[j as int] == row);
                }
                if has_lifted(cur, level, start as int, end as int, k) {
                    let b = choose|b: int| 0 <= b < cur.len() && start <= (#[trigger] cur[b]).bucket_start < end
                        && report_key(level, summary_key(cur[b])) == k;
                    if b < j {
                        assert(cur[b] == pre[b]);
                    }
                }
            }
        }
        j += 1;
    }
    proof {
        assert(rows@.take(rows@.len() as int) =~= rows@);
    }
}

/// Adds the long-term rows inside `[start, end)` into the accumulator, per
/// application.
fn add_app_day_rows(acc: &mut Vec<SummaryRow>, rows: &Vec<AppDayRow>, start: i64, end: i64)
    requires
        summary_keys_unique(old(acc)@),
        forall|i: int| 0 <= i < old(acc)@.len() ==> (#[trigger] old(acc)@[i]).bucket_start == 0,
        summary_abs(old(acc)@) + app_day_abs(rows@) <= i64::MAX,
    ensures
        summary_keys_unique(final(acc)@),
        forall|i: int| 0 <= i < final(acc)@.len() ==> (#[trigger] final(acc)@[i]).bucket_start == 0,
        forall|p: spec_fn(SummaryKey) -> bool| #[trigger] summary_sum(final(acc)@, p)
            == summary_sum(old(acc)@, p) + app_day_sum(rows@, lift_app_day(p, start as int, end as int)),
        forall|k: SummaryKey| #[trigger] has_summary_key(final(acc)@, k)
            <==> (has_summary_key(old(acc)@, k) || has_lifted_app_day(rows@, start as int, end as int, k)),
        summary_abs(final(acc)@) <= summary_abs(old(acc)@) + app_day_abs(rows@),
{
    let ghost a0 = acc@;
    let mut j: usize = 0;
    proof {
        assert(rows@.take(0) =~= Seq::<AppDayRow>::empty());
        assert forall|k: int| 0 <= k < rows@.len() implies #[trigger] app_day_abs_weight()(rows@[k]) >= 0 by {}
    }
    while j < rows.len()
        invariant
            0 <= j <= rows@.len(),
            summary_keys_unique(acc@),
            forall|i: int| 0 <= i < acc@.len() ==> (#[trigger] acc@[i]).bucket_start == 0,
            summary_abs(a0) + app_day_abs(rows@) <= i64::MAX,
            forall|k: int| 0 <= k < rows@.len() ==> #[trigger] app_day_abs_weight()(rows@[k]) >= 0,
            forall|p: spec_fn(SummaryKey) -> bool| #[trigger] summary_sum(acc@, p)
                == summary_sum(a0, p) + app_day_sum(rows@.take(j as int), lift_app_day(p, start as int, end as int)),
            forall|k: SummaryKey| #[trigger] has_summary_key(acc@, k)
                <==> (has_summary_key(a0, k) || has_lifted_app_day(rows@.take(j as int), start as int, end as int, k)),
            summary_abs(acc@) <= summary_abs(a0) + app_day_abs(rows@.take(j as int)),
        decreases rows@.len() - j,
    {
        let ghost prev = acc@;
        let ghost row = rows@[j as int];
        let ghost pre = rows@.take(j as int);
        proof {
            assert(rows@.take(j + 1) == pre.push(row)) by {
                assert(rows@.take(j + 1) =~= pre.push(row));
            }
            lemma_sum_take_step(rows@, j as int, app_day_abs_weight());
            lemma_sum_prefix_le(rows@, j + 1, app_day_abs_weight());
        }
        let r = &rows[j];
        let inside = start <= r.day_timestamp && r.day_timestamp < end;
        if inside {
            let title = String::new();
            proof {
                assert(app_day_abs_weight()(row) == magnitude(row.total_duration_secs as int));
                assert forall|x: int| 0 <= x < prev.len() && summary_key(#[trigger] prev[x]) == (r.app_name@, title@, 0int)
                    implies i64::MIN <= prev[x].total_duration_secs + r.total_duration_secs <= i64::MAX by {
                    lemma_summary_row_within_abs(prev, x);
                }
            }
            upsert_summary(acc, &r.app_name, &title, 0, r.total_duration_secs);
            proof {
                assert forall|i: int| 0 <= i < acc@.len() implies (#[trigger] acc@[i]).bucket_start == 0 by {
                    if !has_summary_key(prev, summary_key(acc@[i])) {
                        assert(has_summary_key(acc@, summary_key(acc@[i])));
                    } else {
                        let x = choose|x: int| 0 <= x < prev.len() && summary_key(#[trigger] prev[x]) == summary_key(acc@[i]);
                        assert(prev[x].bucket_start == 0);
                    }
                }
            }
        }
        proof {
            assert forall|p: spec_fn(SummaryKey) -> bool| #[trigger] summary_sum(acc@, p)
                == summary_sum(a0, p) + app_day_sum(rows@.take(j + 1), lift_app_day(p, start as int, end as int)) by {
                assert(summary_sum(prev, p) == summary_sum(a0, p) + app_day_sum(pre, lift_app_day(p, start as int, end as int)));
                lemma_sum_push(pre, row, app_day_weight(lift_app_day(p, start as int, end as int)));
            }
            assert forall|k: SummaryKey| #[trigger] has_summary_key(acc@, k)
                <==> (has_summary_key(a0, k) || has_lifted_app_day(rows@.take(j + 1), start as int, end as int, k)) by {
                assert(has_summary_key(prev, k) <==> (has_summary_key(a0, k) || has_lifted_app_day(pre, start as int, end as int, k)));
                let cur = rows@.take(j + 1);
                if has_lifted_app_day(pre, start as int, end as int, k) {
                    let b = choose|b: int| 0 <= b < pre.len() && start <= (#[trigger] pre[b]).day_timestamp < end
                        && (pre[b].app_name@, Seq::<char>::empty(), 0int) == k;
                    assert(cur[b] == pre[b]);
                }
                if inside && (row.app_name@, Seq::<char>::empty(), 0int) == k {
                    assert(cur[j as int] == row);
                }
                if has_lifted_app_day(cur, start as int, end as int, k) {
                    let b = choose|b: int| 0 <= b < cur.len() && start <= (#[trigger] cur[b]).day_timestamp < end
                        && (cur[b].app_name@, Seq::<char>::empty(), 0int) == k;
                    if b < j {
                        assert(cur[b] == pre[b]);
                    }
                }
            }
        }
        j += 1;
    }
    proof {
        assert(rows@.take(rows@.len() as int) =~= rows@);
    }
}

/// Seconds of `iv` inside `[start, end)`, an open interval counting up to `now`.
fn interval_overlap(iv: &Interval, start: i64, end: i64, now: i64) -> (r: i64)
    requires
        valid_timestamp(iv.start_time as int),
        iv.end_time matches Some(e) ==> valid_timestamp(e as int),
        valid_timestamp(now as int),
    ensures
        r == overlap(*iv, start as int, end as int, now as int),
        0 <= r,
{
    let s = if iv.start_time > start { iv.start_time } else { start };
    let stop = match iv.end_time {
        Some(e) => e,
        None => now,
    };
    let e = if stop < end { stop } else { end };
    if s < e { e - s } else { 0 }
}

/// Adds each raw interval's overlap with `[start, end)` into the
/// accumulator, under its report key; intervals that do not overlap add no row.
fn add_interval_overlaps(
    acc: &mut Vec<SummaryRow>,
    rows: &Vec<Interval>,
    level: AggregationLevel,
    start: i64,
    end: i64,
    now: i64,
)
    requires
        summary_keys_unique(old(acc)@),
        forall|i: int| 0 <= i < old(acc)@.len() ==> (#[trigger] old(acc)@[i]).bucket_start == 0,
        summary_abs(old(acc)@) + sum_of(rows@, overlap_total_weight(start as int, end as int, now as int)) <= i64::MAX,
        forall|i: int| 0 <= i < rows@.len() ==> (#[trigger] rows@[i]).well_formed(i64::MAX as int + 1),
        valid_timestamp(now as int),
    ensures
        summary_keys_unique(final(acc)@),
        forall|i: int| 0 <= i < final(acc)@.len() ==> (#[trigger] final(acc)@[i]).bucket_start == 0,
        forall|p: spec_fn(SummaryKey) -> bool| #[trigger] summary_sum(final(acc)@, p)
            == summary_sum(old(acc)@, p) + sum_of(rows@, overlap_weight(p, level, start as int, end as int, now as int)),
        forall|k: SummaryKey| #[trigger] has_summary_key(final(acc)@, k)
            <==> (has_summary_key(old(acc)@, k) || has_overlapping(rows@, level, start as int, end as int, now as int, k)),
{
    let ghost a0 = acc@;
    let ghost w = overlap_total_weight(start as int, end as int, now as int);
    let mut j: usize = 0;
    proof {
        assert(rows@.take(0) =~= Seq::<Interval>::empty());
    }
    while j < rows.len()
        invariant
            0 <= j <= rows@.len(),
            summary_keys_unique(acc@),
            forall|i: int| 0 <= i < acc@.len() ==> (#[trigger] acc@[i]).bucket_start == 0,
            w == overlap_total_weight(start as int, end as int, now as int),
            summary_abs(a0) + sum_of(rows@, w) <= i64::MAX,
            forall|i: int| 0 <= i < rows@.len() ==> (#[trigger] rows@[i]).well_formed(i64::MAX as int + 1),
            valid_timestamp(now as int),
            forall|p: spec_fn(SummaryKey) -> bool| #[trigger] summary_sum(acc@, p)
                == summary_sum(a0, p) + sum_of(rows@.take(j as int), overlap_weight(p, level, start as int, end as int, now as int)),
            forall|k: SummaryKey| #[trigger] has_summary_key(acc@, k)
                <==> (has_summary_key(a0, k) || has_overlapping(rows@.take(j as int), level, start as int, end as int, now as int, k)),
            summary_abs(acc@) <= summary_abs(a0) + sum_of(rows@.take(j as int), w),
        decreases rows@.len() - j,
    {
        let ghost prev = acc@;
        let ghost row = rows@[j as int];
        let ghost pre = rows@.take(j as int);
        proof {
            assert(rows@.take(j + 1) == pre.push(row)) by {
                assert(rows@.take(j + 1) =~= pre.push(row));
            }
            assert(row.well_formed(i64::MAX as int + 1));
            assert forall|k: int| 0 <= k < rows@.len() implies #[trigger] w(rows@[k]) >= 0 by {}
            lemma_sum_take_step(rows@, j as int, w);
            lemma_sum_prefix_le(rows@, j + 1, w);
        }
        let r = &rows[j];
        let secs = interval_overlap(r, start, end, now);
        if secs > 0 {
            let title = match level {
                AggregationLevel::ByApplication => String::new(),
                AggregationLevel::Detailed => r.detailed_title.clone(),
            };
            proof {
                assert forall|x: int| 0 <= x < prev.len() && summary_key(#[trigger] prev[x]) == (r.app_name@, title@, 0int)
                    implies i64::MIN <= prev[x].total_duration_secs + secs <= i64::MAX by {
                    lemma_summary_row_within_abs(prev, x);
                }
            }
            upsert_summary(acc, &r.app_name, &title, 0, secs);
            proof {
                assert(interval_report_key(level, row) == (r.app_name@, title@, 0int));
                assert forall|i: int| 0 <= i < acc@.len() implies (#[trigger] acc@[i]).bucket_start == 0 by {
                    if !has_summary_key(prev, summary_key(acc@[i])) {
                        assert(has_summary_key(acc@, summary_key(acc@[i])));
                    } else {
                        let x = choose|x: int| 0 <= x < prev.len() && summary_key(#[trigger] prev[x]) == summary_key(acc@[i]);
                        assert(prev[x].bucket_start == 0);
                    }
                }
            }
        }
        proof {
            assert forall|p: spec_fn(SummaryKey) -> bool| #[trigger] summary_sum(acc@, p)
                == summary_sum(a0, p) + sum_of(rows@.take(j + 1), overlap_weight(p, level, start as int, end as int, now as int)) by {
                assert(summary_sum(prev, p) == summary_sum(a0, p) + sum_of(pre, overlap_weight(p, level, start as int, end as int, now as int)));
                lemma_sum_push(pre, row, overlap_weight(p, level, start as int, end as int, now as int));
            }
            assert forall|k: SummaryKey| #[trigger] has_summary_key(acc@, k)
                <==> (has_summary_key(a0, k) || has_overlapping(rows@.take(j + 1), level, start as int, end as int, now as int, k)) by {
                assert(has_summary_key(prev, k) <==> (has_summary_key(a0, k) || has_overlapping(pre, level, start as int, end as int, now as int, k)));
                let cur = rows@.take(j + 1);
                if has_overlapping(pre, level, start as int, end as int, now as int, k) {
                    let b = choose|b: int| 0 <= b < pre.len() && overlap(#[trigger] pre[b], start as int, end as int, now as int) > 0
                        && interval_report_key(level, pre[b]) == k;
                    assert(cur[b] == pre[b]);
                }
                if secs > 0 && interval_report_key(level, row) == k {
                    assert(cur[j as int] == row);
                }
                if has_overlapping(cur, level, start as int, end as int, now as int, k) {
                    let b = choose|b: int| 0 <= b < cur.len() && overlap(#[trigger] cur[b], start as int, end as int, now as int) > 0
                        && interval_report_key(level, cur[b]) == k;
                    if b < j {
                        assert(cur[b] == pre[b]);
                    }
                }
            }
        }
        j += 1;
    }
    proof {
        assert(rows@.take(rows@.len() as int) =~= rows@);
    }
}

fn overlap_total(rows: &Vec<Interval>, start: i64, end: i64, now: i64) -> (r: Option<i128>)
    requires
        forall|i: int| 0 <= i < rows@.len() ==> (#[trigger] rows@[i]).well_formed(i64::MAX as int + 1),
        valid_timestamp(now as int),
    ensures
        r matches Some(v) ==> v == sum_of(rows@, overlap_total_weight(start as int, end as int, now as int)) && 0 <= v <= i64::MAX,
        r is None ==> sum_of(rows@, overlap_total_weight(start as int, end as int, now as int)) > i64::MAX,
{
    let ghost w = overlap_total_weight(start as int, end as int, now as int);
    let mut acc: i128 = 0;
    let mut i: usize = 0;
    while i < rows.len()
        invariant
            0 <= i <= rows@.len(),
            forall|k: int| 0 <= k < rows@.len() ==> (#[trigger] rows@[k]).well_formed(i64::MAX as int + 1),
            valid_timestamp(now as int),
            w == overlap_total_weight(start as int, end as int, now as int),
            acc == sum_of(rows@.take(i as int), w),
            0 <= acc <= i64::MAX,
        decreases rows@.len() - i,
    {
        proof {
            lemma_sum_take_step(rows@, i as int, w);
            assert(rows@[i as int].well_formed(i64::MAX as int + 1));
        }
        let d = interval_overlap(&rows[i], start, end, now);
        acc = acc + d as i128;
        if acc > i64::MAX as i128 {
            proof {
                assert forall|k: int| 0 <= k < rows@.len() implies #[trigger] w(rows@[k]) >= 0 by {}
                lemma_sum_prefix_le(rows@, i + 1, w);
            }
            return None;
        }
        i += 1;
    }
    proof {
        lemma_sum_take_all(rows@, w);
    }
    Some(acc)
}

pub open spec fn sorted_desc(s: Seq<SummaryRow>) -> bool {
    forall|i: int, j: int| 0 <= i < j < s.len() ==> (#[trigger] s[i]).total_duration_secs >= (#[trigger] s[j]).total_duration_secs
}

proof fn lemma_insert_sorted(prev: Seq<SummaryRow>, pos: int, x: SummaryRow)
    requires
        sorted_desc(prev),
        0 <= pos <= prev.len(),
        forall|i: int| 0 <= i < pos ==> (#[trigger] prev[i]).total_duration_secs >= x.total_duration_secs,
        pos < prev.len() ==> prev[pos].total_duration_secs < x.total_duration_secs,
    ensures
        sorted_desc(prev.insert(pos, x)),
{
    let out = prev.insert(pos, x);
    assert forall|i: int, j: int| 0 <= i < j < out.len() implies
        (#[trigger] out[i]).total_duration_secs >= (#[trigger] out[j]).total_duration_secs by {
        let ti = if i < pos { prev[i].total_duration_secs } else if i == pos { x.total_duration_secs } else { prev[i - 1].total_duration_secs };
        let tj = if j < pos { prev[j].total_duration_secs } else if j == pos { x.total_duration_secs } else { prev[j - 1].total_duration_secs };
        assert(out[i].total_duration_secs == ti);
        assert(out[j].total_duration_secs == tj);
        if i == pos && j > pos {
            if j - 1 > pos {
                assert(prev[pos].total_duration_secs >= prev[j - 1].total_duration_secs);
            }
        }
    }
}

/// `out` holds exactly the first `n` rows of `rows`, each once.
#[verifier::opaque]
pub open spec fn same_rows(out: Seq<SummaryRow>, rows: Seq<SummaryRow>, n: int) -> bool {
    &&& out.len() == n
    &&& forall|i: int| 0 <= i < out.len() ==> exists|j: int| 0 <= j < n && #[trigger] out[i] == rows[j]
    &&& forall|j: int| 0 <= j < n ==> exists|i: int| 0 <= i < out.len() && out[i] == #[trigger] rows[j]
}

proof fn lemma_insert_members(prev: Seq<SummaryRow>, pos: int, x: SummaryRow, rows: Seq<SummaryRow>, n: int)
    requires
        0 <= pos <= prev.len(),
        0 <= n < rows.len(),
        x == rows[n],
        same_rows(prev, rows, n),
        summary_keys_unique(rows),
    ensures
        same_rows(prev.insert(pos, x), rows, n + 1),
        forall|i: int| 0 <= i < prev.len() ==> summary_key(#[trigger] prev[i]) != summary_key(x),
{
    reveal(same_rows);
    let out = prev.insert(pos, x);
    assert forall|i: int| 0 <= i < prev.len() implies summary_key(#[trigger] prev[i]) != summary_key(x) by {
        let j = choose|j: int| 0 <= j < n && #[trigger] prev[i] == rows[j];
        assert(summary_key(rows[j]) != summary_key(rows[n]));
    }
    assert forall|i: int| 0 <= i < out.len() implies exists|j: int| 0 <= j < n + 1 && #[trigger] out[i] == rows[j] by {
        if i < pos {
            assert(out[i] == prev[i]);
        } else if i == pos {
            assert(out[i] == rows[n]);
        } else {
            assert(out[i] == prev[i - 1]);
        }
    }
    assert forall|j: int| 0 <= j < n + 1 implies exists|i: int| 0 <= i < out.len() && out[i] == #[trigger] rows[j] by {
        if j < n {
            let i = choose|i: int| 0 <= i < prev.len() && prev[i] == #[trigger] rows[j];
            if i < pos {
                assert(out[i] == prev[i]);
            } else {
                assert(out[i + 1] == prev[i]);
            }
        } else {
            assert(out[pos] == rows[j]);
        }
    }
}

proof fn lemma_insert_unique(prev: Seq<SummaryRow>, pos: int, x: SummaryRow)
    requires
        0 <= pos <= prev.len(),
        summary_keys_unique(prev),
        forall|i: int| 0 <= i < prev.len() ==> summary_key(#[trigger] prev[i]) != summary_key(x),
    ensures
        summary_keys_unique(prev.insert(pos, x)),
{
    let out = prev.insert(pos, x);
    assert forall|a: int, b: int| 0 <= a < b < out.len() implies summary_key(#[trigger] out[a]) != summary_key(#[trigger] out[b]) by {
        if a < pos && b < pos {
            assert(out[a] == prev[a] && out[b] == prev[b]);
        } else if a < pos && b == pos {
            assert(out[a] == prev[a]);
        } else if a < pos {
            assert(out[a] == prev[a] && out[b] == prev[b - 1]);
        } else if a == pos {
            assert(out[b] == prev[b - 1]);
        } else {
            assert(out[a] == prev[a - 1] && out[b] == prev[b - 1]);
        }
    }
}

proof fn lemma_same_rows_empty(rows: Seq<SummaryRow>)
    ensures
        same_rows(Seq::empty(), rows, 0),
{
    reveal(same_rows);
}

/// The rows ordered by total, largest first; rows of equal total keep their
/// order.
fn sort_by_total_desc(rows: &Vec<SummaryRow>) -> (r: Vec<SummaryRow>)
    requires
        summary_keys_unique(rows@),
    ensures
        same_rows(r@, rows@, rows@.len() as int),
        summary_keys_unique(r@),
        sorted_desc(r@),
{
    let mut out: Vec<SummaryRow> = Vec::new();
    let mut n: usize = 0;
    proof {
        lemma_same_rows_empty(rows@);
        assert(out@ =~= Seq::<SummaryRow>::empty());
    }
    while n < rows.len()
        invariant
            0 <= n <= rows@.len(),
            out@.len() == n,
            same_rows(out@, rows@, n as int),
            summary_keys_unique(rows@),
            summary_keys_unique(out@),
            sorted_desc(out@),
        decreases rows@.len() - n,
    {
        let x = rows[n].duplicate();
        let mut pos: usize = 0;
        while pos < out.len() && out[pos].total_duration_secs >= x.total_duration_secs
            invariant
                0 <= pos <= out@.len(),
                forall|i: int| 0 <= i < pos ==> (#[trigger] out@[i]).total_duration_secs >= x.total_duration_secs,
            decreases out@.len() - pos,
        {
            pos += 1;
        }
        let ghost prev = out@;
        proof {
            lemma_insert_sorted(prev, pos as int, x);
            lemma_insert_members(prev, pos as int, x, rows@, n as int);
            lemma_insert_unique(prev, pos as int, x);
        }
        out.insert(pos, x);
        n += 1;
    }
    out
}

/// The report rows of an application-level result, by key.
pub open spec fn by_app_row_ok(s: StoreView, period: TimePeriod, now: int, v: Seq<(String, i64)>) -> bool {
    let level = AggregationLevel::ByApplication;
    &&& forall|i: int| 0 <= i < v.len() ==>
        (#[trigger] v[i]).1 == report_total(s, period, level, now, v[i].0@, Seq::empty())
    &&& forall|i: int, j: int| 0 <= i < j < v.len() ==> (#[trigger] v[i]).0@ != (#[trigger] v[j]).0@
    &&& forall|app: Seq<char>| (exists|i: int| 0 <= i < v.len() && (#[trigger] v[i]).0@ == app)
        <==> report_has(s, period, level, now, (app, Seq::empty(), 0int))
    &&& forall|i: int, j: int| 0 <= i < j < v.len() ==> (#[trigger] v[i]).1 >= (#[trigger] v[j]).1
}

pub open spec fn detailed_row_ok(s: StoreView, period: TimePeriod, now: int, v: Seq<DetailedUsageRecord>) -> bool {
    let level = AggregationLevel::Detailed;
    &&& forall|i: int| 0 <= i < v.len() ==>
        (#[trigger] v[i]).total_duration_secs == report_total(s, period, level, now, v[i].app_name@, v[i].detailed_title@)
    &&& forall|i: int, j: int| 0 <= i < j < v.len() ==>
        ((#[trigger] v[i]).app_name@, v[i].detailed_title@) != ((#[trigger] v[j]).app_name@, v[j].detailed_title@)
    &&& forall|app: Seq<char>, title: Seq<char>| (exists|i: int| 0 <= i < v.len()
        && (#[trigger] v[i]).app_name@ == app && v[i].detailed_title@ == title)
        <==> report_has(s, period, level, now, (app, title, 0int))
    &&& forall|i: int, j: int| 0 <= i < j < v.len() ==>
        (#[trigger] v[i]).total_duration_secs >= (#[trigger] v[j]).total_duration_secs
}

/// What a successful query returns: one row per report key that has any
/// usage in the period, with that key's total, largest first.
pub open spec fn report_ok(s: StoreView, period: TimePeriod, level: AggregationLevel, now: int, res: AggregatedResult) -> bool {
    match res {
        AggregatedResult::ByApp(v) => level == AggregationLevel::ByApplication && by_app_row_ok(s, period, now, v@),
        AggregatedResult::Detailed(v) => level == AggregationLevel::Detailed && detailed_row_ok(s, period, now, v@),
    }
}

fn to_by_app(rows: &Vec<SummaryRow>) -> (v: Vec<(String, i64)>)
    ensures
        v@.len() == rows@.len(),
        forall|i: int| 0 <= i < v@.len() ==> (#[trigger] v@[i]).0 == rows@[i].app_name && v@[i].1 == rows@[i].total_duration_secs,
{
    let mut v: Vec<(String, i64)> = Vec::new();
    let mut i: usize = 0;
    while i < rows.len()
        invariant
            0 <= i <= rows@.len(),
            v@.len() == i,
            forall|k: int| 0 <= k < i ==> (#[trigger] v@[k]).0 == rows@[k].app_name && v@[k].1 == rows@[k].total_duration_secs,
        decreases rows@.len() - i,
    {
        v.push((rows[i].app_name.clone(), rows[i].total_duration_secs));
        i += 1;
    }
    v
}

fn to_detailed(rows: &Vec<SummaryRow>) -> (v: Vec<DetailedUsageRecord>)
    ensures
        v@.len() == rows@.len(),
        forall|i: int| 0 <= i < v@.len() ==> {
            &&& (#[trigger] v@[i]).app_name == rows@[i].app_name
            &&& v@[i].detailed_title == rows@[i].detailed_title
            &&& v@[i].total_duration_secs == rows@[i].total_duration_secs
        },
{
    let mut v: Vec<DetailedUsageRecord> = Vec::new();
    let mut i: usize = 0;
    while i < rows.len()
        invariant
            0 <= i <= rows@.len(),
            v@.len() == i,
            forall|k: int| 0 <= k < i ==> {
                &&& (#[trigger] v@[k]).app_name == rows@[k].app_name
                &&& v@[k].detailed_title == rows@[k].detailed_title
                &&& v@[k].total_duration_secs == rows@[k].total_duration_secs
            },
        decreases rows@.len() - i,
    {
        v.push(DetailedUsageRecord {
            app_name: rows[i].app_name.clone(),
            detailed_title: rows[i].detailed_title.clone(),
            total_duration_secs: rows[i].total_duration_secs,
        });
        i += 1;
    }
    v
}

/// The accumulated report, as the query's helpers leave it.
pub open spec fn accumulated(acc: Seq<SummaryRow>, s: StoreView, period: TimePeriod, level: AggregationLevel, now: int) -> bool {
    &&& summary_keys_unique(acc)
    &&& forall|p: spec_fn(SummaryKey) -> bool| #[trigger] summary_sum(acc, p) == report_sum(s, period, level, now, p)
    &&& forall|k: SummaryKey| #[trigger] has_summary_key(acc, k) <==> report_has(s, period, level, now, k)
}

proof fn lemma_report_key_shape(acc: Seq<SummaryRow>, s: StoreView, period: TimePeriod, level: AggregationLevel, now: int, j: int)
    requires
        accumulated(acc, s, period, level, now),
        0 <= j < acc.len(),
    ensures
        acc[j].bucket_start == 0,
        level == AggregationLevel::ByApplication ==> acc[j].detailed_title@ == Seq::<char>::empty(),
        acc[j].total_duration_secs == report_total(s, period, level, now, acc[j].app_name@, acc[j].detailed_title@),
{
    let k = summary_key(acc[j]);
    assert(has_summary_key(acc, k));
    assert(report_has(s, period, level, now, k));
    let (start, end) = period_range(period, now);
    if period == TimePeriod::Today && has_lifted(s.daily, level, start, end, k) {
        let i = choose|i: int| 0 <= i < s.daily.len() && start <= (#[trigger] s.daily[i]).bucket_start < end
            && report_key(level, summary_key(s.daily[i])) == k;
    } else if period == TimePeriod::Today && level == AggregationLevel::ByApplication && has_lifted_app_day(s.historical, start, end, k) {
        let i = choose|i: int| 0 <= i < s.historical.len() && start <= (#[trigger] s.historical[i]).day_timestamp < end
            && (s.historical[i].app_name@, Seq::<char>::empty(), 0int) == k;
    } else if period != TimePeriod::Today && has_lifted(s.hourly, level, start, end, k) {
        let i = choose|i: int| 0 <= i < s.hourly.len() && start <= (#[trigger] s.hourly[i]).bucket_start < end
            && report_key(level, summary_key(s.hourly[i])) == k;
    } else {
        let i = choose|i: int| 0 <= i < s.intervals.len() && overlap(#[trigger] s.intervals[i], start, end, now) > 0
            && interval_report_key(level, s.intervals[i]) == k;
    }
    crate::rollup::lemma_summary_sum_single(acc, j);
    let p1 = |x: SummaryKey| x == summary_key(acc[j]);
    let p2 = |x: SummaryKey| x == (acc[j].app_name@, acc[j].detailed_title@, 0int);
    assert(p1 =~= p2);
    assert(summary_sum(acc, p1) == report_sum(s, period, level, now, p1));
}

proof fn lemma_by_app_ok(
    acc: Seq<SummaryRow>,
    sorted: Seq<SummaryRow>,
    v: Seq<(String, i64)>,
    s: StoreView,
    period: TimePeriod,
    now: int,
)
    requires
        accumulated(acc, s, period, AggregationLevel::ByApplication, now),
        same_rows(sorted, acc, acc.len() as int),
        summary_keys_unique(sorted),
        sorted_desc(sorted),
        v.len() == sorted.len(),
        forall|i: int| 0 <= i < v.len() ==> (#[trigger] v[i]).0 == sorted[i].app_name && v[i].1 == sorted[i].total_duration_secs,
    ensures
        by_app_row_ok(s, period, now, v),
{
    let level = AggregationLevel::ByApplication;
    reveal(same_rows);
    assert forall|i: int| 0 <= i < sorted.len() implies {
        &&& (#[trigger] sorted[i]).bucket_start == 0
        &&& sorted[i].detailed_title@ == Seq::<char>::empty()
        &&& sorted[i].total_duration_secs == report_total(s, period, level, now, sorted[i].app_name@, Seq::empty())
        &&& has_summary_key(acc, summary_key(sorted[i]))
    } by {
        let j = choose|j: int| 0 <= j < acc.len() && #[trigger] sorted[i] == acc[j];
        lemma_report_key_shape(acc, s, period, level, now, j);
    }
    assert forall|i: int| 0 <= i < v.len() implies
        (#[trigger] v[i]).1 == report_total(s, period, level, now, v[i].0@, Seq::empty()) by {
        assert(sorted[i].bucket_start == 0);
    }
    assert forall|i: int, j: int| 0 <= i < j < v.len() implies (#[trigger] v[i]).0@ != (#[trigger] v[j]).0@ by {
        assert(sorted[i].bucket_start == 0 && sorted[j].bucket_start == 0);
        assert(summary_key(sorted[i]) != summary_key(sorted[j]));
    }
    assert forall|app: Seq<char>| (exists|i: int| 0 <= i < v.len() && (#[trigger] v[i]).0@ == app)
        <==> report_has(s, period, level, now, (app, Seq::empty(), 0int)) by {
        let k: SummaryKey = (app, Seq::empty(), 0int);
        if exists|i: int| 0 <= i < v.len() && (#[trigger] v[i]).0@ == app {
            let i = choose|i: int| 0 <= i < v.len() && (#[trigger] v[i]).0@ == app;
            assert(sorted[i].bucket_start == 0);
            assert(summary_key(sorted[i]) == k);
            assert(has_summary_key(acc, k));
        }
        if report_has(s, period, level, now, k) {
            assert(has_summary_key(acc, k));
            let j = choose|j: int| 0 <= j < acc.len() && summary_key(#[trigger] acc[j]) == k;
            let i = choose|i: int| 0 <= i < sorted.len() && sorted[i] == #[trigger] acc[j];
            assert(v[i].0@ == app);
        }
    }
    assert forall|i: int, j: int| 0 <= i < j < v.len() implies (#[trigger] v[i]).1 >= (#[trigger] v[j]).1 by {
        assert(sorted[i].total_duration_secs >= sorted[j].total_duration_secs);
    }
}

proof fn lemma_detailed_ok(
    acc: Seq<SummaryRow>,
    sorted: Seq<SummaryRow>,
    v: Seq<DetailedUsageRecord>,
    s: StoreView,
    period: TimePeriod,
    now: int,
)
    requires
        accumulated(acc, s, period, AggregationLevel::Detailed, now),
        same_rows(sorted, acc, acc.len() as int),
        summary_keys_unique(sorted),
        sorted_desc(sorted),
        v.len() == sorted.len(),
        forall|i: int| 0 <= i < v.len() ==> {
            &&& (#[trigger] v[i]).app_name == sorted[i].app_name
            &&& v[i].detailed_title == sorted[i].detailed_title
            &&& v[i].total_duration_secs == sorted[i].total_duration_secs
        },
    ensures
        detailed_row_ok(s, period, now, v),
{
    let level = AggregationLevel::Detailed;
    reveal(same_rows);
    assert forall|i: int| 0 <= i < sorted.len() implies {
        &&& (#[trigger] sorted[i]).bucket_start == 0
        &&& sorted[i].total_duration_secs == report_total(s, period, level, now, sorted[i].app_name@, sorted[i].detailed_title@)
        &&& has_summary_key(acc, summary_key(sorted[i]))
    } by {
        let j = choose|j: int| 0 <= j < acc.len() && #[trigger] sorted[i] == acc[j];
        lemma_report_key_shape(acc, s, period, level, now, j);
    }
    assert forall|i: int| 0 <= i < v.len() implies
        (#[trigger] v[i]).total_duration_secs == report_total(s, period, level, now, v[i].app_name@, v[i].detailed_title@) by {
        assert(sorted[i].bucket_start == 0);
    }
    assert forall|i: int, j: int| 0 <= i < j < v.len() implies
        ((#[trigger] v[i]).app_name@, v[i].detailed_title@) != ((#[trigger] v[j]).app_name@, v[j].detailed_title@) by {
        assert(sorted[i].bucket_start == 0 && sorted[j].bucket_start == 0);
        assert(summary_key(sorted[i]) != summary_key(sorted[j]));
    }
    assert forall|app: Seq<char>, title: Seq<char>| (exists|i: int| 0 <= i < v.len()
        && (#[trigger] v[i]).app_name@ == app && v[i].detailed_title@ == title)
        <==> report_has(s, period, level, now, (app, title, 0int)) by {
        let k: SummaryKey = (app, title, 0int);
        if exists|i: int| 0 <= i < v.len() && (#[trigger] v[i]).app_name@ == app && v[i].detailed_title@ == title {
            let i = choose|i: int| 0 <= i < v.len() && (#[trigger] v[i]).app_name@ == app && v[i].detailed_title@ == title;
            assert(sorted[i].bucket_start == 0);
            assert(summary_key(sorted[i]) == k);
            assert(has_summary_key(acc, k));
        }
        if report_has(s, period, level, now, k) {
            assert(has_summary_key(acc, k));
            let j = choose|j: int| 0 <= j < acc.len() && summary_key(#[trigger] acc[j]) == k;
            let i = choose|i: int| 0 <= i < sorted.len() && sorted[i] == #[trigger] acc[j];
            assert(v[i].app_name@ == app && v[i].detailed_title@ == title);
        }
    }
    assert forall|i: int, j: int| 0 <= i < j < v.len() implies
        (#[trigger] v[i]).total_duration_secs >= (#[trigger] v[j]).total_duration_secs by {
        assert(sorted[i].total_duration_secs >= sorted[j].total_duration_secs);
    }
}

impl IntervalStore {
    /// Usage over `period` as at time `now`, per application or per
    /// application and title: one row per key with any summary row in the
    /// period or any raw interval overlapping it (open ones counted up to
    /// `now`), holding that key's total, largest first.
    pub fn query_stats(&self, period: TimePeriod, level: AggregationLevel, now: i64) -> (r: Result<AggregatedResult, StoreError>)
        requires
            self@.wf(),
        ensures
            r is Ok <==> valid_timestamp(now as int) && report_magnitude(self@, period, level, now as int) <= i64::MAX,
            r == Err::<AggregatedResult, StoreError>(StoreError::TimestampOutOfRange) <==> !valid_timestamp(now as int),
            r matches Ok(res) ==> report_ok(self@, period, level, now as int, res),
    {
        if now < -TIMESTAMP_LIMIT || now >= TIMESTAMP_LIMIT {
            return Err(StoreError::TimestampOutOfRange);
        }
        let (start, end) = calculate_timestamps(period, now);
        let ghost s = self@;
        proof {
            assert forall|k: int| 0 <= k < s.intervals.len() implies
                (#[trigger] s.intervals[k]).well_formed(i64::MAX as int + 1) by {
                assert(s.intervals[k].well_formed(s.next_id));
            }
            crate::rollup::lemma_abs_nonneg(s, 0);
            assert forall|k: int| 0 <= k < s.intervals.len() implies
                #[trigger] overlap_total_weight(start as int, end as int, now as int)(s.intervals[k]) >= 0 by {}
            lemma_sum_nonneg(s.intervals, overlap_total_weight(start as int, end as int, now as int));
        }
        let over = match overlap_total(&self.intervals, start, end, now) {
            Some(v) => v,
            None => return Err(StoreError::TotalsTooLarge),
        };
        let summaries: i128 = match period {
            TimePeriod::Today => {
                let d = match summary_abs_total(&self.daily) {
                    Some(v) => v,
                    None => return Err(StoreError::TotalsTooLarge),
                };
                match level {
                    AggregationLevel::ByApplication => {
                        let h = match app_day_abs_total(&self.historical) {
                            Some(v) => v,
                            None => return Err(StoreError::TotalsTooLarge),
                        };
                        d + h
                    },
                    AggregationLevel::Detailed => d,
                }
            },
            _ => match summary_abs_total(&self.hourly) {
                Some(v) => v,
                None => return Err(StoreError::TotalsTooLarge),
            },
        };
        if summaries + over > i64::MAX as i128 {
            return Err(StoreError::TotalsTooLarge);
        }
        let mut acc: Vec<SummaryRow> = Vec::new();
        proof {
            assert(acc@ =~= Seq::<SummaryRow>::empty());
            assert forall|p: spec_fn(SummaryKey) -> bool| #[trigger] summary_sum(acc@, p) == 0 by {}
            assert forall|k: SummaryKey| !#[trigger] has_summary_key(acc@, k) by {}
        }
        match period {
            TimePeriod::Today => {
                add_summary_rows(&mut acc, &self.daily, level, start, end);
                match level {
                    AggregationLevel::ByApplication => add_app_day_rows(&mut acc, &self.historical, start, end),
                    AggregationLevel::Detailed => {},
                }
            },
            _ => add_summary_rows(&mut acc, &self.hourly, level, start, end),
        }
        add_interval_overlaps(&mut acc, &self.intervals, level, start, end, now);
        proof {
            assert(accumulated(acc@, s, period, level, now as int));
        }
        let sorted = sort_by_total_desc(&acc);
        match level {
            AggregationLevel::ByApplication => {
                let v = to_by_app(&sorted);
                proof {
                    lemma_by_app_ok(acc@, sorted@, v@, s, period, now as int);
                }
                Ok(AggregatedResult::ByApp(v))
            },
            AggregationLevel::Detailed => {
                let v = to_detailed(&sorted);
                proof {
                    lemma_detailed_ok(acc@, sorted@, v@, s, period, now as int);
                }
                Ok(AggregatedResult::Detailed(v))
            },
        }
    }

}

/// Width of the buckets that a period's summary rows come from: days for
/// today's report, hours for the hourly ones.
pub open spec fn period_bucket_width(period: TimePeriod) -> int {
    if period == TimePeriod::Today { SECS_PER_DAY as int } else { SECS_PER_HOUR as int }
}

pub open spec fn period_bucket(period: TimePeriod, t: int) -> int {
    if period == TimePeriod::Today { day_floor(t) } else { hour_floor(t) }
}

/// A closed interval that ends inside the bucket (of the period's width)
/// its start falls in: the case in which rolling it up whole into its start
/// bucket loses nothing.
pub open spec fn within_start_bucket(iv: Interval, period: TimePeriod) -> bool {
    iv.end_time matches Some(e) && iv.start_time <= e
        && e <= period_bucket(period, iv.start_time as int) + period_bucket_width(period)
}

proof fn lemma_floor_monotone(a: int, q: int, w: int)
    requires
        a <= q,
        w > 0,
    ensures
        a - a % w <= q - q % w,
        a - a % w == w * (a / w),
        a - w < a - a % w <= a,
{
    lemma_fundamental_div_mod(a, w);
    lemma_fundamental_div_mod(q, w);
    lemma_div_is_ordered(a, q, w);
    let (x, y) = (a / w, q / w);
    assert(w * x <= w * y) by (nonlinear_arith)
        requires
            x <= y,
            w > 0,
    ;
}

/// The overlap of a rolled-up interval that lies inside its start bucket
/// `b` with a period whose start is a bucket boundary: all of it when the
/// bucket lies in the period, none otherwise.
proof fn lemma_rolled_overlap(iv: Interval, hs: int, ps: int, pe: int, now: int, w: int, mb: int, mp: int)
    requires
        aggregable(iv, hs),
        hs <= pe,
        w > 0,
        iv.end_time matches Some(e) && w * mb <= iv.start_time <= e <= w * mb + w,
        ps == w * mp,
    ensures
        overlap(iv, ps, pe, now) == if ps <= w * mb < pe { iv.duration() } else { 0 },
{
    let b = w * mb;
    if b < ps {
        assert(mb < mp) by (nonlinear_arith)
            requires
                w * mb < w * mp,
                w > 0,
        ;
        assert(w * mb + w <= w * mp) by (nonlinear_arith)
            requires
                mb < mp,
                w > 0,
        ;
    }
}

/// Aggregation neither loses nor double-counts reported usage: a report
/// made no earlier than an aggregation run gives every key the same total
/// after the run as before it, provided each interval the run rolls up
/// ends inside the bucket its start falls in (the hour, or the day for
/// today's report), since the run credits the whole interval to that bucket.
pub proof fn lemma_rollup_preserves_report(
    s0: StoreView,
    s1: StoreView,
    agg_now: int,
    period: TimePeriod,
    level: AggregationLevel,
    query_now: int,
    app: Seq<char>,
    title: Seq<char>,
)
    requires
        s0.wf(),
        rollup_result(s0, s1, agg_now),
        agg_now <= query_now,
        forall|i: int| 0 <= i < s0.intervals.len() && aggregable(#[trigger] s0.intervals[i], hour_floor(agg_now))
            ==> within_start_bucket(s0.intervals[i], period),
    ensures
        report_total(s1, period, level, query_now, app, title) == report_total(s0, period, level, query_now, app, title),
{
    lemma_rollup_preserves_report_sum(s0, s1, agg_now, period, level, query_now, |k: SummaryKey| k == (app, title, 0int));
}

proof fn lemma_rollup_preserves_report_sum(
    s0: StoreView,
    s1: StoreView,
    agg_now: int,
    period: TimePeriod,
    level: AggregationLevel,
    query_now: int,
    p: spec_fn(SummaryKey) -> bool,
)
    requires
        s0.wf(),
        rollup_result(s0, s1, agg_now),
        agg_now <= query_now,
        forall|i: int| 0 <= i < s0.intervals.len() && aggregable(#[trigger] s0.intervals[i], hour_floor(agg_now))
            ==> within_start_bucket(s0.intervals[i], period),
    ensures
        report_sum(s1, period, level, query_now, p) == report_sum(s0, period, level, query_now, p),
{
    let hs = hour_floor(agg_now);
    let c = retire_cutoff(agg_now);
    let (ps, pe) = period_range(period, query_now);
    let w = period_bucket_width(period);
    let hour = SECS_PER_HOUR as int;
    let day = SECS_PER_DAY as int;
    lemma_floor_monotone(agg_now, query_now, hour);
    lemma_floor_monotone(agg_now, query_now, day);
    let mp = if period == TimePeriod::Today {
        query_now / day
    } else if period == TimePeriod::LastCompletedHour {
        query_now / hour - 1
    } else {
        query_now / hour
    };
    assert(ps == w * mp) by (nonlinear_arith)
        requires
            period == TimePeriod::Today ==> ps == day * (query_now / day) && w == day,
            period == TimePeriod::LastCompletedHour ==> ps == hour * (query_now / hour) - hour && w == hour,
            period == TimePeriod::CurrentHour ==> ps == hour * (query_now / hour) && w == hour,
            mp == if period == TimePeriod::Today {
                query_now / day
            } else if period == TimePeriod::LastCompletedHour {
                query_now / hour - 1
            } else {
                query_now / hour
            },
    ;
    assert(ps >= c);
    assert(hs <= pe);
    let lifted = lift(p, level, ps, pe);
    assert(recent(lifted, c) =~= lifted);
    let key_fn = if period == TimePeriod::Today { day_key_fn() } else { hour_key_fn() };
    let wgt = overlap_weight(p, level, ps, pe, query_now);
    let kp = kept_pred(hs);
    let kept_w = |x: Interval| if kp(x) { wgt(x) } else { 0 };
    let rolled_w = |x: Interval| if kp(x) { 0 } else { wgt(x) };
    lemma_sum_filter(s0.intervals, kp, wgt);
    lemma_sum_add(s0.intervals, kept_w, rolled_w);
    lemma_sum_ext(s0.intervals, |x: Interval| kept_w(x) + rolled_w(x), wgt);
    assert forall|i: int| 0 <= i < s0.intervals.len() implies
        rolled_weight(hs, key_fn, lifted)(#[trigger] s0.intervals[i]) == rolled_w(s0.intervals[i]) by {
        let iv = s0.intervals[i];
        if aggregable(iv, hs) {
            assert(within_start_bucket(iv, period));
            let st = iv.start_time as int;
            let mb = if period == TimePeriod::Today { st / day } else { st / hour };
            lemma_floor_monotone(st, st, hour);
            lemma_floor_monotone(st, st, day);
            assert(period_bucket(period, st) == w * mb);
            lemma_rolled_overlap(iv, hs, ps, pe, query_now, w, mb, mp);
            assert(key_fn(iv).2 == period_bucket(period, st));
            assert(report_key(level, key_fn(iv)) == interval_report_key(level, iv));
        }
    }
    lemma_sum_ext(s0.intervals, rolled_weight(hs, key_fn, lifted), rolled_w);
    if period == TimePeriod::Today {
        assert(summary_sum(s1.daily, lifted) == summary_sum(s0.daily, recent(lifted, c))
            + rolled_sum(s0.intervals, hs, day_key_fn(), recent(lifted, c)));
        if level == AggregationLevel::ByApplication {
            let h = lift_app_day(p, ps, pe);
            let q = retired_app_day(h, c);
            assert(app_day_sum(s1.historical, h) == app_day_sum(s0.historical, h) + summary_sum(s0.daily, q)
                + rolled_sum(s0.intervals, hs, day_key_fn(), q));
            assert forall|i: int| 0 <= i < s0.daily.len() implies #[trigger] summary_weight(q)(s0.daily[i]) == 0 by {}
            lemma_sum_zero(s0.daily, summary_weight(q));
            assert forall|i: int| 0 <= i < s0.intervals.len() implies #[trigger] rolled_weight(hs, day_key_fn(), q)(s0.intervals[i]) == 0 by {}
            lemma_sum_zero(s0.intervals, rolled_weight(hs, day_key_fn(), q));
        }
    } else {
        assert(summary_sum(s1.hourly, lifted) == summary_sum(s0.hourly, recent(lifted, c))
            + rolled_sum(s0.intervals, hs, hour_key_fn(), recent(lifted, c)));
    }
}

/// Round trip from recorded intervals to the report: starting from raw
/// intervals only, after an aggregation run the report made no earlier than
/// the run gives each key exactly the seconds its recorded intervals spend
/// inside the period (open ones counted up to the query time), provided
/// each interval the run rolls up ends inside the bucket its start falls in.
pub proof fn lemma_report_round_trip(
    s0: StoreView,
    s1: StoreView,
    agg_now: int,
    period: TimePeriod,
    level: AggregationLevel,
    query_now: int,
    app: Seq<char>,
    title: Seq<char>,
)
    requires
        s0.wf(),
        s0.hourly.len() == 0,
        s0.daily.len() == 0,
        s0.historical.len() == 0,
        rollup_result(s0, s1, agg_now),
        agg_now <= query_now,
        forall|i: int| 0 <= i < s0.intervals.len() && aggregable(#[trigger] s0.intervals[i], hour_floor(agg_now))
            ==> within_start_bucket(s0.intervals[i], period),
    ensures
        report_total(s1, period, level, query_now, app, title) == sum_of(
            s0.intervals,
            overlap_weight(
                |k: SummaryKey| k == (app, title, 0int),
                level,
                period_range(period, query_now).0,
                period_range(period, query_now).1,
                query_now,
            ),
        ),
{
    lemma_rollup_preserves_report(s0, s1, agg_now, period, level, query_now, app, title);
}

} // verus!
