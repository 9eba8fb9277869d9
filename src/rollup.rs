//! The aggregation engine: raw intervals that closed before the current hour
//! are added into hourly and daily summaries and removed; daily detail older
//! than yesterday is folded into long-term per-application totals.

use vstd::prelude::*;
use crate::store::{
    ids_unique, app_day_key, app_day_keys_unique, has_app_day_key, has_summary_key, summary_key,
    summary_keys_unique, AppDayKey, AppDayRow, Interval, IntervalStore, StoreError, StoreView, SummaryKey,
    SummaryRow,
};
use crate::sums::{
    lemma_sum_abs_bound, lemma_sum_ext, lemma_sum_nonneg, lemma_sum_prefix_le, lemma_sum_push,
    lemma_sum_take_all, lemma_sum_take_step, lemma_sum_update, sum_of,
};
use crate::time_bucket::{
    day_floor, day_start, hour_floor, hour_start, valid_timestamp, SECS_PER_DAY,
    TIMESTAMP_LIMIT,
};

verus! {

pub open spec fn magnitude(x: int) -> int {
    if x < 0 { -x } else { x }
}

/// The weight of a summary row in a sum restricted to keys satisfying `p`.
pub open spec fn summary_weight(p: spec_fn(SummaryKey) -> bool) -> spec_fn(SummaryRow) -> int {
    |r: SummaryRow| if p(summary_key(r)) { r.total_duration_secs as int } else { 0 }
}

/// Total seconds of the summary rows whose key satisfies `p`.
pub open spec fn summary_sum(rows: Seq<SummaryRow>, p: spec_fn(SummaryKey) -> bool) -> int {
    sum_of(rows, summary_weight(p))
}

pub open spec fn summary_abs_weight() -> spec_fn(SummaryRow) -> int {
    |r: SummaryRow| magnitude(r.total_duration_secs as int)
}

pub open spec fn summary_abs(rows: Seq<SummaryRow>) -> int {
    sum_of(rows, summary_abs_weight())
}

pub open spec fn app_day_weight(p: spec_fn(AppDayKey) -> bool) -> spec_fn(AppDayRow) -> int {
    |r: AppDayRow| if p(app_day_key(r)) { r.total_duration_secs as int } else { 0 }
}

/// Total seconds of the long-term rows whose key satisfies `p`.
pub open spec fn app_day_sum(rows: Seq<AppDayRow>, p: spec_fn(AppDayKey) -> bool) -> int {
    sum_of(rows, app_day_weight(p))
}

pub open spec fn app_day_abs_weight() -> spec_fn(AppDayRow) -> int {
    |r: AppDayRow| magnitude(r.total_duration_secs as int)
}

pub open spec fn app_day_abs(rows: Seq<AppDayRow>) -> int {
    sum_of(rows, app_day_abs_weight())
}

pub open spec fn interval_abs_weight() -> spec_fn(Interval) -> int {
    |iv: Interval| magnitude(iv.duration())
}

pub open spec fn interval_abs(rows: Seq<Interval>) -> int {
    sum_of(rows, interval_abs_weight())
}

/// The sum of the magnitudes of every stored duration and total. While it
/// fits in an `i64`, no total the store computes can overflow.
pub open spec fn store_magnitude(s: StoreView) -> int {
    interval_abs(s.intervals) + summary_abs(s.hourly) + summary_abs(s.daily) + app_day_abs(s.historical)
}

/// A closed interval that ended before the hour starting at `hour_start`.
pub open spec fn aggregable(iv: Interval, hour_start: int) -> bool {
    iv.end_time matches Some(e) && (e as int) < hour_start
}

pub open spec fn hour_key(iv: Interval) -> SummaryKey {
    (iv.app_name@, iv.detailed_title@, hour_floor(iv.start_time as int))
}

pub open spec fn day_key(iv: Interval) -> SummaryKey {
    (iv.app_name@, iv.detailed_title@, day_floor(iv.start_time as int))
}

pub open spec fn hour_key_fn() -> spec_fn(Interval) -> SummaryKey {
    |iv: Interval| hour_key(iv)
}

pub open spec fn day_key_fn() -> spec_fn(Interval) -> SummaryKey {
    |iv: Interval| day_key(iv)
}

/// The intervals an aggregation run at hour `hour_start` leaves in place.
pub open spec fn kept_pred(hour_start: int) -> spec_fn(Interval) -> bool {
    |iv: Interval| !aggregable(iv, hour_start)
}

pub open spec fn aggregable_indicator(hour_start: int) -> spec_fn(Interval) -> int {
    |iv: Interval| if aggregable(iv, hour_start) { 1 } else { 0 }
}

pub open spec fn rolled_weight(
    hour_start: int,
    key: spec_fn(Interval) -> SummaryKey,
    p: spec_fn(SummaryKey) -> bool,
) -> spec_fn(Interval) -> int {
    |iv: Interval| if aggregable(iv, hour_start) && p(key(iv)) { iv.duration() } else { 0 }
}

/// Seconds of the intervals aggregable before `hour_start` whose bucket key
/// (by `key`) satisfies `p`.
pub open spec fn rolled_sum(
    rows: Seq<Interval>,
    hour_start: int,
    key: spec_fn(Interval) -> SummaryKey,
    p: spec_fn(SummaryKey) -> bool,
) -> int {
    sum_of(rows, rolled_weight(hour_start, key, p))
}

pub open spec fn rolled_key(
    rows: Seq<Interval>,
    hour_start: int,
    key: spec_fn(Interval) -> SummaryKey,
    k: SummaryKey,
) -> bool {
    exists|i: int| 0 <= i < rows.len() && aggregable(#[trigger] rows[i], hour_start) && key(rows[i]) == k
}

/// Summary rows whose bucket starts before this are retired when
/// aggregating at `now`: one day before `now`.
pub open spec fn retire_cutoff(now: int) -> int {
    now - SECS_PER_DAY
}

pub open spec fn recent(p: spec_fn(SummaryKey) -> bool, cutoff: int) -> spec_fn(SummaryKey) -> bool {
    |k: SummaryKey| p(k) && k.2 >= cutoff
}

pub open spec fn retired_app_day(p: spec_fn(AppDayKey) -> bool, cutoff: int) -> spec_fn(SummaryKey) -> bool {
    |k: SummaryKey| p((k.0, k.2)) && k.2 < cutoff
}

/// What one aggregation run at `now` does to a store.
pub open spec fn rollup_result(old: StoreView, new: StoreView, now: int) -> bool {
    let hs = hour_floor(now);
    let cutoff = retire_cutoff(now);
    &&& new.wf()
    &&& new.next_id == old.next_id
    // every interval that closed before the current hour is gone, the rest stay in order
    &&& new.intervals == old.intervals.filter(kept_pred(hs))
    // hourly buckets: old totals plus the rolled intervals, by start hour; retired ones dropped
    &&& forall|p: spec_fn(SummaryKey) -> bool| #[trigger] summary_sum(new.hourly, p)
        == summary_sum(old.hourly, recent(p, cutoff)) + rolled_sum(old.intervals, hs, hour_key_fn(), recent(p, cutoff))
    &&& forall|k: SummaryKey| #[trigger] has_summary_key(new.hourly, k) <==> (k.2 >= cutoff && (
        has_summary_key(old.hourly, k) || rolled_key(old.intervals, hs, hour_key_fn(), k)))
    // daily buckets: the same by start day
    &&& forall|p: spec_fn(SummaryKey) -> bool| #[trigger] summary_sum(new.daily, p)
        == summary_sum(old.daily, recent(p, cutoff)) + rolled_sum(old.intervals, hs, day_key_fn(), recent(p, cutoff))
    &&& forall|k: SummaryKey| #[trigger] has_summary_key(new.daily, k) <==> (k.2 >= cutoff && (
        has_summary_key(old.daily, k) || rolled_key(old.intervals, hs, day_key_fn(), k)))
    // long-term totals: what the retired daily rows held, per application and day
    &&& forall|p: spec_fn(AppDayKey) -> bool| #[trigger] app_day_sum(new.historical, p)
        == app_day_sum(old.historical, p) + summary_sum(old.daily, retired_app_day(p, cutoff))
            + rolled_sum(old.intervals, hs, day_key_fn(), retired_app_day(p, cutoff))
    &&& forall|k: AppDayKey| #[trigger] has_app_day_key(new.historical, k) <==> (
        has_app_day_key(old.historical, k) || (k.1 < cutoff && exists|d: Seq<char>| (
            has_summary_key(old.daily, (k.0, d, k.1))
            || rolled_key(old.intervals, hs, day_key_fn(), (k.0, d, k.1)))))
}

/// With unique keys, the sum over one key is that key's row.
pub proof fn lemma_summary_sum_single(rows: Seq<SummaryRow>, j: int)
    requires
        summary_keys_unique(rows),
        0 <= j < rows.len(),
    ensures
        summary_sum(rows, |k: SummaryKey| k == summary_key(rows[j])) == rows[j].total_duration_secs,
    decreases rows.len(),
{
    let key = summary_key(rows[j]);
    let p = |k: SummaryKey| k == key;
    let rest = rows.drop_last();
    if j == rows.len() - 1 {
        assert forall|i: int| 0 <= i < rest.len() implies summary_weight(p)(rest[i]) == 0 by {
            assert(summary_key(rows[i]) != summary_key(rows[j]));
        }
        crate::sums::lemma_sum_zero(rest, summary_weight(p));
    } else {
        assert(summary_keys_unique(rest));
        assert(rest[j] == rows[j]);
        lemma_summary_sum_single(rest, j);
        assert(summary_key(rows[j]) != summary_key(rows[rows.len() - 1]));
    }
}

/// Adds `secs` to the row of key `(app, title, bucket)`, creating it if absent.
pub(crate) fn upsert_summary(rows: &mut Vec<SummaryRow>, app: &String, title: &String, bucket: i64, secs: i64)
    requires
        summary_keys_unique(old(rows)@),
        forall|j: int| 0 <= j < old(rows)@.len() && summary_key(#[trigger] old(rows)@[j]) == (app@, title@, bucket as int)
            ==> i64::MIN <= old(rows)@[j].total_duration_secs + secs <= i64::MAX,
    ensures
        summary_keys_unique(final(rows)@),
        forall|p: spec_fn(SummaryKey) -> bool| #[trigger] summary_sum(final(rows)@, p)
            == summary_sum(old(rows)@, p) + if p((app@, title@, bucket as int)) { secs as int } else { 0 },
        forall|k: SummaryKey| #[trigger] has_summary_key(final(rows)@, k)
            <==> (has_summary_key(old(rows)@, k) || k == (app@, title@, bucket as int)),
        summary_abs(final(rows)@) <= summary_abs(old(rows)@) + magnitude(secs as int),
{
    let ghost key: SummaryKey = (app@, title@, bucket as int);
    let mut i: usize = 0;
    while i < rows.len()
        invariant
            0 <= i <= rows.len(),
            rows@ == old(rows)@,
            key == (app@, title@, bucket as int),
            summary_keys_unique(old(rows)@),
            forall|j: int| 0 <= j < old(rows)@.len() && summary_key(#[trigger] old(rows)@[j]) == (app@, title@, bucket as int)
                ==> i64::MIN <= old(rows)@[j].total_duration_secs + secs <= i64::MAX,
            forall|j: int| 0 <= j < i ==> summary_key(#[trigger] rows@[j]) != key,
        decreases rows.len() - i,
    {
        if rows[i].app_name == *app && rows[i].detailed_title == *title && rows[i].bucket_start == bucket {
            let row = SummaryRow {
                app_name: rows[i].app_name.clone(),
                detailed_title: rows[i].detailed_title.clone(),
                bucket_start: bucket,
                total_duration_secs: rows[i].total_duration_secs + secs,
            };
            rows.set(i, row);
            proof {
                let o = old(rows)@;
                assert(rows@ == o.update(i as int, row));
                assert(summary_key(row) == key);
                assert forall|p: spec_fn(SummaryKey) -> bool| #[trigger] summary_sum(rows@, p)
                    == summary_sum(o, p) + if p(key) { secs as int } else { 0 } by {
                    lemma_sum_update(o, i as int, row, summary_weight(p));
                }
                assert forall|k: SummaryKey| #[trigger] has_summary_key(rows@, k)
                    <==> (has_summary_key(o, k) || k == key) by {
                    if has_summary_key(o, k) {
                        let j = choose|j: int| 0 <= j < o.len() && summary_key(#[trigger] o[j]) == k;
                        assert(summary_key(rows@[j]) == k);
                    }
                    if k == key {
                        assert(summary_key(rows@[i as int]) == k);
                    }
                    if has_summary_key(rows@, k) {
                        let j = choose|j: int| 0 <= j < rows@.len() && summary_key(#[trigger] rows@[j]) == k;
                        if j != i {
                            assert(summary_key(o[j]) == k);
                        }
                    }
                }
                assert(summary_keys_unique(rows@)) by {
                    assert forall|a: int, b: int| 0 <= a < b < rows@.len() implies
                        summary_key(#[trigger] rows@[a]) != summary_key(#[trigger] rows@[b]) by {
                        assert(summary_key(o[a]) != summary_key(o[b]));
                    }
                }
                lemma_sum_update(o, i as int, row, summary_abs_weight());
                assert(row.total_duration_secs == o[i as int].total_duration_secs + secs);
                assert(summary_abs_weight()(row) == magnitude(row.total_duration_secs as int));
                assert(summary_abs_weight()(o[i as int]) == magnitude(o[i as int].total_duration_secs as int));
            }
            return;
        }
        i += 1;
    }
    let row = SummaryRow {
        app_name: app.clone(),
        detailed_title: title.clone(),
        bucket_start: bucket,
        total_duration_secs: secs,
    };
    rows.push(row);
    proof {
        let o = old(rows)@;
        assert(rows@ == o.push(row));
        assert(summary_key(row) == key);
        assert(!has_summary_key(o, key));
        assert forall|p: spec_fn(SummaryKey) -> bool| #[trigger] summary_sum(rows@, p)
            == summary_sum(o, p) + if p(key) { secs as int } else { 0 } by {
            lemma_sum_push(o, row, summary_weight(p));
        }
        assert forall|k: SummaryKey| #[trigger] has_summary_key(rows@, k)
            <==> (has_summary_key(o, k) || k == key) by {
            if has_summary_key(o, k) {
                let j = choose|j: int| 0 <= j < o.len() && summary_key(#[trigger] o[j]) == k;
                assert(summary_key(rows@[j]) == k);
            }
            if k == key {
                assert(summary_key(rows@[o.len() as int]) == k);
            }
            if has_summary_key(rows@, k) {
                let j = choose|j: int| 0 <= j < rows@.len() && summary_key(#[trigger] rows@[j]) == k;
                if j < o.len() {
                    assert(summary_key(o[j]) == k);
                }
            }
        }
        lemma_sum_push(o, row, summary_abs_weight());
    }
}

/// Adds `secs` to the long-term row of key `(app, day)`, creating it if absent.
pub(crate) fn upsert_app_day(rows: &mut Vec<AppDayRow>, app: &String, day: i64, secs: i64)
    requires
        app_day_keys_unique(old(rows)@),
        forall|j: int| 0 <= j < old(rows)@.len() && app_day_key(#[trigger] old(rows)@[j]) == (app@, day as int)
            ==> i64::MIN <= old(rows)@[j].total_duration_secs + secs <= i64::MAX,
    ensures
        app_day_keys_unique(final(rows)@),
        forall|p: spec_fn(AppDayKey) -> bool| #[trigger] app_day_sum(final(rows)@, p)
            == app_day_sum(old(rows)@, p) + if p((app@, day as int)) { secs as int } else { 0 },
        forall|k: AppDayKey| #[trigger] has_app_day_key(final(rows)@, k)
            <==> (has_app_day_key(old(rows)@, k) || k == (app@, day as int)),
        app_day_abs(final(rows)@) <= app_day_abs(old(rows)@) + magnitude(secs as int),
{
    let ghost key: AppDayKey = (app@, day as int);
    let mut i: usize = 0;
    while i < rows.len()
        invariant
            0 <= i <= rows.len(),
            rows@ == old(rows)@,
            key == (app@, day as int),
            app_day_keys_unique(old(rows)@),
            forall|j: int| 0 <= j < old(rows)@.len() && app_day_key(#[trigger] old(rows)@[j]) == (app@, day as int)
                ==> i64::MIN <= old(rows)@[j].total_duration_secs + secs <= i64::MAX,
            forall|j: int| 0 <= j < i ==> app_day_key(#[trigger] rows@[j]) != key,
        decreases rows.len() - i,
    {
        if rows[i].app_name == *app && rows[i].day_timestamp == day {
            let row = AppDayRow {
                app_name: rows[i].app_name.clone(),
                day_timestamp: day,
                total_duration_secs: rows[i].total_duration_secs + secs,
            };
            rows.set(i, row);
            proof {
                let o = old(rows)@;
                assert(rows@ == o.update(i as int, row));
                assert(app_day_key(row) == key);
                assert forall|p: spec_fn(AppDayKey) -> bool| #[trigger] app_day_sum(rows@, p)
                    == app_day_sum(o, p) + if p(key) { secs as int } else { 0 } by {
                    lemma_sum_update(o, i as int, row, app_day_weight(p));
                }
                assert forall|k: AppDayKey| #[trigger] has_app_day_key(rows@, k)
                    <==> (has_app_day_key(o, k) || k == key) by {
                    if has_app_day_key(o, k) {
                        let j = choose|j: int| 0 <= j < o.len() && app_day_key(#[trigger] o[j]) == k;
                        assert(app_day_key(rows@[j]) == k);
                    }
                    if k == key {
                        assert(app_day_key(rows@[i as int]) == k);
                    }
                    if has_app_day_key(rows@, k) {
                        let j = choose|j: int| 0 <= j < rows@.len() && app_day_key(#[trigger] rows@[j]) == k;
                        if j != i {
                            assert(app_day_key(o[j]) == k);
                        }
                    }
                }
                assert(app_day_keys_unique(rows@)) by {
                    assert forall|a: int, b: int| 0 <= a < b < rows@.len() implies
                        app_day_key(#[trigger] rows@[a]) != app_day_key(#[trigger] rows@[b]) by {
                        assert(app_day_key(o[a]) != app_day_key(o[b]));
                    }
                }
                lemma_sum_update(o, i as int, row, app_day_abs_weight());
                assert(row.total_duration_secs == o[i as int].total_duration_secs + secs);
                assert(app_day_abs_weight()(row) == magnitude(row.total_duration_secs as int));
                assert(app_day_abs_weight()(o[i as int]) == magnitude(o[i as int].total_duration_secs as int));
            }
            return;
        }
        i += 1;
    }
    let row = AppDayRow { app_name: app.clone(), day_timestamp: day, total_duration_secs: secs };
    rows.push(row);
    proof {
        let o = old(rows)@;
        assert(rows@ == o.push(row));
        assert(app_day_key(row) == key);
        assert(!has_app_day_key(o, key));
        assert forall|p: spec_fn(AppDayKey) -> bool| #[trigger] app_day_sum(rows@, p)
            == app_day_sum(o, p) + if p(key) { secs as int } else { 0 } by {
            lemma_sum_push(o, row, app_day_weight(p));
        }
        assert forall|k: AppDayKey| #[trigger] has_app_day_key(rows@, k)
            <==> (has_app_day_key(o, k) || k == key) by {
            if has_app_day_key(o, k) {
                let j = choose|j: int| 0 <= j < o.len() && app_day_key(#[trigger] o[j]) == k;
                assert(app_day_key(rows@[j]) == k);
            }
            if k == key {
                assert(app_day_key(rows@[o.len() as int]) == k);
            }
            if has_app_day_key(rows@, k) {
                let j = choose|j: int| 0 <= j < rows@.len() && app_day_key(#[trigger] rows@[j]) == k;
                if j < o.len() {
                    assert(app_day_key(o[j]) == k);
                }
            }
        }
        lemma_sum_push(o, row, app_day_abs_weight());
    }
}

pub proof fn lemma_row_within_abs<A>(rows: Seq<A>, j: int, f: spec_fn(A) -> int)
    requires
        0 <= j < rows.len(),
        forall|k: int| 0 <= k < rows.len() ==> #[trigger] f(rows[k]) >= 0,
    ensures
        f(rows[j]) <= sum_of(rows, f),
    decreases rows.len(),
{
    let rest = rows.drop_last();
    if j == rows.len() - 1 {
        assert forall|k: int| 0 <= k < rest.len() implies #[trigger] f(rest[k]) >= 0 by {
            assert(rest[k] == rows[k]);
        }
        lemma_sum_nonneg(rest, f);
    } else {
        assert forall|k: int| 0 <= k < rest.len() implies #[trigger] f(rest[k]) >= 0 by {
            assert(rest[k] == rows[k]);
        }
        assert(rest[j] == rows[j]);
        lemma_row_within_abs(rest, j, f);
        assert(f(rows[rows.len() - 1]) >= 0);
    }
}

pub proof fn lemma_summary_row_within_abs(rows: Seq<SummaryRow>, j: int)
    requires
        0 <= j < rows.len(),
    ensures
        magnitude(rows[j].total_duration_secs as int) <= summary_abs(rows),
{
    assert forall|k: int| 0 <= k < rows.len() implies #[trigger] summary_abs_weight()(rows[k]) >= 0 by {}
    lemma_row_within_abs(rows, j, summary_abs_weight());
}

pub proof fn lemma_app_day_row_within_abs(rows: Seq<AppDayRow>, j: int)
    requires
        0 <= j < rows.len(),
    ensures
        magnitude(rows[j].total_duration_secs as int) <= app_day_abs(rows),
{
    assert forall|k: int| 0 <= k < rows.len() implies #[trigger] app_day_abs_weight()(rows[k]) >= 0 by {}
    lemma_row_within_abs(rows, j, app_day_abs_weight());
}

pub proof fn lemma_abs_nonneg(s: StoreView, i: int)
    requires
        0 <= i <= s.intervals.len(),
    ensures
        0 <= interval_abs(s.intervals.take(i)) <= interval_abs(s.intervals),
        summary_abs(s.hourly) >= 0,
        summary_abs(s.daily) >= 0,
        app_day_abs(s.historical) >= 0,
{
    assert forall|k: int| 0 <= k < s.intervals.len() implies #[trigger] interval_abs_weight()(s.intervals[k]) >= 0 by {}
    lemma_sum_prefix_le(s.intervals, i, interval_abs_weight());
    assert forall|k: int| 0 <= k < s.hourly.len() implies #[trigger] summary_abs_weight()(s.hourly[k]) >= 0 by {}
    lemma_sum_nonneg(s.hourly, summary_abs_weight());
    assert forall|k: int| 0 <= k < s.daily.len() implies #[trigger] summary_abs_weight()(s.daily[k]) >= 0 by {}
    lemma_sum_nonneg(s.daily, summary_abs_weight());
    assert forall|k: int| 0 <= k < s.historical.len() implies #[trigger] app_day_abs_weight()(s.historical[k]) >= 0 by {}
    lemma_sum_nonneg(s.historical, app_day_abs_weight());
}

pub proof fn lemma_has_summary_key_push(rows: Seq<SummaryRow>, row: SummaryRow, k: SummaryKey)
    ensures
        has_summary_key(rows.push(row), k) <==> (has_summary_key(rows, k) || summary_key(row) == k),
{
    let pushed = rows.push(row);
    if has_summary_key(rows, k) {
        let b = choose|b: int| 0 <= b < rows.len() && summary_key(#[trigger] rows[b]) == k;
        assert(pushed[b] == rows[b]);
    }
    if summary_key(row) == k {
        assert(pushed[rows.len() as int] == row);
    }
    if has_summary_key(pushed, k) {
        let b = choose|b: int| 0 <= b < pushed.len() && summary_key(#[trigger] pushed[b]) == k;
        if b < rows.len() {
            assert(pushed[b] == rows[b]);
        }
    }
}

/// A copy of the rows whose bucket starts at or after `cutoff`.
fn retain_recent(rows: &Vec<SummaryRow>, cutoff: i64) -> (r: Vec<SummaryRow>)
    requires
        summary_keys_unique(rows@),
    ensures
        summary_keys_unique(r@),
        forall|p: spec_fn(SummaryKey) -> bool| #[trigger] summary_sum(r@, p)
            == summary_sum(rows@, recent(p, cutoff as int)),
        forall|k: SummaryKey| #[trigger] has_summary_key(r@, k)
            <==> (k.2 >= cutoff && has_summary_key(rows@, k)),
{
    let mut kept: Vec<SummaryRow> = Vec::new();
    let mut j: usize = 0;
    while j < rows.len()
        invariant
            0 <= j <= rows.len(),
            summary_keys_unique(rows@),
            summary_keys_unique(kept@),
            forall|p: spec_fn(SummaryKey) -> bool| #[trigger] summary_sum(kept@, p)
                == summary_sum(rows@.take(j as int), recent(p, cutoff as int)),
            forall|k: SummaryKey| #[trigger] has_summary_key(kept@, k)
                <==> (k.2 >= cutoff && has_summary_key(rows@.take(j as int), k)),
        decreases rows.len() - j,
    {
        let ghost prev = kept@;
        let ghost row = rows@[j as int];
        let ghost pre = rows@.take(j as int);
        proof {
            assert(rows@.take(j + 1) == pre.push(row)) by {
                assert(rows@.take(j + 1) =~= pre.push(row));
            }
        }
        if rows[j].bucket_start >= cutoff {
            let copy = SummaryRow {
                app_name: rows[j].app_name.clone(),
                detailed_title: rows[j].detailed_title.clone(),
                bucket_start: rows[j].bucket_start,
                total_duration_secs: rows[j].total_duration_secs,
            };
            kept.push(copy);
            proof {
                assert(copy == row);
                assert(!has_summary_key(prev, summary_key(row))) by {
                    if has_summary_key(prev, summary_key(row)) {
                        assert(has_summary_key(pre, summary_key(row)));
                        let b = choose|b: int| 0 <= b < pre.len() && summary_key(#[trigger] pre[b]) == summary_key(row);
                        assert(pre[b] == rows@[b]);
                    }
                }
                assert(summary_keys_unique(kept@)) by {
                    assert forall|a: int, b: int| 0 <= a < b < kept@.len() implies
                        summary_key(#[trigger] kept@[a]) != summary_key(#[trigger] kept@[b]) by {
                        if b == prev.len() {
                            assert(kept@[a] == prev[a]);
                        } else {
                            assert(kept@[a] == prev[a] && kept@[b] == prev[b]);
                        }
                    }
                }
            }
        }
        proof {
            assert forall|p: spec_fn(SummaryKey) -> bool| #[trigger] summary_sum(kept@, p)
                == summary_sum(rows@.take(j + 1), recent(p, cutoff as int)) by {
                assert(summary_sum(prev, p) == summary_sum(pre, recent(p, cutoff as int)));
                lemma_sum_push(pre, row, summary_weight(recent(p, cutoff as int)));
                if row.bucket_start >= cutoff {
                    lemma_sum_push(prev, row, summary_weight(p));
                }
            }
            assert forall|k: SummaryKey| #[trigger] has_summary_key(kept@, k)
                <==> (k.2 >= cutoff && has_summary_key(rows@.take(j + 1), k)) by {
                assert(has_summary_key(prev, k) <==> (k.2 >= cutoff && has_summary_key(pre, k)));
                lemma_has_summary_key_push(pre, row, k);
                if row.bucket_start >= cutoff {
                    assert(kept@ == prev.push(row));
                    lemma_has_summary_key_push(prev, row, k);
                } else {
                    assert(kept@ == prev);
                }
            }
        }
        j += 1;
    }
    proof {
        assert(rows@.take(rows@.len() as int) =~= rows@);
    }
    kept
}

pub proof fn lemma_rolled_key_step(
    rows: Seq<Interval>,
    i: int,
    hour_start: int,
    key: spec_fn(Interval) -> SummaryKey,
    k: SummaryKey,
)
    requires
        0 <= i < rows.len(),
    ensures
        rolled_key(rows.take(i + 1), hour_start, key, k) <==> (rolled_key(rows.take(i), hour_start, key, k) || (
            aggregable(rows[i], hour_start) && key(rows[i]) == k)),
{
    let pre = rows.take(i);
    let cur = rows.take(i + 1);
    if rolled_key(pre, hour_start, key, k) {
        let b = choose|b: int| 0 <= b < pre.len() && aggregable(#[trigger] pre[b], hour_start) && key(pre[b]) == k;
        assert(cur[b] == pre[b]);
    }
    if aggregable(rows[i], hour_start) && key(rows[i]) == k {
        assert(cur[i] == rows[i]);
    }
    if rolled_key(cur, hour_start, key, k) {
        let b = choose|b: int| 0 <= b < cur.len() && aggregable(#[trigger] cur[b], hour_start) && key(cur[b]) == k;
        if b < i {
            assert(cur[b] == pre[b]);
        }
    }
}

pub proof fn lemma_filter_take_step<A>(s: Seq<A>, i: int, p: spec_fn(A) -> bool)
    requires
        0 <= i < s.len(),
    ensures
        s.take(i + 1).filter(p) == if p(s[i]) { s.take(i).filter(p).push(s[i]) } else { s.take(i).filter(p) },
{
    reveal(Seq::filter);
    assert(s.take(i + 1).drop_last() =~= s.take(i));
    assert(s.take(i + 1).last() == s[i]);
}

proof fn lemma_rollup_post(
    o: StoreView,
    n: StoreView,
    hours: Seq<SummaryRow>,
    days: Seq<SummaryRow>,
    hs: int,
    cutoff: int,
    now: int,
)
    requires
        o.wf(),
        hs == hour_floor(now),
        cutoff == retire_cutoff(now),
        n.next_id == o.next_id,
        n.intervals == o.intervals.filter(kept_pred(hs)),
        ids_unique(n.intervals),
        forall|a: int| 0 <= a < n.intervals.len() ==> exists|b: int| 0 <= b < o.intervals.len() && #[trigger] n.intervals[a] == o.intervals[b],
        summary_keys_unique(n.hourly),
        summary_keys_unique(n.daily),
        app_day_keys_unique(n.historical),
        forall|p: spec_fn(SummaryKey) -> bool| #[trigger] summary_sum(hours, p)
            == summary_sum(o.hourly, p) + rolled_sum(o.intervals, hs, hour_key_fn(), p),
        forall|k: SummaryKey| #[trigger] has_summary_key(hours, k)
            <==> (has_summary_key(o.hourly, k) || rolled_key(o.intervals, hs, hour_key_fn(), k)),
        forall|p: spec_fn(SummaryKey) -> bool| #[trigger] summary_sum(days, p)
            == summary_sum(o.daily, p) + rolled_sum(o.intervals, hs, day_key_fn(), p),
        forall|k: SummaryKey| #[trigger] has_summary_key(days, k)
            <==> (has_summary_key(o.daily, k) || rolled_key(o.intervals, hs, day_key_fn(), k)),
        forall|p: spec_fn(SummaryKey) -> bool| #[trigger] summary_sum(n.hourly, p) == summary_sum(hours, recent(p, cutoff)),
        forall|k: SummaryKey| #[trigger] has_summary_key(n.hourly, k) <==> (k.2 >= cutoff && has_summary_key(hours, k)),
        forall|p: spec_fn(SummaryKey) -> bool| #[trigger] summary_sum(n.daily, p) == summary_sum(days, recent(p, cutoff)),
        forall|k: SummaryKey| #[trigger] has_summary_key(n.daily, k) <==> (k.2 >= cutoff && has_summary_key(days, k)),
        forall|p: spec_fn(AppDayKey) -> bool| #[trigger] app_day_sum(n.historical, p)
            == app_day_sum(o.historical, p) + summary_sum(days, retired_app_day(p, cutoff)),
        forall|k: AppDayKey| #[trigger] has_app_day_key(n.historical, k)
            <==> (has_app_day_key(o.historical, k) || (k.1 < cutoff && exists|d: Seq<char>|
                has_summary_key(days, (k.0, d, k.1)))),
    ensures
        rollup_result(o, n, now),
{
        assert forall|x: int| 0 <= x < n.intervals.len() implies (#[trigger] n.intervals[x]).well_formed(n.next_id) by {
            let b = choose|b: int| 0 <= b < o.intervals.len() && #[trigger] n.intervals[x] == o.intervals[b];
            assert(o.intervals[b].well_formed(o.next_id));
        }
        assert forall|p: spec_fn(SummaryKey) -> bool| #[trigger] summary_sum(n.hourly, p)
            == summary_sum(o.hourly, recent(p, cutoff)) + rolled_sum(o.intervals, hs, hour_key_fn(), recent(p, cutoff)) by {
            assert(summary_sum(hours, recent(p, cutoff)) == summary_sum(o.hourly, recent(p, cutoff))
                + rolled_sum(o.intervals, hs, hour_key_fn(), recent(p, cutoff)));
        }
        assert forall|p: spec_fn(SummaryKey) -> bool| #[trigger] summary_sum(n.daily, p)
            == summary_sum(o.daily, recent(p, cutoff)) + rolled_sum(o.intervals, hs, day_key_fn(), recent(p, cutoff)) by {
            assert(summary_sum(days, recent(p, cutoff)) == summary_sum(o.daily, recent(p, cutoff))
                + rolled_sum(o.intervals, hs, day_key_fn(), recent(p, cutoff)));
        }
        assert forall|p: spec_fn(AppDayKey) -> bool| #[trigger] app_day_sum(n.historical, p)
            == app_day_sum(o.historical, p) + summary_sum(o.daily, retired_app_day(p, cutoff))
                + rolled_sum(o.intervals, hs, day_key_fn(), retired_app_day(p, cutoff)) by {
            assert(summary_sum(days, retired_app_day(p, cutoff)) == summary_sum(o.daily, retired_app_day(p, cutoff))
                + rolled_sum(o.intervals, hs, day_key_fn(), retired_app_day(p, cutoff)));
        }
        assert forall|k: SummaryKey| #[trigger] has_summary_key(n.hourly, k) <==> (k.2 >= cutoff && (
            has_summary_key(o.hourly, k) || rolled_key(o.intervals, hs, hour_key_fn(), k))) by {
            assert(has_summary_key(hours, k) <==> (has_summary_key(o.hourly, k) || rolled_key(o.intervals, hs, hour_key_fn(), k)));
        }
        assert forall|k: SummaryKey| #[trigger] has_summary_key(n.daily, k) <==> (k.2 >= cutoff && (
            has_summary_key(o.daily, k) || rolled_key(o.intervals, hs, day_key_fn(), k))) by {
            assert(has_summary_key(days, k) <==> (has_summary_key(o.daily, k) || rolled_key(o.intervals, hs, day_key_fn(), k)));
        }
        assert forall|k: AppDayKey| #[trigger] has_app_day_key(n.historical, k) <==> (
            has_app_day_key(o.historical, k) || (k.1 < cutoff && exists|d: Seq<char>| (
                has_summary_key(o.daily, (k.0, d, k.1))
                || rolled_key(o.intervals, hs, day_key_fn(), (k.0, d, k.1))))) by {
            assert forall|d: Seq<char>|
                #![trigger has_summary_key(days, (k.0, d, k.1))]
                #![trigger has_summary_key(o.daily, (k.0, d, k.1))]
                #![trigger rolled_key(o.intervals, hs, day_key_fn(), (k.0, d, k.1))]
                has_summary_key(days, (k.0, d, k.1)) <==> (has_summary_key(o.daily, (k.0, d, k.1))
                || rolled_key(o.intervals, hs, day_key_fn(), (k.0, d, k.1))) by {}
        }
}

impl IntervalStore {
    /// One aggregation run at `now`, with totals known to fit.
    fn rollup(&mut self, now: i64) -> (r: usize)
        requires
            old(self)@.wf(),
            valid_timestamp(now as int),
            store_magnitude(old(self)@) <= i64::MAX,
        ensures
            rollup_result(old(self)@, final(self)@, now as int),
            r == sum_of(old(self)@.intervals, aggregable_indicator(hour_floor(now as int))),
    {
        let ghost o = self@;
        let hs = hour_start(now);
        let cutoff = now - SECS_PER_DAY;
        let mut kept: Vec<Interval> = Vec::new();
        let mut count: usize = 0;
        let mut i: usize = 0;
        proof {
            lemma_abs_nonneg(o, 0);
            assert(o.intervals.take(0) =~= Seq::<Interval>::empty());
            reveal(Seq::filter);
            assert(o.intervals.take(0).filter(kept_pred(hs as int)) =~= Seq::<Interval>::empty());
        }
        while i < self.intervals.len()
            invariant
                self.intervals@ == o.intervals,
                self.next_id == o.next_id,
                self.historical@ == o.historical,
                o.wf(),
                store_magnitude(o) <= i64::MAX,
                hs == hour_floor(now as int),
                0 <= i <= o.intervals.len(),
                kept@ == o.intervals.take(i as int).filter(kept_pred(hs as int)),
                ids_unique(kept@),
                forall|a: int| 0 <= a < kept@.len() ==> exists|b: int| 0 <= b < i && #[trigger] kept@[a] == o.intervals[b],
                count == sum_of(o.intervals.take(i as int), aggregable_indicator(hs as int)),
                count <= i,
                summary_keys_unique(self.hourly@),
                summary_keys_unique(self.daily@),
                forall|p: spec_fn(SummaryKey) -> bool| #[trigger] summary_sum(self.hourly@, p)
                    == summary_sum(o.hourly, p) + rolled_sum(o.intervals.take(i as int), hs as int, hour_key_fn(), p),
                forall|k: SummaryKey| #[trigger] has_summary_key(self.hourly@, k)
                    <==> (has_summary_key(o.hourly, k) || rolled_key(o.intervals.take(i as int), hs as int, hour_key_fn(), k)),
                forall|p: spec_fn(SummaryKey) -> bool| #[trigger] summary_sum(self.daily@, p)
                    == summary_sum(o.daily, p) + rolled_sum(o.intervals.take(i as int), hs as int, day_key_fn(), p),
                forall|k: SummaryKey| #[trigger] has_summary_key(self.daily@, k)
                    <==> (has_summary_key(o.daily, k) || rolled_key(o.intervals.take(i as int), hs as int, day_key_fn(), k)),
                summary_abs(self.hourly@) <= summary_abs(o.hourly) + interval_abs(o.intervals.take(i as int)),
                summary_abs(self.daily@) <= summary_abs(o.daily) + interval_abs(o.intervals.take(i as int)),
            decreases o.intervals.len() - i,
        {
            let ghost iv0 = o.intervals[i as int];
            let ghost hprev = self.hourly@;
            let ghost dprev = self.daily@;
            let ghost kprev = kept@;
            proof {
                lemma_abs_nonneg(o, i + 1);
                lemma_sum_take_step(o.intervals, i as int, interval_abs_weight());
                lemma_sum_take_step(o.intervals, i as int, aggregable_indicator(hs as int));
                lemma_filter_take_step(o.intervals, i as int, kept_pred(hs as int));
                assert(iv0.well_formed(o.next_id));
            }
            let agg = match self.intervals[i].end_time {
                Some(e) => e < hs,
                None => false,
            };
            if agg {
                let iv = &self.intervals[i];
                let secs: i64 = match iv.end_time {
                    Some(e) => e - iv.start_time,
                    None => 0,
                };
                let hb = hour_start(iv.start_time);
                let db = day_start(iv.start_time);
                proof {
                    assert(secs == iv0.duration());
                    assert(magnitude(secs as int) == interval_abs_weight()(iv0));
                    assert forall|j: int| 0 <= j < hprev.len() && summary_key(#[trigger] hprev[j]) == (iv.app_name@, iv.detailed_title@, hb as int)
                        implies i64::MIN <= hprev[j].total_duration_secs + secs <= i64::MAX by {
                        lemma_summary_row_within_abs(hprev, j);
                    }
                    assert forall|j: int| 0 <= j < dprev.len() && summary_key(#[trigger] dprev[j]) == (iv.app_name@, iv.detailed_title@, db as int)
                        implies i64::MIN <= dprev[j].total_duration_secs + secs <= i64::MAX by {
                        lemma_summary_row_within_abs(dprev, j);
                    }
                }
                upsert_summary(&mut self.hourly, &iv.app_name, &iv.detailed_title, hb, secs);
                upsert_summary(&mut self.daily, &iv.app_name, &iv.detailed_title, db, secs);
                count += 1;
                proof {
                    assert(hour_key_fn()(iv0) == (iv.app_name@, iv.detailed_title@, hb as int));
                    assert(day_key_fn()(iv0) == (iv.app_name@, iv.detailed_title@, db as int));
                    assert forall|p: spec_fn(SummaryKey) -> bool| #[trigger] summary_sum(self.hourly@, p)
                        == summary_sum(o.hourly, p) + rolled_sum(o.intervals.take(i + 1), hs as int, hour_key_fn(), p) by {
                        assert(summary_sum(hprev, p) == summary_sum(o.hourly, p) + rolled_sum(o.intervals.take(i as int), hs as int, hour_key_fn(), p));
                        lemma_sum_take_step(o.intervals, i as int, rolled_weight(hs as int, hour_key_fn(), p));
                    }
                    assert forall|p: spec_fn(SummaryKey) -> bool| #[trigger] summary_sum(self.daily@, p)
                        == summary_sum(o.daily, p) + rolled_sum(o.intervals.take(i + 1), hs as int, day_key_fn(), p) by {
                        assert(summary_sum(dprev, p) == summary_sum(o.daily, p) + rolled_sum(o.intervals.take(i as int), hs as int, day_key_fn(), p));
                        lemma_sum_take_step(o.intervals, i as int, rolled_weight(hs as int, day_key_fn(), p));
                    }
                    assert forall|k: SummaryKey| #[trigger] has_summary_key(self.hourly@, k)
                        <==> (has_summary_key(o.hourly, k) || rolled_key(o.intervals.take(i + 1), hs as int, hour_key_fn(), k)) by {
                        assert(has_summary_key(hprev, k) <==> (has_summary_key(o.hourly, k) || rolled_key(o.intervals.take(i as int), hs as int, hour_key_fn(), k)));
                        lemma_rolled_key_step(o.intervals, i as int, hs as int, hour_key_fn(), k);
                    }
                    assert forall|k: SummaryKey| #[trigger] has_summary_key(self.daily@, k)
                        <==> (has_summary_key(o.daily, k) || rolled_key(o.intervals.take(i + 1), hs as int, day_key_fn(), k)) by {
                        assert(has_summary_key(dprev, k) <==> (has_summary_key(o.daily, k) || rolled_key(o.intervals.take(i as int), hs as int, day_key_fn(), k)));
                        lemma_rolled_key_step(o.intervals, i as int, hs as int, day_key_fn(), k);
                    }
                }
            } else {
                kept.push(self.intervals[i].duplicate());
                proof {
                    assert(kept@ == kprev.push(iv0));
                    assert forall|a: int| 0 <= a < kept@.len() implies exists|b: int| 0 <= b < i + 1 && #[trigger] kept@[a] == o.intervals[b] by {
                        if a < kprev.len() {
                            assert(kept@[a] == kprev[a]);
                        } else {
                            assert(kept@[a] == o.intervals[i as int]);
                        }
                    }
                    assert(ids_unique(kept@)) by {
                        assert forall|a: int, b: int| 0 <= a < b < kept@.len() implies (#[trigger] kept@[a]).id != (#[trigger] kept@[b]).id by {
                            if b == kprev.len() {
                                assert(kept@[a] == kprev[a]);
                                let c = choose|c: int| 0 <= c < i && #[trigger] kprev[a] == o.intervals[c];
                                assert(o.intervals[c].id != o.intervals[i as int].id);
                            } else {
                                assert(kept@[a] == kprev[a] && kept@[b] == kprev[b]);
                            }
                        }
                    }
                    assert forall|p: spec_fn(SummaryKey) -> bool| #[trigger] summary_sum(self.hourly@, p)
                        == summary_sum(o.hourly, p) + rolled_sum(o.intervals.take(i + 1), hs as int, hour_key_fn(), p) by {
                        lemma_sum_take_step(o.intervals, i as int, rolled_weight(hs as int, hour_key_fn(), p));
                    }
                    assert forall|p: spec_fn(SummaryKey) -> bool| #[trigger] summary_sum(self.daily@, p)
                        == summary_sum(o.daily, p) + rolled_sum(o.intervals.take(i + 1), hs as int, day_key_fn(), p) by {
                        lemma_sum_take_step(o.intervals, i as int, rolled_weight(hs as int, day_key_fn(), p));
                    }
                    assert forall|k: SummaryKey| #[trigger] has_summary_key(self.hourly@, k)
                        <==> (has_summary_key(o.hourly, k) || rolled_key(o.intervals.take(i + 1), hs as int, hour_key_fn(), k)) by {
                        lemma_rolled_key_step(o.intervals, i as int, hs as int, hour_key_fn(), k);
                    }
                    assert forall|k: SummaryKey| #[trigger] has_summary_key(self.daily@, k)
                        <==> (has_summary_key(o.daily, k) || rolled_key(o.intervals.take(i + 1), hs as int, day_key_fn(), k)) by {
                        lemma_rolled_key_step(o.intervals, i as int, hs as int, day_key_fn(), k);
                    }
                }
            }
            i += 1;
        }
        proof {
            assert(o.intervals.take(o.intervals.len() as int) =~= o.intervals);
            lemma_abs_nonneg(o, o.intervals.len() as int);
        }
        let ghost hours = self.hourly@;
        let ghost days = self.daily@;
        let mut j: usize = 0;
        proof {
            assert(days.take(0) =~= Seq::<SummaryRow>::empty());
            assert forall|k: int| 0 <= k < days.len() implies #[trigger] summary_abs_weight()(days[k]) >= 0 by {}
        }
        while j < self.daily.len()
            invariant
                self.daily@ == days,
                self.hourly@ == hours,
                self.intervals@ == o.intervals,
                self.next_id == o.next_id,
                0 <= j <= days.len(),
                o.wf(),
                store_magnitude(o) <= i64::MAX,
                hs == hour_floor(now as int),
                cutoff == retire_cutoff(now as int),
                kept@ == o.intervals.filter(kept_pred(hs as int)),
                ids_unique(kept@),
                forall|a: int| 0 <= a < kept@.len() ==> exists|b: int| 0 <= b < o.intervals.len() && #[trigger] kept@[a] == o.intervals[b],
                count == sum_of(o.intervals, aggregable_indicator(hs as int)),
                summary_keys_unique(hours),
                summary_keys_unique(days),
                forall|p: spec_fn(SummaryKey) -> bool| #[trigger] summary_sum(hours, p)
                    == summary_sum(o.hourly, p) + rolled_sum(o.intervals, hs as int, hour_key_fn(), p),
                forall|k: SummaryKey| #[trigger] has_summary_key(hours, k)
                    <==> (has_summary_key(o.hourly, k) || rolled_key(o.intervals, hs as int, hour_key_fn(), k)),
                forall|p: spec_fn(SummaryKey) -> bool| #[trigger] summary_sum(days, p)
                    == summary_sum(o.daily, p) + rolled_sum(o.intervals, hs as int, day_key_fn(), p),
                forall|k: SummaryKey| #[trigger] has_summary_key(days, k)
                    <==> (has_summary_key(o.daily, k) || rolled_key(o.intervals, hs as int, day_key_fn(), k)),
                0 <= interval_abs(o.intervals),
                0 <= summary_abs(o.daily),
                0 <= summary_abs(o.hourly),
                0 <= app_day_abs(o.historical),
                summary_abs(days) <= summary_abs(o.daily) + interval_abs(o.intervals),
                forall|k: int| 0 <= k < days.len() ==> #[trigger] summary_abs_weight()(days[k]) >= 0,
                app_day_keys_unique(self.historical@),
                forall|p: spec_fn(AppDayKey) -> bool| #[trigger] app_day_sum(self.historical@, p)
                    == app_day_sum(o.historical, p) + summary_sum(days.take(j as int), retired_app_day(p, cutoff as int)),
                forall|k: AppDayKey| #[trigger] has_app_day_key(self.historical@, k)
                    <==> (has_app_day_key(o.historical, k) || (k.1 < cutoff && exists|d: Seq<char>|
                        has_summary_key(days.take(j as int), (k.0, d, k.1)))),
                app_day_abs(self.historical@) <= app_day_abs(o.historical) + summary_abs(days.take(j as int)),
            decreases days.len() - j,
        {
            let ghost row = days[j as int];
            let ghost pre = days.take(j as int);
            let ghost hist_prev = self.historical@;
            proof {
                assert(days.take(j + 1) == pre.push(row)) by {
                    assert(days.take(j + 1) =~= pre.push(row));
                }
                lemma_sum_take_step(days, j as int, summary_abs_weight());
                lemma_sum_prefix_le(days, j + 1, summary_abs_weight());
            }
            if self.daily[j].bucket_start < cutoff {
                let d = &self.daily[j];
                proof {
                    assert(*d == row);
                    assert(summary_abs_weight()(row) == magnitude(row.total_duration_secs as int));
                    assert forall|x: int| 0 <= x < hist_prev.len() && app_day_key(#[trigger] hist_prev[x]) == (d.app_name@, d.bucket_start as int)
                        implies i64::MIN <= hist_prev[x].total_duration_secs + d.total_duration_secs <= i64::MAX by {
                        lemma_app_day_row_within_abs(hist_prev, x);
                    }
                }
                upsert_app_day(&mut self.historical, &d.app_name, d.bucket_start, d.total_duration_secs);
            }
            proof {
                let cur = days.take(j + 1);
                assert forall|p: spec_fn(AppDayKey) -> bool| #[trigger] app_day_sum(self.historical@, p)
                    == app_day_sum(o.historical, p) + summary_sum(cur, retired_app_day(p, cutoff as int)) by {
                    assert(app_day_sum(hist_prev, p) == app_day_sum(o.historical, p) + summary_sum(pre, retired_app_day(p, cutoff as int)));
                    lemma_sum_push(pre, row, summary_weight(retired_app_day(p, cutoff as int)));
                }
                assert forall|k: AppDayKey| #[trigger] has_app_day_key(self.historical@, k)
                    <==> (has_app_day_key(o.historical, k) || (k.1 < cutoff && exists|t: Seq<char>|
                        has_summary_key(cur, (k.0, t, k.1)))) by {
                    assert(has_app_day_key(hist_prev, k) <==> (has_app_day_key(o.historical, k) || (k.1 < cutoff && exists|t: Seq<char>|
                        has_summary_key(pre, (k.0, t, k.1)))));
                    assert forall|t: Seq<char>| #[trigger] has_summary_key(cur, (k.0, t, k.1))
                        <==> (has_summary_key(pre, (k.0, t, k.1)) || summary_key(row) == (k.0, t, k.1)) by {
                        lemma_has_summary_key_push(pre, row, (k.0, t, k.1));
                    }
                    if row.bucket_start < cutoff && k == (row.app_name@, row.bucket_start as int) {
                        assert(has_summary_key(cur, (k.0, row.detailed_title@, k.1)));
                    }
                    if k.1 < cutoff && exists|t: Seq<char>| has_summary_key(pre, (k.0, t, k.1)) {
                        let t = choose|t: Seq<char>| has_summary_key(pre, (k.0, t, k.1));
                        assert(has_summary_key(cur, (k.0, t, k.1)));
                    }
                }
            }
            j += 1;
        }
        proof {
            assert(days.take(days.len() as int) =~= days);
        }
        let new_hourly = retain_recent(&self.hourly, cutoff);
        let new_daily = retain_recent(&self.daily, cutoff);
        self.hourly = new_hourly;
        self.daily = new_daily;
        self.intervals = kept;
        proof {
            lemma_rollup_post(o, self@, hours, days, hs as int, cutoff as int, now as int);
        }
        count
    }
}

fn interval_abs_total(rows: &Vec<Interval>) -> (r: Option<i128>)
    requires
        forall|k: int| 0 <= k < rows@.len() ==> (#[trigger] rows@[k]).well_formed(i64::MAX as int + 1),
    ensures
        r matches Some(v) ==> v == interval_abs(rows@) && v <= i64::MAX,
        r is None ==> interval_abs(rows@) > i64::MAX,
{
    let mut acc: i128 = 0;
    let mut i: usize = 0;
    while i < rows.len()
        invariant
            0 <= i <= rows@.len(),
            forall|k: int| 0 <= k < rows@.len() ==> (#[trigger] rows@[k]).well_formed(i64::MAX as int + 1),
            acc == interval_abs(rows@.take(i as int)),
            0 <= acc <= i64::MAX,
        decreases rows@.len() - i,
    {
        proof {
            lemma_sum_take_step(rows@, i as int, interval_abs_weight());
            assert(rows@[i as int].well_formed(i64::MAX as int + 1));
        }
        let d: i128 = match rows[i].end_time {
            Some(e) => e as i128 - rows[i].start_time as i128,
            None => 0,
        };
        let m: i128 = if d < 0 { -d } else { d };
        acc = acc + m;
        if acc > i64::MAX as i128 {
            proof {
                assert forall|k: int| 0 <= k < rows@.len() implies #[trigger] interval_abs_weight()(rows@[k]) >= 0 by {}
                lemma_sum_prefix_le(rows@, i + 1, interval_abs_weight());
            }
            return None;
        }
        i += 1;
    }
    proof {
        lemma_sum_take_all(rows@, interval_abs_weight());
    }
    Some(acc)
}

pub(crate) fn summary_abs_total(rows: &Vec<SummaryRow>) -> (r: Option<i128>)
    ensures
        r matches Some(v) ==> v == summary_abs(rows@) && v <= i64::MAX,
        r is None ==> summary_abs(rows@) > i64::MAX,
{
    let mut acc: i128 = 0;
    let mut i: usize = 0;
    while i < rows.len()
        invariant
            0 <= i <= rows@.len(),
            acc == summary_abs(rows@.take(i as int)),
            0 <= acc <= i64::MAX,
        decreases rows@.len() - i,
    {
        proof {
            lemma_sum_take_step(rows@, i as int, summary_abs_weight());
        }
        let t = rows[i].total_duration_secs as i128;
        let m: i128 = if t < 0 { -t } else { t };
        acc = acc + m;
        if acc > i64::MAX as i128 {
            proof {
                assert forall|k: int| 0 <= k < rows@.len() implies #[trigger] summary_abs_weight()(rows@[k]) >= 0 by {}
                lemma_sum_prefix_le(rows@, i + 1, summary_abs_weight());
            }
            return None;
        }
        i += 1;
    }
    proof {
        lemma_sum_take_all(rows@, summary_abs_weight());
    }
    Some(acc)
}

pub(crate) fn app_day_abs_total(rows: &Vec<AppDayRow>) -> (r: Option<i128>)
    ensures
        r matches Some(v) ==> v == app_day_abs(rows@) && v <= i64::MAX,
        r is None ==> app_day_abs(rows@) > i64::MAX,
{
    let mut acc: i128 = 0;
    let mut i: usize = 0;
    while i < rows.len()
        invariant
            0 <= i <= rows@.len(),
            acc == app_day_abs(rows@.take(i as int)),
            0 <= acc <= i64::MAX,
        decreases rows@.len() - i,
    {
        proof {
            lemma_sum_take_step(rows@, i as int, app_day_abs_weight());
        }
        let t = rows[i].total_duration_secs as i128;
        let m: i128 = if t < 0 { -t } else { t };
        acc = acc + m;
        if acc > i64::MAX as i128 {
            proof {
                assert forall|k: int| 0 <= k < rows@.len() implies #[trigger] app_day_abs_weight()(rows@[k]) >= 0 by {}
                lemma_sum_prefix_le(rows@, i + 1, app_day_abs_weight());
            }
            return None;
        }
        i += 1;
    }
    proof {
        lemma_sum_take_all(rows@, app_day_abs_weight());
    }
    Some(acc)
}

impl IntervalStore {
    /// Whether all stored durations and totals, by magnitude, sum to at most
    /// `i64::MAX`: the condition under which the store aggregates.
    pub fn totals_fit(&self) -> (r: bool)
        requires
            self@.wf(),
        ensures
            r == (store_magnitude(self@) <= i64::MAX),
    {
        proof {
            assert forall|k: int| 0 <= k < self@.intervals.len() implies
                (#[trigger] self@.intervals[k]).well_formed(i64::MAX as int + 1) by {
                assert(self@.intervals[k].well_formed(self@.next_id));
            }
            lemma_abs_nonneg(self@, 0);
        }
        let a = match interval_abs_total(&self.intervals) {
            Some(v) => v,
            None => return false,
        };
        let b = match summary_abs_total(&self.hourly) {
            Some(v) => v,
            None => return false,
        };
        let c = match summary_abs_total(&self.daily) {
            Some(v) => v,
            None => return false,
        };
        let d = match app_day_abs_total(&self.historical) {
            Some(v) => v,
            None => return false,
        };
        a + b + c + d <= i64::MAX as i128
    }

    /// Runs one aggregation cycle as at time `now`: every interval that closed
    /// before the current hour is added, by its start time's hour and day,
    /// into the hourly and daily summaries and removed; hourly and daily rows
    /// from before yesterday are dropped, the daily ones after being added
    /// into the long-term per-application totals. Returns how many intervals
    /// were rolled up. All or nothing: on error the store is unchanged.
    pub fn aggregate_and_cleanup(&mut self, now: i64) -> (r: Result<usize, StoreError>)
        requires
            old(self)@.wf(),
        ensures
            final(self)@.wf(),
            r is Ok <==> valid_timestamp(now as int) && store_magnitude(old(self)@) <= i64::MAX,
            r == Err::<usize, StoreError>(StoreError::TimestampOutOfRange) <==> !valid_timestamp(now as int),
            r is Err ==> final(self)@ == old(self)@,
            r matches Ok(n) ==> {
                &&& rollup_result(old(self)@, final(self)@, now as int)
                &&& n == sum_of(old(self)@.intervals, aggregable_indicator(hour_floor(now as int)))
            },
    {
        if now < -TIMESTAMP_LIMIT || now >= TIMESTAMP_LIMIT {
            return Err(StoreError::TimestampOutOfRange);
        }
        if !self.totals_fit() {
            return Err(StoreError::TotalsTooLarge);
        }
        Ok(self.rollup(now))
    }

}

/// A rollup leaves no interval that the same rollup would take again.
pub proof fn lemma_rollup_leaves_nothing_aggregable(rows: Seq<Interval>, hour_start: int)
    ensures
        forall|k: int| 0 <= k < rows.filter(kept_pred(hour_start)).len()
            ==> !aggregable(#[trigger] rows.filter(kept_pred(hour_start))[k], hour_start),
{
    assert forall|k: int| 0 <= k < rows.filter(kept_pred(hour_start)).len()
        implies !aggregable(#[trigger] rows.filter(kept_pred(hour_start))[k], hour_start) by {
        rows.lemma_filter_pred(kept_pred(hour_start), k);
    }
}

pub proof fn lemma_filter_all<A>(s: Seq<A>, p: spec_fn(A) -> bool)
    requires
        forall|k: int| 0 <= k < s.len() ==> p(#[trigger] s[k]),
    ensures
        s.filter(p) == s,
    decreases s.len(),
{
    reveal(Seq::filter);
    if s.len() > 0 {
        lemma_filter_all(s.drop_last(), p);
        assert(s.drop_last().push(s.last()) =~= s);
    } else {
        assert(s =~= Seq::<A>::empty());
    }
}

/// Aggregating twice at the same time: the second run finds no interval to
/// roll up and changes neither the raw intervals nor any summary total or
/// key.
pub proof fn lemma_rollup_idempotent(s0: StoreView, s1: StoreView, s2: StoreView, now: int)
    requires
        s0.wf(),
        rollup_result(s0, s1, now),
        rollup_result(s1, s2, now),
    ensures
        sum_of(s1.intervals, aggregable_indicator(hour_floor(now))) == 0,
        s2.intervals == s1.intervals,
        forall|p: spec_fn(SummaryKey) -> bool| #[trigger] summary_sum(s2.hourly, p) == summary_sum(s1.hourly, p),
        forall|p: spec_fn(SummaryKey) -> bool| #[trigger] summary_sum(s2.daily, p) == summary_sum(s1.daily, p),
        forall|p: spec_fn(AppDayKey) -> bool| #[trigger] app_day_sum(s2.historical, p) == app_day_sum(s1.historical, p),
        forall|k: SummaryKey| #[trigger] has_summary_key(s2.hourly, k) == has_summary_key(s1.hourly, k),
        forall|k: SummaryKey| #[trigger] has_summary_key(s2.daily, k) == has_summary_key(s1.daily, k),
        forall|k: AppDayKey| #[trigger] has_app_day_key(s2.historical, k) == has_app_day_key(s1.historical, k),
{
    let hs = hour_floor(now);
    let c = retire_cutoff(now);
    lemma_rollup_leaves_nothing_aggregable(s0.intervals, hs);
    let rows = s1.intervals;
    assert(forall|k: int| 0 <= k < rows.len() ==> !aggregable(#[trigger] rows[k], hs));
    crate::sums::lemma_sum_zero(rows, aggregable_indicator(hs));
    assert forall|k: int| 0 <= k < rows.len() implies kept_pred(hs)(#[trigger] rows[k]) by {}
    lemma_filter_all(rows, kept_pred(hs));
    assert forall|key: spec_fn(Interval) -> SummaryKey, p: spec_fn(SummaryKey) -> bool|
        #[trigger] rolled_sum(rows, hs, key, p) == 0 by {
        crate::sums::lemma_sum_zero(rows, rolled_weight(hs, key, p));
    }
    assert forall|key: spec_fn(Interval) -> SummaryKey, k: SummaryKey| !#[trigger] rolled_key(rows, hs, key, k) by {}
    assert forall|p: spec_fn(SummaryKey) -> bool| #[trigger] summary_sum(s2.hourly, p) == summary_sum(s1.hourly, p) by {
        assert(recent(recent(p, c), c) =~= recent(p, c));
        assert(summary_sum(s1.hourly, recent(p, c)) == summary_sum(s0.hourly, recent(recent(p, c), c))
            + rolled_sum(s0.intervals, hs, hour_key_fn(), recent(recent(p, c), c)));
        assert(rolled_sum(rows, hs, hour_key_fn(), recent(p, c)) == 0);
    }
    assert forall|p: spec_fn(SummaryKey) -> bool| #[trigger] summary_sum(s2.daily, p) == summary_sum(s1.daily, p) by {
        assert(recent(recent(p, c), c) =~= recent(p, c));
        assert(summary_sum(s1.daily, recent(p, c)) == summary_sum(s0.daily, recent(recent(p, c), c))
            + rolled_sum(s0.intervals, hs, day_key_fn(), recent(recent(p, c), c)));
        assert(rolled_sum(rows, hs, day_key_fn(), recent(p, c)) == 0);
    }
    assert forall|p: spec_fn(AppDayKey) -> bool| #[trigger] app_day_sum(s2.historical, p) == app_day_sum(s1.historical, p) by {
        let q = retired_app_day(p, c);
        assert(summary_sum(s1.daily, q) == summary_sum(s0.daily, recent(q, c)) + rolled_sum(s0.intervals, hs, day_key_fn(), recent(q, c)));
        assert forall|k: int| 0 <= k < s0.daily.len() implies #[trigger] summary_weight(recent(q, c))(s0.daily[k]) == 0 by {}
        crate::sums::lemma_sum_zero(s0.daily, summary_weight(recent(q, c)));
        assert forall|k: int| 0 <= k < s0.intervals.len() implies #[trigger] rolled_weight(hs, day_key_fn(), recent(q, c))(s0.intervals[k]) == 0 by {}
        crate::sums::lemma_sum_zero(s0.intervals, rolled_weight(hs, day_key_fn(), recent(q, c)));
        assert(rolled_sum(rows, hs, day_key_fn(), q) == 0);
    }
    assert forall|k: SummaryKey| #[trigger] has_summary_key(s2.hourly, k) == has_summary_key(s1.hourly, k) by {
        assert(!rolled_key(rows, hs, hour_key_fn(), k));
    }
    assert forall|k: SummaryKey| #[trigger] has_summary_key(s2.daily, k) == has_summary_key(s1.daily, k) by {
        assert(!rolled_key(rows, hs, day_key_fn(), k));
    }
    assert forall|k: AppDayKey| #[trigger] has_app_day_key(s2.historical, k) == has_app_day_key(s1.historical, k) by {
        assert forall|d: Seq<char>| !(#[trigger] has_summary_key(s1.daily, (k.0, d, k.1)) && k.1 < c) by {}
        assert forall|d: Seq<char>| !#[trigger] rolled_key(rows, hs, day_key_fn(), (k.0, d, k.1)) by {}
    }
}

} // verus!
