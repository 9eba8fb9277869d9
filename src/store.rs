//! The interval store: raw usage intervals with their open/close discipline,
//! and the hourly, daily and long-term summary tables they are rolled into.

use vstd::prelude::*;
use crate::sums::{lemma_sum_take_all, lemma_sum_take_step, sum_of};
use crate::time_bucket::{valid_timestamp, TIMESTAMP_LIMIT};

verus! {

/// One stretch of time attributed to an application window. `end_time` is
/// `None` while the interval is open.
#[derive(Debug, Clone)]
pub struct Interval {
    pub id: i64,
    pub app_name: String,
    pub main_title: String,
    pub detailed_title: String,
    pub start_time: i64,
    pub end_time: Option<i64>,
}

impl Interval {
    pub open spec fn is_open(&self) -> bool {
        self.end_time is None
    }

    /// Seconds covered by a closed interval; an open one has none yet.
    pub open spec fn duration(&self) -> int {
        match self.end_time {
            Some(e) => e - self.start_time,
            None => 0,
        }
    }

    /// A field-by-field copy.
    pub fn duplicate(&self) -> (r: Interval)
        ensures
            r == *self,
    {
        Interval {
            id: self.id,
            app_name: self.app_name.clone(),
            main_title: self.main_title.clone(),
            detailed_title: self.detailed_title.clone(),
            start_time: self.start_time,
            end_time: self.end_time,
        }
    }

    pub open spec fn well_formed(&self, next_id: int) -> bool {
        &&& 1 <= self.id < next_id
        &&& valid_timestamp(self.start_time as int)
        &&& (self.end_time matches Some(e) ==> valid_timestamp(e as int))
    }
}

/// Accumulated seconds of one application and window title in one hour or
/// day bucket.
#[derive(Debug, Clone)]
pub struct SummaryRow {
    pub app_name: String,
    pub detailed_title: String,
    pub bucket_start: i64,
    pub total_duration_secs: i64,
}

impl SummaryRow {
    /// A field-by-field copy.
    pub fn duplicate(&self) -> (r: SummaryRow)
        ensures
            r == *self,
    {
        SummaryRow {
            app_name: self.app_name.clone(),
            detailed_title: self.detailed_title.clone(),
            bucket_start: self.bucket_start,
            total_duration_secs: self.total_duration_secs,
        }
    }
}

/// Accumulated seconds of one application on one day, kept once the day's
/// detailed rows have been retired.
#[derive(Debug, Clone)]
pub struct AppDayRow {
    pub app_name: String,
    pub day_timestamp: i64,
    pub total_duration_secs: i64,
}

/// Key of a summary row: application, window title, bucket start.
pub type SummaryKey = (Seq<char>, Seq<char>, int);

/// Key of a long-term row: application, day start.
pub type AppDayKey = (Seq<char>, int);

pub open spec fn summary_key(r: SummaryRow) -> SummaryKey {
    (r.app_name@, r.detailed_title@, r.bucket_start as int)
}

pub open spec fn app_day_key(r: AppDayRow) -> AppDayKey {
    (r.app_name@, r.day_timestamp as int)
}

pub open spec fn summary_keys_unique(rows: Seq<SummaryRow>) -> bool {
    forall|i: int, j: int|
        0 <= i < j < rows.len() ==> summary_key(#[trigger] rows[i]) != summary_key(#[trigger] rows[j])
}

pub open spec fn app_day_keys_unique(rows: Seq<AppDayRow>) -> bool {
    forall|i: int, j: int|
        0 <= i < j < rows.len() ==> app_day_key(#[trigger] rows[i]) != app_day_key(#[trigger] rows[j])
}

pub open spec fn has_summary_key(rows: Seq<SummaryRow>, k: SummaryKey) -> bool {
    exists|i: int| 0 <= i < rows.len() && summary_key(#[trigger] rows[i]) == k
}

pub open spec fn has_app_day_key(rows: Seq<AppDayRow>, k: AppDayKey) -> bool {
    exists|i: int| 0 <= i < rows.len() && app_day_key(#[trigger] rows[i]) == k
}

pub open spec fn ids_unique(rows: Seq<Interval>) -> bool {
    forall|i: int, j: int| 0 <= i < j < rows.len() ==> (#[trigger] rows[i]).id != (#[trigger] rows[j]).id
}

/// Whether some interval with this id is still open.
pub open spec fn has_open(rows: Seq<Interval>, id: i64) -> bool {
    exists|i: int| 0 <= i < rows.len() && (#[trigger] rows[i]).id == id && rows[i].is_open()
}

/// The interval after closing `id` at `end`: only an open interval with
/// that id changes.
pub open spec fn close_row(iv: Interval, id: i64, end: i64) -> Interval {
    if iv.id == id && iv.is_open() {
        Interval { end_time: Some(end), ..iv }
    } else {
        iv
    }
}

pub open spec fn close_rows(rows: Seq<Interval>, id: i64, end: i64) -> Seq<Interval> {
    rows.map_values(|iv: Interval| close_row(iv, id, end))
}

/// How recovery closes an interval left open: one that started before
/// `cutoff` gets no duration (it ends where it started), a more recent one
/// ends at `now`. Closed intervals stay as they are.
pub open spec fn dangling_close(iv: Interval, now: i64, cutoff: int) -> Interval {
    if iv.is_open() {
        if (iv.start_time as int) < cutoff {
            Interval { end_time: Some(iv.start_time), ..iv }
        } else {
            Interval { end_time: Some(now), ..iv }
        }
    } else {
        iv
    }
}

pub open spec fn open_indicator(iv: Interval) -> int {
    if iv.is_open() { 1 } else { 0 }
}

/// Number of open intervals.
pub open spec fn open_count(rows: Seq<Interval>) -> int {
    sum_of(rows, |iv: Interval| open_indicator(iv))
}

/// Closing an interval is idempotent: the first close of an open interval
/// leaves no open interval with that id, so a second close (at any time)
/// changes nothing and reports no row.
pub proof fn lemma_finalize_interval_idempotent(
    rows: Seq<Interval>,
    id: i64,
    first_end: i64,
    second_end: i64,
)
    requires
        ids_unique(rows),
    ensures
        !has_open(close_rows(rows, id, first_end), id),
        close_rows(close_rows(rows, id, first_end), id, second_end) == close_rows(rows, id, first_end),
{
    let once = close_rows(rows, id, first_end);
    assert forall|i: int| 0 <= i < once.len() implies !((#[trigger] once[i]).id == id && once[i].is_open()) by {
        assert(once[i] == close_row(rows[i], id, first_end));
    }
    let twice = close_rows(once, id, second_end);
    assert forall|i: int| 0 <= i < twice.len() implies twice[i] == once[i] by {
        assert(twice[i] == close_row(once[i], id, second_end));
    }
    assert(twice =~= once);
}

/// Why the store refused a request.
#[derive(Debug, Clone, Copy, PartialEq, Eq, Structural)]
pub enum StoreError {
    /// The stored durations and totals are too large, taken together, for
    /// every sum over them to fit in an `i64`.
    TotalsTooLarge,
    /// A timestamp lies outside the range the store computes with.
    TimestampOutOfRange,
    /// Rows handed to the store break its rules: an id out of range or used
    /// twice, a timestamp out of range, or a summary key used twice.
    MalformedRows,
}

/// The contents of a store.
pub struct StoreView {
    pub intervals: Seq<Interval>,
    pub next_id: int,
    pub hourly: Seq<SummaryRow>,
    pub daily: Seq<SummaryRow>,
    pub historical: Seq<AppDayRow>,
}

impl StoreView {
    pub open spec fn wf(&self) -> bool {
        &&& 1 <= self.next_id <= i64::MAX
        &&& forall|i: int|
            0 <= i < self.intervals.len() ==> (#[trigger] self.intervals[i]).well_formed(self.next_id)
        &&& ids_unique(self.intervals)
        &&& summary_keys_unique(self.hourly)
        &&& summary_keys_unique(self.daily)
        &&& app_day_keys_unique(self.historical)
    }
}

/// All stored usage data: raw intervals (ids handed out in increasing order)
/// and the three summary tables.
pub struct IntervalStore {
    pub(crate) intervals: Vec<Interval>,
    pub(crate) next_id: i64,
    pub(crate) hourly: Vec<SummaryRow>,
    pub(crate) daily: Vec<SummaryRow>,
    pub(crate) historical: Vec<AppDayRow>,
}

impl View for IntervalStore {
    type V = StoreView;

    open(crate) spec fn view(&self) -> StoreView {
        StoreView {
            intervals: self.intervals@,
            next_id: self.next_id as int,
            hourly: self.hourly@,
            daily: self.daily@,
            historical: self.historical@,
        }
    }
}

impl IntervalStore {
    /// An empty store; the first interval gets id 1.
    pub fn new() -> (r: IntervalStore)
        ensures
            r@.wf(),
            r@.intervals.len() == 0,
            r@.next_id == 1,
            r@.hourly.len() == 0,
            r@.daily.len() == 0,
            r@.historical.len() == 0,
    {
        IntervalStore {
            intervals: Vec::new(),
            next_id: 1,
            hourly: Vec::new(),
            daily: Vec::new(),
            historical: Vec::new(),
        }
    }

    pub fn intervals(&self) -> (r: &Vec<Interval>)
        ensures
            r@ == self@.intervals,
    {
        &self.intervals
    }

    pub fn next_id(&self) -> (r: i64)
        ensures
            r == self@.next_id,
    {
        self.next_id
    }

    pub fn hourly_summary(&self) -> (r: &Vec<SummaryRow>)
        ensures
            r@ == self@.hourly,
    {
        &self.hourly
    }

    pub fn daily_summary(&self) -> (r: &Vec<SummaryRow>)
        ensures
            r@ == self@.daily,
    {
        &self.daily
    }

    pub fn historical_summary(&self) -> (r: &Vec<AppDayRow>)
        ensures
            r@ == self@.historical,
    {
        &self.historical
    }

    /// Opens a new interval starting at `start_time` and returns its id. Ids
    /// run out only at `i64::MAX`, in which case nothing changes and `None`
    /// comes back.
    pub fn insert_new_interval(
        &mut self,
        app_name: &str,
        main_title: &str,
        detailed_title: &str,
        start_time: i64,
    ) -> (r: Option<i64>)
        requires
            old(self)@.wf(),
            valid_timestamp(start_time as int),
        ensures
            final(self)@.wf(),
            old(self)@.next_id < i64::MAX <==> r is Some,
            r is None ==> final(self)@ == old(self)@,
            r matches Some(id) ==> {
                &&& id == old(self)@.next_id
                &&& final(self)@.next_id == id + 1
                &&& final(self)@.intervals.len() == old(self)@.intervals.len() + 1
                &&& final(self)@.intervals.drop_last() == old(self)@.intervals
                &&& final(self)@.intervals.last().id == id
                &&& final(self)@.intervals.last().app_name@ == app_name@
                &&& final(self)@.intervals.last().main_title@ == main_title@
                &&& final(self)@.intervals.last().detailed_title@ == detailed_title@
                &&& final(self)@.intervals.last().start_time == start_time
                &&& final(self)@.intervals.last().end_time is None
                &&& final(self)@.hourly == old(self)@.hourly
                &&& final(self)@.daily == old(self)@.daily
                &&& final(self)@.historical == old(self)@.historical
            },
    {
        if self.next_id == i64::MAX {
            return None;
        }
        let id = self.next_id;
        let iv = Interval {
            id,
            app_name: app_name.to_owned(),
            main_title: main_title.to_owned(),
            detailed_title: detailed_title.to_owned(),
            start_time,
            end_time: None,
        };
        self.intervals.push(iv);
        self.next_id = id + 1;
        proof {
            assert(self@.intervals.drop_last() =~= old(self)@.intervals);
            assert forall|i: int| 0 <= i < self@.intervals.len()
                implies (#[trigger] self@.intervals[i]).well_formed(self@.next_id) by {
                if i < old(self)@.intervals.len() {
                    assert(old(self)@.intervals[i].well_formed(old(self)@.next_id));
                }
            }
        }
        Some(id)
    }

    /// Closes interval `id` at `end_time` if it is still open, and says how
    /// many rows changed: 1 then, 0 when there is no such open interval
    /// (already closed, or unknown). A closed interval's end never changes.
    pub fn finalize_interval(&mut self, id: i64, end_time: i64) -> (r: usize)
        requires
            old(self)@.wf(),
            valid_timestamp(end_time as int),
        ensures
            final(self)@.wf(),
            r == (if has_open(old(self)@.intervals, id) { 1usize } else { 0usize }),
            final(self)@.intervals == close_rows(old(self)@.intervals, id, end_time),
            final(self)@.next_id == old(self)@.next_id,
            final(self)@.hourly == old(self)@.hourly,
            final(self)@.daily == old(self)@.daily,
            final(self)@.historical == old(self)@.historical,
    {
        let mut i: usize = 0;
        while i < self.intervals.len()
            invariant
                0 <= i <= self.intervals.len(),
                self.intervals.len() == old(self).intervals.len(),
                self.next_id == old(self).next_id,
                self.hourly == old(self).hourly,
                self.daily == old(self).daily,
                self.historical == old(self).historical,
                self@ == old(self)@,
                old(self)@.wf(),
                valid_timestamp(end_time as int),
                forall|k: int| 0 <= k < i ==> !((#[trigger] self.intervals@[k]).id == id && self.intervals@[k].is_open()),
            decreases self.intervals.len() - i,
        {
            if self.intervals[i].id == id && self.intervals[i].end_time.is_none() {
                let mut iv = self.intervals[i].duplicate();
                iv.end_time = Some(end_time);
                self.intervals.set(i, iv);
                proof {
                    assert(has_open(old(self)@.intervals, id));
                    assert(self@.intervals =~= close_rows(old(self)@.intervals, id, end_time)) by {
                        assert forall|k: int| 0 <= k < self@.intervals.len() implies
                            self@.intervals[k] == close_row(old(self)@.intervals[k], id, end_time) by {
                            if k != i {
                                assert(old(self)@.intervals[k].id != id);
                            }
                        }
                    }
                    assert forall|k: int| 0 <= k < self@.intervals.len()
                        implies (#[trigger] self@.intervals[k]).well_formed(self@.next_id) by {
                        assert(old(self)@.intervals[k].well_formed(old(self)@.next_id));
                        assert(self@.intervals[k] == close_row(old(self)@.intervals[k], id, end_time));
                    }
                    assert(ids_unique(self@.intervals)) by {
                        assert forall|a: int, b: int| 0 <= a < b < self@.intervals.len()
                            implies (#[trigger] self@.intervals[a]).id != (#[trigger] self@.intervals[b]).id by {
                            assert(old(self)@.intervals[a].id != old(self)@.intervals[b].id);
                        }
                    }
                }
                return 1;
            }
            i += 1;
        }
        proof {
            assert(self@.intervals =~= close_rows(old(self)@.intervals, id, end_time));
        }
        0
    }

    /// Startup recovery: closes every interval left open. One that started
    /// more than `threshold_secs` before `now` is closed with no duration
    /// (no usage is made up for it); a more recent one is closed at `now`.
    /// Returns how many were closed.
    pub fn finalize_dangling_intervals(&mut self, now: i64, threshold_secs: i64) -> (r: usize)
        requires
            old(self)@.wf(),
            valid_timestamp(now as int),
        ensures
            final(self)@.wf(),
            final(self)@.intervals == old(self)@.intervals.map_values(
                |iv: Interval| dangling_close(iv, now, now - threshold_secs),
            ),
            r == open_count(old(self)@.intervals),
            final(self)@.next_id == old(self)@.next_id,
            final(self)@.hourly == old(self)@.hourly,
            final(self)@.daily == old(self)@.daily,
            final(self)@.historical == old(self)@.historical,
    {
        let ghost cutoff: int = now - threshold_secs;
        let ghost f = |iv: Interval| open_indicator(iv);
        let cutoff_wide: i128 = now as i128 - threshold_secs as i128;
        let mut closed: usize = 0;
        let mut i: usize = 0;
        while i < self.intervals.len()
            invariant
                0 <= i <= self.intervals.len(),
                self.intervals.len() == old(self).intervals.len(),
                self.next_id == old(self).next_id,
                self.hourly == old(self).hourly,
                self.daily == old(self).daily,
                self.historical == old(self).historical,
                old(self)@.wf(),
                valid_timestamp(now as int),
                cutoff == now - threshold_secs,
                cutoff_wide == cutoff,
                f == |iv: Interval| open_indicator(iv),
                closed as int == sum_of(old(self)@.intervals.take(i as int), f),
                closed <= i,
                forall|k: int| 0 <= k < i ==> #[trigger] self@.intervals[k] == dangling_close(old(self)@.intervals[k], now, cutoff),
                forall|k: int| i <= k < self@.intervals.len() ==> #[trigger] self@.intervals[k] == old(self)@.intervals[k],
            decreases self.intervals.len() - i,
        {
            proof {
                lemma_sum_take_step(old(self)@.intervals, i as int, f);
                assert(self@.intervals[i as int] == old(self)@.intervals[i as int]);
            }
            let ghost prev = self@.intervals;
            if self.intervals[i].end_time.is_none() {
                let mut iv = self.intervals[i].duplicate();
                if (iv.start_time as i128) < cutoff_wide {
                    iv.end_time = Some(iv.start_time);
                } else {
                    iv.end_time = Some(now);
                }
                self.intervals.set(i, iv);
                closed += 1;
                assert(self@.intervals[i as int] == dangling_close(old(self)@.intervals[i as int], now, cutoff));
            }
            assert forall|k: int| 0 <= k < self@.intervals.len() && k != i implies #[trigger] self@.intervals[k] == prev[k] by {}
            i += 1;
        }
        proof {
            lemma_sum_take_all(old(self)@.intervals, f);
            let m = old(self)@.intervals.map_values(|iv: Interval| dangling_close(iv, now, now - threshold_secs));
            assert(self@.intervals =~= m);
            assert forall|k: int| 0 <= k < self@.intervals.len()
                implies (#[trigger] self@.intervals[k]).well_formed(self@.next_id) by {
                assert(old(self)@.intervals[k].well_formed(old(self)@.next_id));
            }
            assert(ids_unique(self@.intervals)) by {
                assert forall|a: int, b: int| 0 <= a < b < self@.intervals.len()
                    implies (#[trigger] self@.intervals[a]).id != (#[trigger] self@.intervals[b]).id by {
                    assert(old(self)@.intervals[a].id != old(self)@.intervals[b].id);
                }
            }
        }
        closed
    }
}

/// What loading rows into a store asks of them: the next id to hand out
/// between 1 and `i64::MAX`; interval ids from 1, below it and distinct;
/// timestamps in range; summary keys distinct.
pub open spec fn loadable(
    intervals: Seq<Interval>,
    next_id: int,
    hourly: Seq<SummaryRow>,
    daily: Seq<SummaryRow>,
    historical: Seq<AppDayRow>,
) -> bool {
    &&& 1 <= next_id <= i64::MAX
    &&& forall|i: int| 0 <= i < intervals.len() ==> (#[trigger] intervals[i]).well_formed(next_id)
    &&& ids_unique(intervals)
    &&& summary_keys_unique(hourly)
    &&& summary_keys_unique(daily)
    &&& app_day_keys_unique(historical)
}

fn interval_ids_distinct(rows: &Vec<Interval>) -> (r: bool)
    ensures
        r == ids_unique(rows@),
{
    let n = rows.len();
    let mut i: usize = 0;
    while i < n
        invariant
            n == rows@.len(),
            0 <= i <= n,
            forall|a: int, b: int| 0 <= a < i && a < b < n ==> (#[trigger] rows@[a]).id != (#[trigger] rows@[b]).id,
        decreases n - i,
    {
        let mut j: usize = i + 1;
        while j < n
            invariant
                n == rows@.len(),
                0 <= i < n,
                i + 1 <= j <= n,
                forall|a: int, b: int| 0 <= a < i && a < b < n ==> (#[trigger] rows@[a]).id != (#[trigger] rows@[b]).id,
                forall|b: int| i < b < j ==> rows@[i as int].id != (#[trigger] rows@[b]).id,
            decreases n - j,
        {
            if rows[i].id == rows[j].id {
                return false;
            }
            j += 1;
        }
        i += 1;
    }
    true
}

fn summary_keys_distinct(rows: &Vec<SummaryRow>) -> (r: bool)
    ensures
        r == summary_keys_unique(rows@),
{
    let n = rows.len();
    let mut i: usize = 0;
    while i < n
        invariant
            n == rows@.len(),
            0 <= i <= n,
            forall|a: int, b: int| 0 <= a < i && a < b < n ==> summary_key(#[trigger] rows@[a]) != summary_key(#[trigger] rows@[b]),
        decreases n - i,
    {
        let mut j: usize = i + 1;
        while j < n
            invariant
                n == rows@.len(),
                0 <= i < n,
                i + 1 <= j <= n,
                forall|a: int, b: int| 0 <= a < i && a < b < n ==> summary_key(#[trigger] rows@[a]) != summary_key(#[trigger] rows@[b]),
                forall|b: int| i < b < j ==> summary_key(rows@[i as int]) != summary_key(#[trigger] rows@[b]),
            decreases n - j,
        {
            if rows[i].app_name == rows[j].app_name && rows[i].detailed_title == rows[j].detailed_title
                && rows[i].bucket_start == rows[j].bucket_start {
                return false;
            }
            j += 1;
        }
        i += 1;
    }
    true
}

fn app_day_keys_distinct(rows: &Vec<AppDayRow>) -> (r: bool)
    ensures
        r == app_day_keys_unique(rows@),
{
    let n = rows.len();
    let mut i: usize = 0;
    while i < n
        invariant
            n == rows@.len(),
            0 <= i <= n,
            forall|a: int, b: int| 0 <= a < i && a < b < n ==> app_day_key(#[trigger] rows@[a]) != app_day_key(#[trigger] rows@[b]),
        decreases n - i,
    {
        let mut j: usize = i + 1;
        while j < n
            invariant
                n == rows@.len(),
                0 <= i < n,
                i + 1 <= j <= n,
                forall|a: int, b: int| 0 <= a < i && a < b < n ==> app_day_key(#[trigger] rows@[a]) != app_day_key(#[trigger] rows@[b]),
                forall|b: int| i < b < j ==> app_day_key(rows@[i as int]) != app_day_key(#[trigger] rows@[b]),
            decreases n - j,
        {
            if rows[i].app_name == rows[j].app_name && rows[i].day_timestamp == rows[j].day_timestamp {
                return false;
            }
            j += 1;
        }
        i += 1;
    }
    true
}

impl IntervalStore {
    /// A store holding the given rows, e.g. as read back from disk, that
    /// hands out `next_id` next. Fails with `MalformedRows`, and builds
    /// nothing, unless the rows are `loadable`.
    pub fn from_rows(
        intervals: Vec<Interval>,
        next_id: i64,
        hourly: Vec<SummaryRow>,
        daily: Vec<SummaryRow>,
        historical: Vec<AppDayRow>,
    ) -> (r: Result<IntervalStore, StoreError>)
        ensures
            r is Ok <==> loadable(intervals@, next_id as int, hourly@, daily@, historical@),
            r is Err ==> r == Err::<IntervalStore, StoreError>(StoreError::MalformedRows),
            r matches Ok(s) ==> {
                &&& s@.wf()
                &&& s@.intervals == intervals@
                &&& s@.next_id == next_id
                &&& s@.hourly == hourly@
                &&& s@.daily == daily@
                &&& s@.historical == historical@
            },
    {
        if next_id < 1 {
            return Err(StoreError::MalformedRows);
        }
        let mut i: usize = 0;
        while i < intervals.len()
            invariant
                0 <= i <= intervals@.len(),
                1 <= next_id,
                forall|k: int| 0 <= k < i ==> (#[trigger] intervals@[k]).well_formed(next_id as int),
            decreases intervals@.len() - i,
        {
            let iv = &intervals[i];
            let end_ok = match iv.end_time {
                Some(e) => -TIMESTAMP_LIMIT <= e && e < TIMESTAMP_LIMIT,
                None => true,
            };
            if !(1 <= iv.id && iv.id < next_id && -TIMESTAMP_LIMIT <= iv.start_time
                && iv.start_time < TIMESTAMP_LIMIT && end_ok) {
                proof {
                    assert(!intervals@[i as int].well_formed(next_id as int));
                }
                return Err(StoreError::MalformedRows);
            }
            i += 1;
        }
        if !interval_ids_distinct(&intervals) || !summary_keys_distinct(&hourly) || !summary_keys_distinct(&daily)
            || !app_day_keys_distinct(&historical) {
            return Err(StoreError::MalformedRows);
        }
        Ok(IntervalStore { intervals, next_id, hourly, daily, historical })
    }
}

} // verus!
