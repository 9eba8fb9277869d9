//! The tracking state machine: one step per poll, opening and closing
//! intervals in the store so that exactly the current target has an open one.

use vstd::prelude::*;
use crate::detection::ActivityInfo;
use crate::store::{
    close_row, close_rows, has_open, ids_unique, open_count, open_indicator, Interval, IntervalStore,
    StoreView,
};
use crate::sums::lemma_sum_push;
use crate::time_bucket::valid_timestamp;

verus! {

/// The application window an open interval is attributed to.
#[derive(Debug)]
pub struct TrackedTarget {
    pub app_name: String,
    pub main_title: String,
    pub detailed_title: String,
}

impl TrackedTarget {
    pub fn from(info: ActivityInfo) -> (r: TrackedTarget)
        ensures
            r.app_name == info.app_name,
            r.main_title == info.main_title,
            r.detailed_title == info.detailed_title,
    {
        TrackedTarget {
            app_name: info.app_name,
            main_title: info.main_title,
            detailed_title: info.detailed_title,
        }
    }

    /// All three fields agree with what the detector reported.
    pub open spec fn same_as(&self, info: ActivityInfo) -> bool {
        &&& self.app_name@ == info.app_name@
        &&& self.main_title@ == info.main_title@
        &&& self.detailed_title@ == info.detailed_title@
    }

    /// The interval is attributed to this target.
    pub open spec fn describes(&self, iv: Interval) -> bool {
        &&& self.app_name@ == iv.app_name@
        &&& self.main_title@ == iv.main_title@
        &&& self.detailed_title@ == iv.detailed_title@
    }

    fn matches(&self, info: &ActivityInfo) -> (r: bool)
        ensures
            r == self.same_as(*info),
    {
        self.app_name == info.app_name && self.main_title == info.main_title
            && self.detailed_title == info.detailed_title
    }
}

/// Number of closed intervals.
pub open spec fn closed_count(rows: Seq<Interval>) -> int {
    rows.len() - open_count(rows)
}

/// Closing `id` closes exactly one interval when it is open, none otherwise.
pub proof fn lemma_close_rows_open_count(rows: Seq<Interval>, id: i64, end: i64)
    requires
        ids_unique(rows),
    ensures
        close_rows(rows, id, end).len() == rows.len(),
        open_count(close_rows(rows, id, end)) == open_count(rows) - (if has_open(rows, id) { 1int } else { 0 }),
    decreases rows.len(),
{
    let f = |iv: Interval| open_indicator(iv);
    if rows.len() > 0 {
        let rest = rows.drop_last();
        let x = rows.last();
        assert(ids_unique(rest));
        lemma_close_rows_open_count(rest, id, end);
        let closed = close_rows(rows, id, end);
        assert(closed.drop_last() =~= close_rows(rest, id, end));
        assert(closed.last() == close_row(x, id, end));
        if x.id == id {
            assert forall|i: int| 0 <= i < rest.len() implies (#[trigger] rest[i]).id != id by {
                assert(rows[i].id != rows[rows.len() - 1].id);
            }
            assert(!has_open(rest, id));
            if x.is_open() {
                assert(has_open(rows, id)) by {
                    assert(rows[rows.len() - 1].id == id);
                }
            } else {
                assert forall|i: int| 0 <= i < rows.len() implies !((#[trigger] rows[i]).id == id && rows[i].is_open()) by {
                    if i < rest.len() {
                        assert(rest[i] == rows[i]);
                    }
                }
            }
        } else {
            if has_open(rows, id) {
                let i = choose|i: int| 0 <= i < rows.len() && (#[trigger] rows[i]).id == id && rows[i].is_open();
                assert(rest[i] == rows[i]);
                assert(has_open(rest, id));
            }
            if has_open(rest, id) {
                let i = choose|i: int| 0 <= i < rest.len() && (#[trigger] rest[i]).id == id && rest[i].is_open();
                assert(rows[i] == rest[i]);
            }
        }
    } else {
        assert(close_rows(rows, id, end) =~= rows);
    }
}

/// Where the tracker stands: idle, or tracking a target whose interval is
/// open under the given id.
#[derive(Debug)]
pub struct TrackerState {
    pub current_target: Option<(TrackedTarget, i64)>,
}

impl TrackerState {
    /// Consistency of the tracker with the store: when idle no interval is
    /// open; when tracking, exactly one is, the tracked one, and it belongs
    /// to the tracked target.
    pub open spec fn consistent_with(&self, store: StoreView) -> bool {
        &&& store.wf()
        &&& match self.current_target {
            None => open_count(store.intervals) == 0,
            Some((t, id)) => {
                &&& open_count(store.intervals) == 1
                &&& has_open(store.intervals, id)
                &&& forall|k: int|
                    0 <= k < store.intervals.len() && (#[trigger] store.intervals[k]).id == id
                        ==> t.describes(store.intervals[k])
            },
        }
    }

    /// Whether `event` differs from what is being tracked.
    pub open spec fn target_changes(&self, event: Option<ActivityInfo>) -> bool {
        match (self.current_target, event) {
            (None, None) => false,
            (None, Some(_)) => true,
            (Some(_), None) => true,
            (Some((t, _)), Some(info)) => !t.same_as(info),
        }
    }

    /// The intervals once the tracked one (if any) is closed at `now`.
    pub open spec fn closed_at(&self, rows: Seq<Interval>, now: i64) -> Seq<Interval> {
        match self.current_target {
            Some((_, id)) => close_rows(rows, id, now),
            None => rows,
        }
    }

    pub fn new() -> (r: TrackerState)
        ensures
            r.current_target is None,
    {
        TrackerState { current_target: None }
    }

    /// One poll: when the detected activity differs from the tracked target,
    /// the tracked interval (if any) is closed at `now` and, for a new
    /// target, an interval is opened at `now`. An unchanged target writes
    /// nothing. If no interval can be opened the tracker goes idle.
    pub fn update(&mut self, store: &mut IntervalStore, detected: Option<ActivityInfo>, now: i64)
        requires
            old(self).consistent_with(old(store)@),
            valid_timestamp(now as int),
        ensures
            final(self).consistent_with(final(store)@),
            open_count(final(store)@.intervals) <= 1,
            !old(self).target_changes(detected) ==> final(store)@ == old(store)@ && *final(self) == *old(self),
            closed_count(final(store)@.intervals) == closed_count(old(store)@.intervals) + (
                if old(self).target_changes(detected) && old(self).current_target is Some { 1int } else { 0 }),
            final(store)@.next_id == old(store)@.next_id + (
                if old(self).target_changes(detected) && detected is Some && old(store)@.next_id < i64::MAX { 1int } else { 0int }),
            old(self).target_changes(detected) ==> {
                &&& final(store)@.intervals.take(old(store)@.intervals.len() as int)
                    == old(self).closed_at(old(store)@.intervals, now)
                &&& final(store)@.hourly == old(store)@.hourly
                &&& final(store)@.daily == old(store)@.daily
                &&& final(store)@.historical == old(store)@.historical
            },
            old(self).target_changes(detected) ==> match detected {
                None => final(self).current_target is None && final(store)@.intervals.len() == old(store)@.intervals.len(),
                Some(info) => if old(store)@.next_id < i64::MAX {
                    &&& final(self).current_target matches Some((t, id))
                    &&& t.same_as(info)
                    &&& id == old(store)@.next_id
                    &&& final(store)@.intervals.len() == old(store)@.intervals.len() + 1
                    &&& final(store)@.intervals.last().start_time == now
                    &&& final(store)@.intervals.last().end_time is None
                } else {
                    final(self).current_target is None
                },
            },
    {
        let changed = match (&self.current_target, &detected) {
            (None, None) => false,
            (None, Some(_)) => true,
            (Some(_), None) => true,
            (Some((t, _)), Some(info)) => !t.matches(info),
        };
        if !changed {
            return;
        }
        let ghost store0 = store@;
        let ghost was_tracking = self.current_target is Some;
        if let Some((_, row_id)) = self.current_target.take() {
            store.finalize_interval(row_id, now);
            proof {
                lemma_close_rows_open_count(store0.intervals, row_id, now);
            }
        }
        let ghost store1 = store@;
        assert(store1.intervals == old(self).closed_at(store0.intervals, now));
        assert(store1.intervals.take(store0.intervals.len() as int) =~= store1.intervals);
        assert(open_count(store1.intervals) == 0);
        assert(closed_count(store1.intervals) == closed_count(store0.intervals) + if was_tracking { 1int } else { 0 });
        if let Some(info) = detected {
            let target = TrackedTarget::from(info);
            match store.insert_new_interval(
                target.app_name.as_str(),
                target.main_title.as_str(),
                target.detailed_title.as_str(),
                now,
            ) {
                Some(new_id) => {
                    proof {
                        let rows = store@.intervals;
                        assert(rows.drop_last() == store1.intervals);
                        assert(rows.take(store0.intervals.len() as int) =~= rows.drop_last());
                        lemma_sum_push(store1.intervals, rows.last(), |iv: Interval| open_indicator(iv));
                        assert(rows == store1.intervals.push(rows.last()));
                        assert(has_open(rows, new_id)) by {
                            assert(rows[rows.len() - 1].id == new_id);
                        }
                        assert forall|k: int| 0 <= k < rows.len() && (#[trigger] rows[k]).id == new_id
                            implies target.describes(rows[k]) by {
                            if k < rows.len() - 1 {
                                assert(rows[k] == store1.intervals[k]);
                                assert(store1.intervals[k].well_formed(store1.next_id));
                            }
                        }
                    }
                    self.current_target = Some((target, new_id));
                },
                None => {
                    self.current_target = None;
                },
            }
        }
    }

    /// Shutdown: closes the tracked interval (if any) at `shutdown_timestamp`
    /// and goes idle, leaving no interval open.
    pub fn finalize(&mut self, store: &mut IntervalStore, shutdown_timestamp: i64) -> (r: usize)
        requires
            old(self).consistent_with(old(store)@),
            valid_timestamp(shutdown_timestamp as int),
        ensures
            final(self).current_target is None,
            final(self).consistent_with(final(store)@),
            open_count(final(store)@.intervals) == 0,
            r == (if old(self).current_target is Some { 1usize } else { 0usize }),
            match old(self).current_target {
                None => final(store)@ == old(store)@,
                Some((_, id)) => final(store)@.intervals == close_rows(old(store)@.intervals, id, shutdown_timestamp),
            },
    {
        match self.current_target.take() {
            Some((_, row_id)) => {
                proof {
                    lemma_close_rows_open_count(store@.intervals, row_id, shutdown_timestamp);
                }
                store.finalize_interval(row_id, shutdown_timestamp)
            },
            None => 0,
        }
    }
}

} // verus!
