use app_usage_tracker::detection::ActivityInfo;
use app_usage_tracker::store::IntervalStore;
use app_usage_tracker::tracker::TrackerState;

fn activity(app: &str, main: &str, detailed: &str) -> ActivityInfo {
    ActivityInfo {
        app_name: app.to_string(),
        main_title: main.to_string(),
        detailed_title: detailed.to_string(),
    }
}

fn open_count(store: &IntervalStore) -> usize {
    store.intervals().iter().filter(|iv| iv.end_time.is_none()).count()
}

#[test]
fn same_target_twice_keeps_one_open_interval() {
    let mut store = IntervalStore::new();
    let mut tracker = TrackerState::new();
    tracker.update(&mut store, Some(activity("AppA", "Main", "Doc")), 0);
    assert_eq!(store.intervals().len(), 1);
    assert_eq!(open_count(&store), 1);
    tracker.update(&mut store, Some(activity("AppA", "Main", "Doc")), 1);
    assert_eq!(store.intervals().len(), 1);
    assert_eq!(open_count(&store), 1);
    assert_eq!(store.intervals()[0].start_time, 0);
    assert_eq!(store.intervals()[0].end_time, None);
}

#[test]
fn switch_then_nothing_closes_two_intervals() {
    let mut store = IntervalStore::new();
    let mut tracker = TrackerState::new();
    tracker.update(&mut store, Some(activity("AppA", "A", "A")), 0);
    tracker.update(&mut store, Some(activity("AppB", "B", "B")), 5);
    tracker.update(&mut store, None, 8);
    let rows = store.intervals();
    assert_eq!(rows.len(), 2);
    assert_eq!(rows[0].app_name, "AppA");
    assert_eq!((rows[0].start_time, rows[0].end_time), (0, Some(5)));
    assert_eq!(rows[1].app_name, "AppB");
    assert_eq!((rows[1].start_time, rows[1].end_time), (5, Some(8)));
    assert!(tracker.current_target.is_none());
    assert_eq!(open_count(&store), 0);
}

#[test]
fn title_change_closes_and_opens() {
    let mut store = IntervalStore::new();
    let mut tracker = TrackerState::new();
    tracker.update(&mut store, Some(activity("Editor", "Main", "a.rs")), 10);
    tracker.update(&mut store, Some(activity("Editor", "Main", "b.rs")), 20);
    let rows = store.intervals();
    assert_eq!(rows.len(), 2);
    assert_eq!(rows[0].end_time, Some(20));
    assert_eq!(rows[1].detailed_title, "b.rs");
    assert_eq!(rows[1].end_time, None);
    assert_eq!(tracker.current_target.as_ref().map(|(_, id)| *id), Some(rows[1].id));
}

#[test]
fn idle_with_nothing_detected_writes_nothing() {
    let mut store = IntervalStore::new();
    let mut tracker = TrackerState::new();
    tracker.update(&mut store, None, 3);
    assert_eq!(store.intervals().len(), 0);
    assert!(tracker.current_target.is_none());
}

#[test]
fn shutdown_closes_the_tracked_interval() {
    let mut store = IntervalStore::new();
    let mut tracker = TrackerState::new();
    tracker.update(&mut store, Some(activity("AppA", "A", "A")), 100);
    assert_eq!(tracker.finalize(&mut store, 160), 1);
    assert_eq!(store.intervals()[0].end_time, Some(160));
    assert!(tracker.current_target.is_none());
    assert_eq!(tracker.finalize(&mut store, 170), 0);
    assert_eq!(store.intervals()[0].end_time, Some(160));
}

#[test]
fn closed_intervals_count_the_changes_away_from_a_target() {
    let mut store = IntervalStore::new();
    let mut tracker = TrackerState::new();
    let events = vec![
        Some(activity("A", "a", "a")),
        Some(activity("A", "a", "a")),
        Some(activity("B", "b", "b")),
        None,
        None,
        Some(activity("A", "a", "a")),
        Some(activity("A", "a", "x")),
        Some(activity("C", "c", "c")),
    ];
    let mut changes_away = 0;
    let mut current: Option<ActivityInfo> = None;
    for (t, event) in events.into_iter().enumerate() {
        let changed = match (&current, &event) {
            (Some(c), Some(e)) => c.app_name != e.app_name || c.main_title != e.main_title || c.detailed_title != e.detailed_title,
            (Some(_), None) => true,
            _ => false,
        };
        if changed {
            changes_away += 1;
        }
        current = event.clone();
        tracker.update(&mut store, event, t as i64);
        let closed = store.intervals().iter().filter(|iv| iv.end_time.is_some()).count();
        assert_eq!(closed, changes_away);
        assert!(open_count(&store) <= 1);
    }
    assert_eq!(changes_away, 4);
    assert_eq!(store.intervals().len(), 5);
}
