use app_usage_tracker::store::{AppDayRow, Interval, IntervalStore, StoreError, SummaryRow};

fn closed(id: i64, app: &str, start: i64, end: Option<i64>) -> Interval {
    Interval {
        id,
        app_name: app.to_string(),
        main_title: app.to_string(),
        detailed_title: app.to_string(),
        start_time: start,
        end_time: end,
    }
}

#[test]
fn close_interval_reports_one_then_zero() {
    let mut store = IntervalStore::new();
    let id = store.insert_new_interval("AppA", "Main", "Doc", 10).unwrap();
    assert_eq!(store.finalize_interval(id, 20), 1);
    assert_eq!(store.finalize_interval(id, 30), 0);
    assert_eq!(store.intervals()[0].end_time, Some(20));
}

#[test]
fn close_unknown_interval_reports_zero() {
    let mut store = IntervalStore::new();
    store.insert_new_interval("AppA", "Main", "Doc", 10).unwrap();
    assert_eq!(store.finalize_interval(99, 20), 0);
    assert_eq!(store.intervals()[0].end_time, None);
}

#[test]
fn open_interval_hands_out_increasing_ids() {
    let mut store = IntervalStore::new();
    let a = store.insert_new_interval("A", "A", "A", 1).unwrap();
    let b = store.insert_new_interval("B", "B", "B", 2).unwrap();
    assert_eq!((a, b), (1, 2));
    assert_eq!(store.next_id(), 3);
}

#[test]
fn dangling_intervals_old_get_zero_duration_recent_end_now() {
    let rows = vec![
        closed(1, "Old", 1_000, None),
        closed(2, "Done", 2_000, Some(2_500)),
        closed(3, "Recent", 150_000, None),
    ];
    let mut store = IntervalStore::from_rows(rows, 100, vec![], vec![], vec![]).unwrap();
    assert_eq!(store.finalize_dangling_intervals(200_000, 86_400), 2);
    let rows = store.intervals();
    assert_eq!(rows[0].end_time, Some(1_000));
    assert_eq!(rows[1].end_time, Some(2_500));
    assert_eq!(rows[2].end_time, Some(200_000));
}

#[test]
fn dangling_interval_exactly_at_threshold_counts_as_recent() {
    let rows = vec![closed(1, "Edge", 113_600, None)];
    let mut store = IntervalStore::from_rows(rows, 100, vec![], vec![], vec![]).unwrap();
    assert_eq!(store.finalize_dangling_intervals(200_000, 86_400), 1);
    assert_eq!(store.intervals()[0].end_time, Some(200_000));
}

#[test]
fn from_rows_keeps_the_given_next_id() {
    let rows = vec![closed(4, "A", 0, Some(1)), closed(9, "B", 1, Some(2))];
    let mut store = IntervalStore::from_rows(rows, 12, vec![], vec![], vec![]).unwrap();
    assert_eq!(store.next_id(), 12);
    assert_eq!(store.insert_new_interval("C", "C", "C", 3), Some(12));
}

#[test]
fn from_rows_rejects_next_id_not_past_every_id() {
    let rows = vec![closed(4, "A", 0, Some(1)), closed(9, "B", 1, Some(2))];
    assert!(matches!(
        IntervalStore::from_rows(rows, 9, vec![], vec![], vec![]),
        Err(StoreError::MalformedRows)
    ));
    assert!(IntervalStore::from_rows(vec![], 0, vec![], vec![], vec![]).is_err());
}

#[test]
fn from_rows_rejects_duplicate_ids() {
    let rows = vec![closed(4, "A", 0, Some(1)), closed(4, "B", 1, Some(2))];
    assert!(matches!(
        IntervalStore::from_rows(rows, 100, vec![], vec![], vec![]),
        Err(StoreError::MalformedRows)
    ));
}

#[test]
fn from_rows_rejects_duplicate_summary_keys() {
    let row = || SummaryRow {
        app_name: "A".to_string(),
        detailed_title: "T".to_string(),
        bucket_start: 0,
        total_duration_secs: 5,
    };
    assert!(IntervalStore::from_rows(vec![], 1, vec![row(), row()], vec![], vec![]).is_err());
    let day = || AppDayRow { app_name: "A".to_string(), day_timestamp: 0, total_duration_secs: 5 };
    assert!(IntervalStore::from_rows(vec![], 1, vec![], vec![], vec![day(), day()]).is_err());
}

#[test]
fn from_rows_rejects_zero_id() {
    let rows = vec![closed(0, "A", 0, Some(1))];
    assert!(IntervalStore::from_rows(rows, 100, vec![], vec![], vec![]).is_err());
}
