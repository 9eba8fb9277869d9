use app_usage_tracker::store::{Interval, IntervalStore, StoreError, SummaryRow};

fn interval(id: i64, app: &str, title: &str, start: i64, end: Option<i64>) -> Interval {
    Interval {
        id,
        app_name: app.to_string(),
        main_title: app.to_string(),
        detailed_title: title.to_string(),
        start_time: start,
        end_time: end,
    }
}

fn buckets(rows: &[SummaryRow]) -> Vec<(String, String, i64, i64)> {
    let mut v: Vec<(String, String, i64, i64)> = rows
        .iter()
        .map(|r| (r.app_name.clone(), r.detailed_title.clone(), r.bucket_start, r.total_duration_secs))
        .collect();
    v.sort();
    v
}

fn two_hours() -> IntervalStore {
    let rows = vec![
        interval(1, "AppA", "T", 0, Some(3600)),
        interval(2, "AppA", "T", 3600, Some(7200)),
    ];
    IntervalStore::from_rows(rows, 100, vec![], vec![], vec![]).unwrap()
}

#[test]
fn two_closed_hours_roll_into_two_hourly_buckets() {
    let mut store = two_hours();
    assert_eq!(store.aggregate_and_cleanup(10_800 + 5), Ok(2));
    assert_eq!(store.intervals().len(), 0);
    assert_eq!(
        buckets(store.hourly_summary()),
        vec![
            ("AppA".to_string(), "T".to_string(), 0, 3600),
            ("AppA".to_string(), "T".to_string(), 3600, 3600),
        ]
    );
    assert_eq!(buckets(store.daily_summary()), vec![("AppA".to_string(), "T".to_string(), 0, 7200)]);
    let hourly_before = buckets(store.hourly_summary());
    let daily_before = buckets(store.daily_summary());
    assert_eq!(store.aggregate_and_cleanup(10_800 + 5), Ok(0));
    assert_eq!(buckets(store.hourly_summary()), hourly_before);
    assert_eq!(buckets(store.daily_summary()), daily_before);
    assert_eq!(store.historical_summary().len(), 0);
}

#[test]
fn interval_ending_at_current_hour_start_waits_for_next_run() {
    let mut store = two_hours();
    assert_eq!(store.aggregate_and_cleanup(7_200), Ok(1));
    assert_eq!(store.intervals().len(), 1);
    assert_eq!(store.intervals()[0].start_time, 3600);
    assert_eq!(buckets(store.hourly_summary()), vec![("AppA".to_string(), "T".to_string(), 0, 3600)]);
    assert_eq!(store.aggregate_and_cleanup(7_200), Ok(0));
    assert_eq!(store.intervals().len(), 1);
}

#[test]
fn open_intervals_are_never_aggregated() {
    let rows = vec![interval(1, "AppA", "T", 0, None)];
    let mut store = IntervalStore::from_rows(rows, 100, vec![], vec![], vec![]).unwrap();
    assert_eq!(store.aggregate_and_cleanup(100_000), Ok(0));
    assert_eq!(store.intervals().len(), 1);
    assert_eq!(store.hourly_summary().len(), 0);
}

#[test]
fn duration_goes_to_the_start_hour_whole() {
    let rows = vec![interval(1, "AppA", "T", 3000, Some(4000))];
    let mut store = IntervalStore::from_rows(rows, 100, vec![], vec![], vec![]).unwrap();
    assert_eq!(store.aggregate_and_cleanup(20_000), Ok(1));
    assert_eq!(buckets(store.hourly_summary()), vec![("AppA".to_string(), "T".to_string(), 0, 1000)]);
}

#[test]
fn runs_accumulate_into_existing_buckets() {
    let rows = vec![interval(1, "AppA", "T", 100, Some(200))];
    let mut store = IntervalStore::from_rows(rows, 100, vec![], vec![], vec![]).unwrap();
    assert_eq!(store.aggregate_and_cleanup(3_600), Ok(1));
    let id = store.insert_new_interval("AppA", "AppA", "T", 300).unwrap();
    assert_eq!(store.finalize_interval(id, 500), 1);
    assert_eq!(store.aggregate_and_cleanup(3_600), Ok(1));
    assert_eq!(buckets(store.hourly_summary()), vec![("AppA".to_string(), "T".to_string(), 0, 300)]);
    assert_eq!(buckets(store.daily_summary()), vec![("AppA".to_string(), "T".to_string(), 0, 300)]);
}

#[test]
fn old_daily_rows_move_to_long_term_totals() {
    let rows = vec![
        interval(1, "AppA", "One", 0, Some(100)),
        interval(2, "AppA", "Two", 200, Some(250)),
        interval(3, "AppB", "One", 86_400 * 3, Some(86_400 * 3 + 10)),
    ];
    let mut store = IntervalStore::from_rows(rows, 100, vec![], vec![], vec![]).unwrap();
    assert_eq!(store.aggregate_and_cleanup(86_400 * 3 + 7_200), Ok(3));
    assert_eq!(
        buckets(store.daily_summary()),
        vec![("AppB".to_string(), "One".to_string(), 86_400 * 3, 10)]
    );
    assert_eq!(
        buckets(store.hourly_summary()),
        vec![("AppB".to_string(), "One".to_string(), 86_400 * 3, 10)]
    );
    let hist = store.historical_summary();
    assert_eq!(hist.len(), 1);
    assert_eq!((hist[0].app_name.as_str(), hist[0].day_timestamp, hist[0].total_duration_secs), ("AppA", 0, 150));
}

#[test]
fn aggregation_refuses_time_out_of_range() {
    let mut store = two_hours();
    assert_eq!(store.aggregate_and_cleanup(i64::MAX), Err(StoreError::TimestampOutOfRange));
    assert_eq!(store.intervals().len(), 2);
}

#[test]
fn aggregation_refuses_totals_that_do_not_fit() {
    let big = SummaryRow {
        app_name: "A".to_string(),
        detailed_title: "T".to_string(),
        bucket_start: 0,
        total_duration_secs: i64::MAX,
    };
    let rows = vec![interval(1, "A", "T", 0, Some(10))];
    let mut store = IntervalStore::from_rows(rows, 100, vec![big], vec![], vec![]).unwrap();
    assert_eq!(store.aggregate_and_cleanup(100_000), Err(StoreError::TotalsTooLarge));
    assert_eq!(store.intervals().len(), 1);
    assert_eq!(store.hourly_summary()[0].total_duration_secs, i64::MAX);
}

#[test]
fn aggregation_at_the_current_time_rolls_up_old_intervals() {
    let rows = vec![interval(1, "AppA", "T", 0, Some(10))];
    let mut store = IntervalStore::from_rows(rows, 100, vec![], vec![], vec![]).unwrap();
    assert_eq!(store.aggregate_and_cleanup(chrono::Utc::now().timestamp()), Ok(1));
    assert_eq!(store.intervals().len(), 0);
    assert_eq!(store.hourly_summary().len(), 0);
    assert_eq!(store.historical_summary()[0].total_duration_secs, 10);
}

#[test]
fn rows_older_than_one_day_before_now_are_retired() {
    let daily = vec![SummaryRow {
        app_name: "A".to_string(),
        detailed_title: "T".to_string(),
        bucket_start: 86_400,
        total_duration_secs: 30,
    }];
    let hourly = vec![SummaryRow {
        app_name: "A".to_string(),
        detailed_title: "T".to_string(),
        bucket_start: 86_400,
        total_duration_secs: 30,
    }];
    let mut store = IntervalStore::from_rows(vec![], 1, hourly, daily, vec![]).unwrap();
    assert_eq!(store.aggregate_and_cleanup(172_900), Ok(0));
    assert_eq!(store.daily_summary().len(), 0);
    assert_eq!(store.hourly_summary().len(), 0);
    let hist = store.historical_summary();
    assert_eq!((hist[0].app_name.as_str(), hist[0].day_timestamp, hist[0].total_duration_secs), ("A", 86_400, 30));
}

#[test]
fn rows_within_one_day_of_now_stay() {
    let daily = vec![SummaryRow {
        app_name: "A".to_string(),
        detailed_title: "T".to_string(),
        bucket_start: 86_400,
        total_duration_secs: 30,
    }];
    let mut store = IntervalStore::from_rows(vec![], 1, vec![], daily, vec![]).unwrap();
    assert_eq!(store.aggregate_and_cleanup(172_800), Ok(0));
    assert_eq!(store.daily_summary().len(), 1);
    assert_eq!(store.historical_summary().len(), 0);
}
