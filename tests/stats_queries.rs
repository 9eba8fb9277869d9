use app_usage_tracker::store::{AppDayRow, Interval, IntervalStore, SummaryRow};
use app_usage_tracker::types::{AggregatedResult, AggregationLevel, TimePeriod};

fn interval(id: i64, app: &str, title: &str, start: i64, end: Option<i64>) -> Interval {
    Interval {
        id,
        app_name: app.to_string(),
        main_title: app.to_string(),
        detailed_title: title.to_string(),
        start_time: start,
        end_time: end,
    }
}

fn by_app(r: AggregatedResult) -> Vec<(String, i64)> {
    match r {
        AggregatedResult::ByApp(v) => v,
        AggregatedResult::Detailed(_) => panic!("expected per-application rows"),
    }
}

const DAY: i64 = 86_400;

#[test]
fn current_hour_counts_open_interval_up_to_now() {
    let rows = vec![interval(1, "AppA", "T", DAY + 3_600 + 100, None)];
    let store = IntervalStore::from_rows(rows, 100, vec![], vec![], vec![]).unwrap();
    let r = store.query_stats(TimePeriod::CurrentHour, AggregationLevel::ByApplication, DAY + 3_600 + 400).unwrap();
    assert_eq!(by_app(r), vec![("AppA".to_string(), 300)]);
}

#[test]
fn raw_intervals_are_clamped_to_the_period() {
    let rows = vec![
        interval(1, "AppA", "T", DAY - 100, Some(DAY + 50)),
        interval(2, "AppB", "T", DAY + 10, Some(DAY + 30)),
        interval(3, "AppC", "T", DAY - 500, Some(DAY - 400)),
    ];
    let store = IntervalStore::from_rows(rows, 100, vec![], vec![], vec![]).unwrap();
    let r = store.query_stats(TimePeriod::Today, AggregationLevel::ByApplication, DAY + 1_000).unwrap();
    assert_eq!(by_app(r), vec![("AppA".to_string(), 50), ("AppB".to_string(), 20)]);
}

#[test]
fn rows_come_largest_first() {
    let rows = vec![
        interval(1, "Small", "T", DAY + 0, Some(DAY + 10)),
        interval(2, "Large", "T", DAY + 10, Some(DAY + 110)),
        interval(3, "Middle", "T", DAY + 110, Some(DAY + 160)),
        interval(4, "Small", "U", DAY + 160, Some(DAY + 165)),
    ];
    let store = IntervalStore::from_rows(rows, 100, vec![], vec![], vec![]).unwrap();
    let r = store.query_stats(TimePeriod::Today, AggregationLevel::ByApplication, DAY + 1_000).unwrap();
    assert_eq!(
        by_app(r),
        vec![("Large".to_string(), 100), ("Middle".to_string(), 50), ("Small".to_string(), 15)]
    );
}

#[test]
fn detailed_level_keeps_titles_apart() {
    let rows = vec![
        interval(1, "Ed", "a.rs", DAY, Some(DAY + 30)),
        interval(2, "Ed", "b.rs", DAY + 30, Some(DAY + 40)),
        interval(3, "Ed", "a.rs", DAY + 40, Some(DAY + 45)),
    ];
    let store = IntervalStore::from_rows(rows, 100, vec![], vec![], vec![]).unwrap();
    let r = store.query_stats(TimePeriod::Today, AggregationLevel::Detailed, DAY + 1_000).unwrap();
    match r {
        AggregatedResult::Detailed(v) => {
            let got: Vec<(String, String, i64)> =
                v.iter().map(|x| (x.app_name.clone(), x.detailed_title.clone(), x.total_duration_secs)).collect();
            assert_eq!(got, vec![("Ed".to_string(), "a.rs".to_string(), 35), ("Ed".to_string(), "b.rs".to_string(), 10)]);
        },
        AggregatedResult::ByApp(_) => panic!("expected detailed rows"),
    }
}

#[test]
fn today_reads_daily_and_long_term_rows() {
    let daily = vec![SummaryRow {
        app_name: "AppA".to_string(),
        detailed_title: "T".to_string(),
        bucket_start: DAY,
        total_duration_secs: 40,
    }];
    let hist = vec![AppDayRow { app_name: "AppA".to_string(), day_timestamp: DAY, total_duration_secs: 2 }];
    let store = IntervalStore::from_rows(vec![], 1, vec![], daily, hist).unwrap();
    let r = store.query_stats(TimePeriod::Today, AggregationLevel::ByApplication, DAY + 50).unwrap();
    assert_eq!(by_app(r), vec![("AppA".to_string(), 42)]);
    let r = store.query_stats(TimePeriod::Today, AggregationLevel::Detailed, DAY + 50).unwrap();
    assert!(!r.is_empty());
}

#[test]
fn last_completed_hour_reads_hourly_rows() {
    let hourly = vec![
        SummaryRow { app_name: "AppA".to_string(), detailed_title: "T".to_string(), bucket_start: 3_600, total_duration_secs: 99 },
        SummaryRow { app_name: "AppA".to_string(), detailed_title: "T".to_string(), bucket_start: 7_200, total_duration_secs: 7 },
    ];
    let store = IntervalStore::from_rows(vec![], 1, hourly, vec![], vec![]).unwrap();
    let r = store.query_stats(TimePeriod::LastCompletedHour, AggregationLevel::ByApplication, 7_200 + 10).unwrap();
    assert_eq!(by_app(r), vec![("AppA".to_string(), 99)]);
}

#[test]
fn empty_period_reports_nothing() {
    let store = IntervalStore::new();
    let r = store.query_stats(TimePeriod::Today, AggregationLevel::ByApplication, 1_000).unwrap();
    assert!(r.is_empty());
}

#[test]
fn totals_are_the_same_before_and_after_aggregation() {
    let rows = vec![
        interval(1, "AppA", "T", DAY + 100, Some(DAY + 700)),
        interval(2, "AppA", "U", DAY + 3_700, Some(DAY + 3_800)),
        interval(3, "AppB", "T", DAY + 7_300, None),
    ];
    let mut store = IntervalStore::from_rows(rows, 100, vec![], vec![], vec![]).unwrap();
    let now = DAY + 7_500;
    let before = by_app(store.query_stats(TimePeriod::Today, AggregationLevel::ByApplication, now).unwrap());
    assert_eq!(store.aggregate_and_cleanup(now), Ok(2));
    let after = by_app(store.query_stats(TimePeriod::Today, AggregationLevel::ByApplication, now).unwrap());
    assert_eq!(before, vec![("AppA".to_string(), 700), ("AppB".to_string(), 200)]);
    assert_eq!(after, before);
    let hour = by_app(store.query_stats(TimePeriod::LastCompletedHour, AggregationLevel::ByApplication, now).unwrap());
    assert_eq!(hour, vec![("AppA".to_string(), 100)]);
}

#[test]
fn query_at_the_current_time_sees_recent_usage() {
    let mut store = IntervalStore::new();
    let id = store.insert_new_interval("AppA", "A", "A", 0).unwrap();
    assert_eq!(store.finalize_interval(id, 10), 1);
    let r = store.query_stats(TimePeriod::Today, AggregationLevel::ByApplication, chrono::Utc::now().timestamp()).unwrap();
    assert!(r.is_empty());
}

#[test]
fn query_refuses_time_out_of_range() {
    let store = IntervalStore::new();
    let r = store.query_stats(TimePeriod::Today, AggregationLevel::ByApplication, i64::MIN);
    assert!(matches!(r, Err(app_usage_tracker::store::StoreError::TimestampOutOfRange)));
}

#[test]
fn query_refuses_totals_that_do_not_fit() {
    let hourly = vec![
        SummaryRow { app_name: "A".to_string(), detailed_title: "T".to_string(), bucket_start: 0, total_duration_secs: i64::MAX },
        SummaryRow { app_name: "A".to_string(), detailed_title: "U".to_string(), bucket_start: 0, total_duration_secs: 1 },
    ];
    let store = IntervalStore::from_rows(vec![], 1, hourly, vec![], vec![]).unwrap();
    assert!(!store.totals_fit());
    let r = store.query_stats(TimePeriod::CurrentHour, AggregationLevel::ByApplication, 100);
    assert!(matches!(r, Err(app_usage_tracker::store::StoreError::TotalsTooLarge)));
    let r = store.query_stats(TimePeriod::Today, AggregationLevel::Detailed, 100);
    assert!(r.unwrap().is_empty());
}
