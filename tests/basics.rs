use app_usage_tracker::config::AppConfig;
use app_usage_tracker::detection::{describe_activity, is_generic_title, longest_title};
use app_usage_tracker::time_bucket::{calculate_timestamps, day_start, hour_start};
use app_usage_tracker::types::{AggregatedResult, AggregationLevel, ApiKeyType, DetailedUsageRecord, TimePeriod};
use app_usage_tracker::utils::format_duration_secs;

#[test]
fn durations_format_as_hours_minutes_seconds() {
    assert_eq!(format_duration_secs(3661), "01:01:01");
    assert_eq!(format_duration_secs(0), "00:00:00");
    assert_eq!(format_duration_secs(59), "00:00:59");
    assert_eq!(format_duration_secs(360_000), "100:00:00");
    assert_eq!(format_duration_secs(-1), "Invalid");
}

#[test]
fn buckets_floor_to_hour_and_day() {
    assert_eq!(hour_start(7_199), 3_600);
    assert_eq!(hour_start(7_200), 7_200);
    assert_eq!(hour_start(-1), -3_600);
    assert_eq!(day_start(86_399), 0);
    assert_eq!(day_start(86_400 * 5 + 17), 86_400 * 5);
    assert_eq!(day_start(-1), -86_400);
}

#[test]
fn period_boundaries() {
    let now = 86_400 * 2 + 3_600 * 5 + 123;
    assert_eq!(calculate_timestamps(TimePeriod::Today, now), (86_400 * 2, 86_400 * 3));
    assert_eq!(
        calculate_timestamps(TimePeriod::LastCompletedHour, now),
        (86_400 * 2 + 3_600 * 4, 86_400 * 2 + 3_600 * 5)
    );
    assert_eq!(calculate_timestamps(TimePeriod::CurrentHour, now), (86_400 * 2 + 3_600 * 5, now + 1));
}

#[test]
fn generic_titles() {
    assert!(is_generic_title("Chrome Legacy Window"));
    assert!(is_generic_title("MSCTFIME UI"));
    assert!(is_generic_title("Default IME"));
    assert!(is_generic_title(""));
    assert!(!is_generic_title("Inbox - Mail"));
}

#[test]
fn longest_title_prefers_the_last_of_equal_length() {
    let titles = vec!["ab".to_string(), "xyz".to_string(), "abc".to_string(), "a".to_string()];
    assert_eq!(longest_title(&titles), Some(2));
    assert_eq!(longest_title(&vec![]), None);
    let titles = vec!["\u{e9}\u{e9}".to_string(), "abc".to_string()];
    assert_eq!(longest_title(&titles), Some(0));
}

#[test]
fn activity_uses_longest_sibling_title() {
    let siblings = vec!["Default IME".to_string(), "Report.docx - Word".to_string(), "Word".to_string()];
    let info = describe_activity("WINWORD.EXE".to_string(), "Word".to_string(), "".to_string(), &siblings);
    assert_eq!(info.app_name, "WINWORD.EXE");
    assert_eq!(info.main_title, "Word");
    assert_eq!(info.detailed_title, "Report.docx - Word");
}

#[test]
fn activity_falls_back_to_cursor_title_then_main_title() {
    let info = describe_activity("app.exe".to_string(), "".to_string(), "Canvas".to_string(), &vec!["MSCTFIME UI".to_string()]);
    assert_eq!(info.main_title, "[No Main Title]");
    assert_eq!(info.detailed_title, "Canvas");
    let info = describe_activity("app.exe".to_string(), "Main".to_string(), "Main".to_string(), &vec!["Main".to_string()]);
    assert_eq!(info.detailed_title, "Main");
}

#[test]
fn key_kinds_have_distinct_store_names() {
    assert_eq!(ApiKeyType::OpenAI.keyring_username(), "openai_api_key");
    assert_eq!(ApiKeyType::Google.keyring_username(), "google_api_key");
    assert_eq!(ApiKeyType::OpenAI.cli_name(), "openai");
    assert_eq!(ApiKeyType::Google.label(), "Google");
}

#[test]
fn labels() {
    assert_eq!(TimePeriod::CurrentHour.label(), "Current Hour (Approx)");
    assert_eq!(AggregationLevel::Detailed.label(), "Detailed (App + Title)");
}

#[test]
fn empty_results() {
    assert!(AggregatedResult::ByApp(vec![]).is_empty());
    let rec = DetailedUsageRecord { app_name: "a".to_string(), detailed_title: "t".to_string(), total_duration_secs: 1 };
    assert!(!AggregatedResult::Detailed(vec![rec]).is_empty());
}

#[test]
fn configuration_defaults() {
    let c = AppConfig::new("tracker", "1.2.3", "/data/tracker-dev/app_usage.sqlite", true);
    assert_eq!(c.keyring_service_name, "llm-cli-tracker-dev");
    assert_eq!(c.repo_owner, "Netajam");
    assert_eq!(c.repo_name, "tracker");
    assert_eq!(c.dangling_threshold_secs, 86_400);
    assert_eq!(c.check_interval_secs, 1);
    let c = AppConfig::new("tracker", "1.2.3", "/x", false);
    assert_eq!(c.keyring_service_name, "llm-cli-tracker");
}
