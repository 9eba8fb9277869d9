//! Small shared types: report granularity, reporting periods, report rows and
//! the kinds of stored API keys.

use vstd::prelude::*;

verus! {

/// How finely usage is grouped in a report.
#[derive(Debug, Clone, Copy, PartialEq, Eq, Structural)]
pub enum AggregationLevel {
    /// One total per application.
    ByApplication,
    /// One total per application and window title.
    Detailed,
}

impl AggregationLevel {
    /// Human-readable name of the level, as shown in report headers.
    pub fn label(&self) -> (r: &'static str)
        ensures
            *self == AggregationLevel::ByApplication ==> r@ == "By Application"@,
            *self == AggregationLevel::Detailed ==> r@ == "Detailed (App + Title)"@,
    {
        match self {
            AggregationLevel::ByApplication => "By Application",
            AggregationLevel::Detailed => "Detailed (App + Title)",
        }
    }
}

/// A reporting period, resolved against the current time.
#[derive(Debug, Clone, Copy, PartialEq, Eq, Structural)]
pub enum TimePeriod {
    Today,
    LastCompletedHour,
    CurrentHour,
}

impl TimePeriod {
    /// Human-readable name of the period, as shown in report headers.
    pub fn label(&self) -> (r: &'static str)
        ensures
            *self == TimePeriod::Today ==> r@ == "Today"@,
            *self == TimePeriod::LastCompletedHour ==> r@ == "Last Completed Hour"@,
            *self == TimePeriod::CurrentHour ==> r@ == "Current Hour (Approx)"@,
    {
        match self {
            TimePeriod::Today => "Today",
            TimePeriod::LastCompletedHour => "Last Completed Hour",
            TimePeriod::CurrentHour => "Current Hour (Approx)",
        }
    }
}

/// Usage of one application and window title over a period.
#[derive(Debug, Clone)]
pub struct DetailedUsageRecord {
    pub app_name: String,
    pub detailed_title: String,
    pub total_duration_secs: i64,
}

/// The rows of a usage report, at one of the two granularities.
#[derive(Debug)]
pub enum AggregatedResult {
    /// `(application, seconds)` pairs.
    ByApp(Vec<(String, i64)>),
    /// One record per application and window title.
    Detailed(Vec<DetailedUsageRecord>),
}

impl AggregatedResult {
    /// Number of rows in the report.
    pub open spec fn row_count(&self) -> nat {
        match self {
            AggregatedResult::ByApp(v) => v@.len(),
            AggregatedResult::Detailed(v) => v@.len(),
        }
    }

    /// True when the report holds no row.
    pub fn is_empty(&self) -> (r: bool)
        ensures
            r == (self.row_count() == 0),
    {
        match self {
            AggregatedResult::ByApp(v) => v.len() == 0,
            AggregatedResult::Detailed(v) => v.len() == 0,
        }
    }
}

/// The kinds of API key kept in the system credential store.
#[derive(Debug, Clone, Copy, PartialEq, Eq, Structural)]
pub enum ApiKeyType {
    OpenAI,
    Google,
}

impl ApiKeyType {
    /// Key identifier under which this kind of key is stored; distinct per kind.
    pub fn keyring_username(&self) -> (r: &'static str)
        ensures
            *self == ApiKeyType::OpenAI ==> r@ == "openai_api_key"@,
            *self == ApiKeyType::Google ==> r@ == "google_api_key"@,
    {
        match self {
            ApiKeyType::OpenAI => "openai_api_key",
            ApiKeyType::Google => "google_api_key",
        }
    }

    /// Human-readable name of the key's provider.
    pub fn label(&self) -> (r: &'static str)
        ensures
            *self == ApiKeyType::OpenAI ==> r@ == "OpenAI"@,
            *self == ApiKeyType::Google ==> r@ == "Google"@,
    {
        match self {
            ApiKeyType::OpenAI => "OpenAI",
            ApiKeyType::Google => "Google",
        }
    }

    /// Name of the kind on the command line.
    pub fn cli_name(&self) -> (r: &'static str)
        ensures
            *self == ApiKeyType::OpenAI ==> r@ == "openai"@,
            *self == ApiKeyType::Google ==> r@ == "google"@,
    {
        match self {
            ApiKeyType::OpenAI => "openai",
            ApiKeyType::Google => "google",
        }
    }
}

/// Configuration subcommands.
#[derive(Debug, Clone, Copy, PartialEq, Eq, Structural)]
pub enum ConfigCommand {
    /// Store an API key of the given kind.
    SetKey { key_type: ApiKeyType },
}

} // verus!
