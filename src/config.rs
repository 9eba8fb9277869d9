//! Application configuration: where data lives, update source, tracking
//! cadence and the credential-store service name.

use vstd::prelude::*;
use vstd::string::StringExecFns;

verus! {

pub const KEYRING_SERVICE_NAME_PREFIX: &'static str = "llm-cli-";

/// Seconds after which an interval left open is taken to have no duration.
pub const DEFAULT_DANGLING_THRESHOLD_SECS: i64 = 86400;

/// Seconds between two polls of the activity detector.
pub const DEFAULT_CHECK_INTERVAL_SECS: u64 = 1;

pub const DEFAULT_REPO_OWNER: &'static str = "Netajam";

/// Settings of one installation.
#[derive(Debug, Clone)]
pub struct AppConfig {
    pub database_path: String,
    pub dangling_threshold_secs: i64,
    pub repo_owner: String,
    pub repo_name: String,
    pub check_interval_secs: u64,
    pub app_name: String,
    pub app_version: String,
    pub keyring_service_name: String,
}

pub open spec fn dev_suffixed(name: Seq<char>, dev_build: bool) -> Seq<char> {
    if dev_build { name + "-dev"@ } else { name }
}

/// Name of the data directory (and of the credential-store entry): the
/// application's name, with `-dev` for development builds.
pub fn data_dir_name(app_name: &str, dev_build: bool) -> (r: String)
    ensures
        r@ == dev_suffixed(app_name@, dev_build),
{
    let mut name = app_name.to_owned();
    if dev_build {
        name.append("-dev");
    }
    name
}

impl AppConfig {
    /// The configuration of application `app_name` at `app_version`, whose
    /// database lies at `database_path`.
    pub fn new(app_name: &str, app_version: &str, database_path: &str, dev_build: bool) -> (r: AppConfig)
        ensures
            r.database_path@ == database_path@,
            r.dangling_threshold_secs == DEFAULT_DANGLING_THRESHOLD_SECS,
            r.repo_owner@ == DEFAULT_REPO_OWNER@,
            r.repo_name@ == app_name@,
            r.check_interval_secs == DEFAULT_CHECK_INTERVAL_SECS,
            r.app_name@ == app_name@,
            r.app_version@ == app_version@,
            r.keyring_service_name@ == KEYRING_SERVICE_NAME_PREFIX@ + dev_suffixed(app_name@, dev_build),
    {
        let unique = data_dir_name(app_name, dev_build);
        let mut service = String::from_str(KEYRING_SERVICE_NAME_PREFIX);
        service.append(unique.as_str());
        AppConfig {
            database_path: database_path.to_owned(),
            dangling_threshold_secs: DEFAULT_DANGLING_THRESHOLD_SECS,
            repo_owner: String::from_str(DEFAULT_REPO_OWNER),
            repo_name: app_name.to_owned(),
            check_interval_secs: DEFAULT_CHECK_INTERVAL_SECS,
            app_name: app_name.to_owned(),
            app_version: app_version.to_owned(),
            keyring_service_name: service,
        }
    }
}

} // verus!
