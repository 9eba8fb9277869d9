//! Application-usage tracking: an interval store, the tracking state machine
//! that drives it, the hourly/daily rollup and the statistics over it.

pub mod config;
pub mod detection;
pub mod rollup;
pub mod stats;
pub mod store;
pub mod sums;
pub mod time_bucket;
pub mod tracker;
pub mod types;
pub mod utils;
