//! chrond: a cron daemon with missed-job catch-up, overlap control, queryable
//! structured run history, built-in log rotation and alerting.
//!
//! This crate is the daemon's logic: parsing, scheduling, history queries and
//! the decisions of the daemon loop, each stated as a contract and proved.

pub mod alert;
pub mod cli;
pub mod cronexpr;
pub mod crontab;
pub mod daemon;
pub mod history;
pub mod logrotate;
pub mod metrics;
pub mod report;
pub mod runner;
pub mod scheduler;
pub mod text;
pub mod time;
