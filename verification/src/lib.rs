//! Core of an uptime monitor: classification of check results, the history
//! store with its bounded recent-history query, and the decisions of the
//! polling scheduler.

pub mod config;
pub mod display;
pub mod history;
pub mod scheduler;
pub mod status;
pub mod store;
pub mod view;
