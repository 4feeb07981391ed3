//! Evidence-based process monitoring: the reference snapshot, the findings
//! that describe each running process, and the rules that decide what is
//! shown for review.

pub mod text;
pub mod model;
pub mod activity;
pub mod activity_runs;
pub mod paths;
pub mod knowledge;
pub mod signature;
pub mod table;
pub mod state;
pub mod baseline;
pub mod process;
pub mod autostart;
pub mod action;
pub mod details;
pub mod invocation;
pub mod listing;
pub mod scan;
pub mod kernel;
pub mod commands;
pub mod units;
