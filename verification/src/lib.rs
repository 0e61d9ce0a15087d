//! Core of a task time tracker: an append-only log of timestamped
//! start/end events, a reconciler that inserts retroactive work periods
//! while keeping the log's alternation structure intact, and an
//! aggregator that turns the event stream into per-day, per-task
//! duration reports.

pub mod cfg;
pub mod cli;
pub mod codec;
pub mod entry;
pub mod error;
pub mod handlers;
pub mod logger;
pub mod report;
pub mod strnum;
pub mod time;
