//! Verified core of a benchmark harness that compares Rust logging crates.
//!
//! The harness runs every logger against every output target in a child
//! process, reads the one-line report that the child prints, and collects the
//! reports by name. This crate holds the logic of that harness: the names of
//! loggers and targets, the schedule of runs, the report line and its parser,
//! the table of results and its grouping, and the measuring loop.

pub mod text;
pub mod target;
pub mod logger;
pub mod report;
pub mod schedule;
pub mod results;
pub mod measure;
pub mod invocation;
