//! Time-tracking facts: task extraction, per-task aggregation and
//! reconciliation against a remote time-tracking service.

pub mod enrichment;
pub mod hamster;
pub mod lines;
pub mod mdast;
pub mod sync;
pub mod tasks;
pub mod time;
pub mod unique;
pub mod utils;
