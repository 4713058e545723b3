//! Aggregation of test-runner lifecycle events into analytics records, and
//! partitioning of those records into size-bounded upload batches.
//!
//! The library consumes a stream of decoded suite and test events, rebuilds
//! one record per test from its started / ok / failed events, and splits the
//! complete records into batches no larger than a caller-chosen ceiling.
//! Reading input lines, decoding JSON and submitting batches are left to the
//! surrounding program; the library works on plain decoded values.

mod ids;
pub mod input;
pub mod laws;
pub mod names;
pub mod payload;
pub mod run_env;
