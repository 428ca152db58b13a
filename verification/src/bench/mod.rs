//! The command line and the counters of the benchmark.

pub mod args;
pub mod measure;
pub mod text;
pub mod timing;
