//! Per-pixel iteration. The arithmetic of one step is the caller's; when an
//! iteration stops, and with which answer, is decided here.

pub mod escape;
pub mod interior;
pub mod lanes;
