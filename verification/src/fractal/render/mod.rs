//! Ways to go over a frame other than pixel by pixel, row by row.

pub mod hilbert;
pub mod mariani_silver;
pub mod pan;
pub mod simd;
pub mod tile;
