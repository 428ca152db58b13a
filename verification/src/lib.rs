//! Escape-time fractals: the frame renderers, the tile scheduler, the
//! colouring pipeline and the state of the interactive viewer.

pub mod bench;
pub mod float_bits;
pub mod fractal;
pub mod func;
pub mod gpu;
pub mod grid;
pub mod gui;
pub mod scheduler;
