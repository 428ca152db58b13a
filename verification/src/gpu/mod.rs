//! What is handed to a device, and what its answers are checked for.

pub mod device;
pub mod fractal_compute;
pub mod launch;
pub mod uniforms;
