//! The interactive viewer: camera, colouring, the planning of a frame and the
//! state behind the controls.

pub mod app;
pub mod color;
pub mod render;
pub mod viewport;
