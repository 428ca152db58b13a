//! The sizes of the buffers and grids of a shader for frames of one size.

use crate::gpu::launch::{ceil_div, frame_cfg};
use vstd::prelude::*;

verus! {

/// The number of orbit points that a device has room for.
pub const MAX_ORBIT: u64 = 8193;

/// A shader set up for frames of one size.
#[derive(Clone, Copy, Debug)]
pub struct FractalCompute {
    pub width: u32,
    pub height: u32,
}

/// A reference orbit is longer than what a device has room for.
#[derive(Clone, Copy, Debug, PartialEq, Eq, Structural)]
pub struct OrbitTooLong {
    pub orbit_len: u32,
    pub max_len: u64,
}

impl FractalCompute {
    /// Sets a shader up for frames of the given size.
    pub fn new(width: u32, height: u32) -> (r: FractalCompute)
        ensures
            r == (FractalCompute { width, height }),
    {
        FractalCompute { width, height }
    }

    /// The width of the frames.
    pub fn width(&self) -> (r: u32)
        ensures
            r == self.width,
    {
        self.width
    }

    /// The height of the frames.
    pub fn height(&self) -> (r: u32)
        ensures
            r == self.height,
    {
        self.height
    }

    /// The number of bytes in a frame: four for each pixel.
    pub fn pixel_bytes(&self) -> (r: u64)
        requires
            self.width * self.height <= u32::MAX,
        ensures
            r == self.width * self.height * 4,
    {
        (self.width * self.height) as u64 * 4
    }

    /// The number of bytes that a coordinate of the reference orbit has room for.
    pub fn orbit_bytes(&self) -> (r: u64)
        ensures
            r == MAX_ORBIT * 4,
    {
        MAX_ORBIT * 4
    }

    /// The groups of 16 by 16 threads that cover a frame.
    pub fn workgroups(&self) -> (r: (u32, u32, u32))
        ensures
            r == (
                ceil_div(self.width as int, 16) as u32,
                ceil_div(self.height as int, 16) as u32,
                1u32,
            ),
    {
        frame_cfg(self.width, self.height).grid_dim
    }

    /// Whether a device has room for the points of a reference orbit, of which
    /// there is one more than the orbit has steps.
    pub fn check_orbit(&self, orbit_len: u32) -> (r: Result<(), OrbitTooLong>)
        ensures
            r == (if orbit_len + 1 <= MAX_ORBIT {
                Ok(())
            } else {
                Err(OrbitTooLong { orbit_len, max_len: (MAX_ORBIT - 1) as u64 })
            }),
    {
        let needed: u64 = (orbit_len as u64 + 1) * 4;
        if needed <= MAX_ORBIT * 4 {
            Ok(())
        } else {
            Err(OrbitTooLong { orbit_len, max_len: MAX_ORBIT - 1 })
        }
    }
}

/// The groups of threads cover every pixel of the frame.
pub proof fn law_workgroups_cover_the_frame(width: u32, height: u32)
    ensures
        ceil_div(width as int, 16) as u32 * 16 >= width,
        ceil_div(height as int, 16) as u32 * 16 >= height,
{
}

} // verus!
