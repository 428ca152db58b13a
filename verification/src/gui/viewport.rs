//! The camera: the point of the complex plane at the centre of the frame, the
//! zoom, and the size of the frame in pixels.
//!
//! The centre and the zoom are double-precision numbers, held as bit patterns.

use crate::float_bits::{double_eq, double_eq_spec, double_is_finite, double_is_finite_spec, DOUBLE_MINUS_HALF, DOUBLE_ONE, DOUBLE_ZERO};
use crate::fractal::fractal_type::FractalType;
use crate::func::{evaluate, is_function, value_of};
use vstd::prelude::*;

verus! {

#[derive(Clone, Copy, Debug)]
pub struct Viewport {
    pub center: [u64; 2],
    pub zoom: u64,
    pub width: u32,
    pub height: u32,
}

impl Default for Viewport {
    fn default() -> (r: Viewport)
        ensures
            r.center@ == seq![DOUBLE_MINUS_HALF, DOUBLE_ZERO],
            r.zoom == DOUBLE_ONE,
            r.width == 800,
            r.height == 600,
    {
        Viewport {
            center: [DOUBLE_MINUS_HALF, DOUBLE_ZERO],
            zoom: DOUBLE_ONE,
            width: 800,
            height: 600,
        }
    }
}

impl PartialEq for Viewport {
    fn eq(&self, other: &Viewport) -> (r: bool) {
        double_eq(self.center[0], other.center[0]) && double_eq(self.center[1], other.center[1])
            && double_eq(self.zoom, other.zoom) && self.width == other.width && self.height
            == other.height
    }
}

impl vstd::std_specs::cmp::PartialEqSpecImpl for Viewport {
    open spec fn obeys_eq_spec() -> bool {
        true
    }

    open spec fn eq_spec(&self, other: &Viewport) -> bool {
        self.same_view(*other)
    }
}

impl Viewport {
    /// The two cameras show the same frame: sizes agree, and the numbers compare equal.
    pub open spec fn same_view(self, other: Viewport) -> bool {
        &&& double_eq_spec(self.center[0], other.center[0])
        &&& double_eq_spec(self.center[1], other.center[1])
        &&& double_eq_spec(self.zoom, other.zoom)
        &&& self.width == other.width
        &&& self.height == other.height
    }

    /// Restores the default view of `fractal`: its own centre, at zoom one.
    pub fn reset(&mut self, fractal: FractalType)
        ensures
            final(self).center@ == fractal.home(),
            final(self).zoom == DOUBLE_ONE,
            final(self).width == old(self).width,
            final(self).height == old(self).height,
    {
        self.center = fractal.default_center();
        self.zoom = DOUBLE_ONE;
    }

    /// The same view at other pixel dimensions.
    pub fn with_size(&self, width: u32, height: u32) -> (r: Viewport)
        ensures
            r == (Viewport { center: self.center, zoom: self.zoom, width: width, height: height }),
    {
        Viewport { center: self.center, zoom: self.zoom, width, height }
    }

    /// The zooms compare equal and the sizes agree, so that the step from one
    /// camera to the other can be a translation.
    pub open spec fn same_scale(self, other: Viewport) -> bool {
        &&& double_eq_spec(self.zoom, other.zoom)
        &&& self.width == other.width
        &&& self.height == other.height
    }

    /// The centre is a point of the plane: neither coordinate is a NaN or infinite.
    pub open spec fn is_placed(self) -> bool {
        double_is_finite_spec(self.center[0]) && double_is_finite_spec(self.center[1])
    }

    /// Whether the centre is a point of the plane.
    fn has_place(&self) -> (r: bool)
        ensures
            r == self.is_placed(),
    {
        double_is_finite(self.center[0]) && double_is_finite(self.center[1])
    }

    /// The step from `self` to `other` in whole pixels, if it is a translation
    /// by whole pixels. `drift` answers how far the centre moved, `None` where
    /// that is not close to a whole number of pixels; it is asked only where
    /// zoom and size stay the same and both centres are points of the plane.
    pub fn delta_pixels<F: Fn((Viewport, Viewport)) -> Option<(i32, i32)>>(
        &self,
        other: &Viewport,
        drift: &F,
    ) -> (r: Option<(i32, i32)>)
        requires
            is_function(*drift),
        ensures
            r == (if self.same_scale(*other) && self.is_placed() && other.is_placed() {
                value_of(*drift, (*self, *other))
            } else {
                None
            }),
    {
        if !double_eq(self.zoom, other.zoom) || self.width != other.width || self.height
            != other.height {
            return None;
        }
        if !self.has_place() || !other.has_place() {
            return None;
        }
        evaluate(drift, (*self, *other))
    }
}

/// Two cameras show the same frame exactly if their zooms and both coordinates of
/// their centres are equal numbers and their frames have one size. Leaving out the
/// centres, a step from one to the other can be a move. A centre is a place exactly
/// if both its coordinates are numbers that are not infinite.
pub proof fn law_cameras_compare_by_place_zoom_and_size(a: Viewport, b: Viewport)
    ensures
        a.same_view(b) <==> {
            &&& double_eq_spec(a.center@[0], b.center@[0])
            &&& double_eq_spec(a.center@[1], b.center@[1])
            &&& double_eq_spec(a.zoom, b.zoom)
            &&& (a.width, a.height) == (b.width, b.height)
        },
        a.same_scale(b) <==> double_eq_spec(a.zoom, b.zoom) && (a.width, a.height) == (
            b.width,
            b.height,
        ),
        a.same_view(b) <==> b.same_view(a),
        a.same_scale(b) <==> b.same_scale(a),
        a.is_placed() <==> double_is_finite_spec(a.center@[0]) && double_is_finite_spec(
            a.center@[1],
        ),
{
}

} // verus!
