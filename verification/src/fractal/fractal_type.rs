//! The fractals that a frame can show.

use crate::float_bits::{DOUBLE_MINUS_HALF, DOUBLE_ZERO};
use vstd::prelude::*;

verus! {

/// Identifies which escape-time or root-finding fractal a render targets.
///
/// The device kernels dispatch on the same discriminant, which
/// [`FractalType::as_u32`] gives.
#[derive(Clone, Copy, Debug, PartialEq, Eq, Structural)]
pub enum FractalType {
    Nova,
    Newton,
    Mandelbrot,
    Julia,
}

impl Default for FractalType {
    fn default() -> (r: FractalType)
        ensures
            r == FractalType::Nova,
    {
        FractalType::Nova
    }
}

impl FractalType {
    /// Every fractal, in the order in which they are offered.
    pub fn all() -> (r: [FractalType; 4])
        ensures
            r@ == seq![
                FractalType::Nova,
                FractalType::Newton,
                FractalType::Mandelbrot,
                FractalType::Julia,
            ],
    {
        [FractalType::Nova, FractalType::Newton, FractalType::Mandelbrot, FractalType::Julia]
    }

    /// The name shown to the user.
    pub open spec fn label(self) -> Seq<char> {
        match self {
            FractalType::Mandelbrot => "Mandelbrot"@,
            FractalType::Julia => "Julia Set"@,
            FractalType::Newton => "Newton"@,
            FractalType::Nova => "Nova"@,
        }
    }

    /// The name shown to the user.
    pub fn name(self) -> (r: &'static str)
        ensures
            r@ == self.label(),
    {
        match self {
            FractalType::Mandelbrot => "Mandelbrot",
            FractalType::Julia => "Julia Set",
            FractalType::Newton => "Newton",
            FractalType::Nova => "Nova",
        }
    }

    /// The discriminant that the device kernels know the fractal by.
    pub open spec fn code(self) -> u32 {
        match self {
            FractalType::Mandelbrot => 0,
            FractalType::Julia => 1,
            FractalType::Newton => 2,
            FractalType::Nova => 3,
        }
    }

    /// The discriminant passed to the device kernels.
    pub fn as_u32(self) -> (r: u32)
        ensures
            r == self.code(),
    {
        match self {
            FractalType::Mandelbrot => 0,
            FractalType::Julia => 1,
            FractalType::Newton => 2,
            FractalType::Nova => 3,
        }
    }

    /// The point of the complex plane (as bit patterns of double-precision
    /// numbers) on which the view centres when the fractal is first selected.
    pub open spec fn home(self) -> Seq<u64> {
        match self {
            FractalType::Mandelbrot => seq![DOUBLE_MINUS_HALF, DOUBLE_ZERO],
            _ => seq![DOUBLE_ZERO, DOUBLE_ZERO],
        }
    }

    /// The point of the complex plane on which the view centres when the
    /// fractal is first selected. The root-finding maps have no region of their
    /// own to show, so they start at the origin.
    pub fn default_center(self) -> (r: [u64; 2])
        ensures
            r@ == self.home(),
    {
        match self {
            FractalType::Mandelbrot => [DOUBLE_MINUS_HALF, DOUBLE_ZERO],
            FractalType::Julia => [DOUBLE_ZERO, DOUBLE_ZERO],
            FractalType::Newton => [DOUBLE_ZERO, DOUBLE_ZERO],
            FractalType::Nova => [DOUBLE_ZERO, DOUBLE_ZERO],
        }
    }

    /// Only these two fractals have kernels that compute several pixels at once,
    /// and single-precision kernels.
    pub open spec fn is_quadratic_spec(self) -> bool {
        self == FractalType::Mandelbrot || self == FractalType::Julia
    }

    /// Whether the fractal iterates `z * z + c`.
    pub fn is_quadratic(self) -> (r: bool)
        ensures
            r == self.is_quadratic_spec(),
    {
        match self {
            FractalType::Mandelbrot => true,
            FractalType::Julia => true,
            _ => false,
        }
    }
}

/// The device kernels can tell any two fractals apart.
pub proof fn law_codes_are_distinct(a: FractalType, b: FractalType)
    ensures
        a.code() == b.code() <==> a == b,
        a.code() < 4,
{
}

/// The numbers by which the device kernels know the fractals, the points where the
/// views start, and which fractals iterate a quadratic map. Only the Mandelbrot set
/// starts off the origin.
pub proof fn law_fractals_are_told_apart_as_the_kernels_do(f: FractalType)
    ensures
        f == FractalType::Mandelbrot <==> f.code() == 0,
        f == FractalType::Julia <==> f.code() == 1,
        f == FractalType::Newton <==> f.code() == 2,
        f == FractalType::Nova <==> f.code() == 3,
        f.is_quadratic_spec() <==> f.code() < 2,
        f.home().len() == 2,
        f.home()[0] == (if f.code() == 0 {
            0xbfe0_0000_0000_0000u64
        } else {
            0u64
        }),
        f.home()[1] == 0,
{
}

/// What the fractals are called.
pub proof fn law_fractals_have_their_names(f: FractalType)
    ensures
        f == FractalType::Mandelbrot ==> f.label() == seq!['M', 'a', 'n', 'd', 'e', 'l', 'b', 'r', 'o', 't'],
        f == FractalType::Julia ==> f.label() == seq!['J', 'u', 'l', 'i', 'a', ' ', 'S', 'e', 't'],
        f == FractalType::Newton ==> f.label() == seq!['N', 'e', 'w', 't', 'o', 'n'],
        f == FractalType::Nova ==> f.label() == seq!['N', 'o', 'v', 'a'],
{
    reveal_strlit("Mandelbrot");
    assert("Mandelbrot"@ =~= seq!['M', 'a', 'n', 'd', 'e', 'l', 'b', 'r', 'o', 't']);
    reveal_strlit("Julia Set");
    assert("Julia Set"@ =~= seq!['J', 'u', 'l', 'i', 'a', ' ', 'S', 'e', 't']);
    reveal_strlit("Newton");
    assert("Newton"@ =~= seq!['N', 'e', 'w', 't', 'o', 'n']);
    reveal_strlit("Nova");
    assert("Nova"@ =~= seq!['N', 'o', 'v', 'a']);
}

} // verus!
