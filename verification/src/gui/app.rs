//! The state behind the controls of the viewer: what each of them changes, and
//! which frame is asked for next.
//!
//! Coordinates, zoom and the Julia constant are bit patterns of doubles.

use crate::float_bits::{double_lt_spec, single_eq, single_eq_spec, single_lt, single_lt_spec};
use crate::fractal::fractal_type::FractalType;
use crate::func::{evaluate, is_function, value_of};
use crate::gui::color::ColorScheme;
use crate::gui::render::RenderRequest;
use crate::gui::viewport::Viewport;
use vstd::prelude::*;

verus! {

/// The iteration limits between which the automatic one lies.
pub const AUTO_ITER_MIN: u32 = 64;

pub const AUTO_ITER_MAX: u32 = 2048;

/// The iteration limits that can be set by hand.
pub const MANUAL_ITER_MIN: u32 = 32;

pub const MANUAL_ITER_MAX: u32 = 4096;

/// What the controls show.
pub struct FractalApp {
    pub fractal: FractalType,
    pub viewport: Viewport,
    pub julia_c: [u64; 2],
    pub max_iter: u32,
    pub scheme: ColorScheme,
    pub show_panel: bool,
    pub needs_render: bool,
    pub auto_iter: bool,
    pub use_ms: bool,
}

/// The first of the Julia constants that are offered.
pub open spec fn dragon() -> Seq<u64> {
    seq![0xbfe7_42c3_c9ee_cbfbu64, 0x3fc8_2de0_0d1b_7176u64]
}

impl Default for FractalApp {
    fn default() -> (r: FractalApp)
        ensures
            r.fractal == FractalType::Mandelbrot,
            r.viewport.center@ == FractalType::Mandelbrot.home(),
            r.viewport.zoom == crate::float_bits::DOUBLE_ONE,
            r.viewport.width == 800,
            r.viewport.height == 600,
            r.julia_c@ == dragon(),
            r.max_iter == 256,
            r.scheme == ColorScheme::Inferno,
            r.show_panel,
            r.needs_render,
            r.auto_iter,
            !r.use_ms,
    {
        FractalApp {
            fractal: FractalType::Mandelbrot,
            viewport: Viewport::default(),
            julia_c: [0xbfe7_42c3_c9ee_cbfb, 0x3fc8_2de0_0d1b_7176],
            max_iter: 256,
            scheme: ColorScheme::Inferno,
            show_panel: true,
            needs_render: true,
            auto_iter: true,
            use_ms: false,
        }
    }
}

/// The automatic iteration limit: what `depth` answers for the zoom, held
/// between its bounds.
pub open spec fn auto_limit<D: Fn(u64) -> u32>(zoom: u64, depth: D) -> u32 {
    let wanted = value_of(depth, zoom);
    if wanted < AUTO_ITER_MIN {
        AUTO_ITER_MIN
    } else if wanted > AUTO_ITER_MAX {
        AUTO_ITER_MAX
    } else {
        wanted
    }
}

impl FractalApp {
    /// The iteration limit of the next frame.
    pub open spec fn next_limit<D: Fn(u64) -> u32>(self, depth: D) -> u32 {
        if self.auto_iter {
            auto_limit(self.viewport.zoom, depth)
        } else {
            self.max_iter
        }
    }

    /// Asks for the frame that the controls show. `depth` answers how many
    /// iterations a zoom calls for.
    pub fn request_render<D: Fn(u64) -> u32>(&mut self, depth: &D) -> (r: RenderRequest)
        requires
            is_function(*depth),
        ensures
            *final(self) == (FractalApp {
                max_iter: old(self).next_limit(*depth),
                needs_render: false,
                ..*old(self)
            }),
            r == (RenderRequest {
                vp: old(self).viewport,
                fractal: old(self).fractal,
                julia_c: old(self).julia_c,
                max_iter: old(self).next_limit(*depth),
                scheme: old(self).scheme,
                use_mariani_silver: old(self).use_ms,
                use_perturbation: false,
                use_series_approx: false,
                use_neighbor_cap: false,
                use_multiref: false,
                use_heterogeneous: false,
            }),
    {
        if self.auto_iter {
            let wanted: u32 = evaluate(depth, self.viewport.zoom);
            self.max_iter = if wanted < AUTO_ITER_MIN {
                AUTO_ITER_MIN
            } else if wanted > AUTO_ITER_MAX {
                AUTO_ITER_MAX
            } else {
                wanted
            };
        }
        self.needs_render = false;
        RenderRequest {
            vp: self.viewport,
            fractal: self.fractal,
            julia_c: self.julia_c,
            max_iter: self.max_iter,
            scheme: self.scheme,
            use_mariani_silver: self.use_ms,
            use_perturbation: false,
            use_series_approx: false,
            use_neighbor_cap: false,
            use_multiref: false,
            use_heterogeneous: false,
        }
    }

    /// Whether a frame is to be asked for: one is called for, and none is being
    /// computed.
    pub fn wants_render(&self, busy: bool) -> (r: bool)
        ensures
            r == (self.needs_render && !busy),
    {
        self.needs_render && !busy
    }

    /// The camera was moved or zoomed to another place.
    pub fn move_to(&mut self, center: [u64; 2], zoom: u64)
        ensures
            *final(self) == (FractalApp {
                viewport: Viewport { center, zoom, ..old(self).viewport },
                needs_render: true,
                ..*old(self)
            }),
    {
        self.viewport.center = center;
        self.viewport.zoom = zoom;
        self.needs_render = true;
    }

    /// Goes back to where the fractal is first shown.
    pub fn reset_view(&mut self)
        ensures
            final(self).viewport.center@ == old(self).fractal.home(),
            final(self).viewport.zoom == crate::float_bits::DOUBLE_ONE,
            final(self).viewport.width == old(self).viewport.width,
            final(self).viewport.height == old(self).viewport.height,
            *final(self) == (FractalApp {
                viewport: final(self).viewport,
                needs_render: true,
                ..*old(self)
            }),
    {
        self.viewport.reset(self.fractal);
        self.needs_render = true;
    }

    /// Shows another fractal, where it is first shown.
    pub fn pick_fractal(&mut self, fractal: FractalType)
        ensures
            final(self).viewport.center@ == fractal.home(),
            final(self).viewport.zoom == crate::float_bits::DOUBLE_ONE,
            final(self).viewport.width == old(self).viewport.width,
            final(self).viewport.height == old(self).viewport.height,
            *final(self) == (FractalApp {
                fractal,
                viewport: final(self).viewport,
                needs_render: true,
                ..*old(self)
            }),
    {
        self.fractal = fractal;
        self.viewport.reset(fractal);
        self.needs_render = true;
    }

    /// Sets the Julia constant.
    pub fn set_julia_c(&mut self, c: [u64; 2])
        ensures
            *final(self) == (FractalApp { julia_c: c, needs_render: true, ..*old(self) }),
    {
        self.julia_c = c;
        self.needs_render = true;
    }

    /// Shows another palette.
    pub fn pick_scheme(&mut self, scheme: ColorScheme)
        ensures
            *final(self) == (FractalApp { scheme, needs_render: true, ..*old(self) }),
    {
        self.scheme = scheme;
        self.needs_render = true;
    }

    /// Switches subdivision on or off.
    pub fn set_use_ms(&mut self, on: bool)
        ensures
            *final(self) == (FractalApp { use_ms: on, needs_render: true, ..*old(self) }),
    {
        self.use_ms = on;
        self.needs_render = true;
    }

    /// Switches the automatic iteration limit on or off. That alone calls for no
    /// new frame.
    pub fn set_auto_iter(&mut self, on: bool)
        ensures
            *final(self) == (FractalApp { auto_iter: on, ..*old(self) }),
    {
        self.auto_iter = on;
    }

    /// Sets the iteration limit by hand, which is possible only while it is not
    /// automatic.
    pub fn set_max_iter(&mut self, max_iter: u32)
        requires
            !old(self).auto_iter,
            MANUAL_ITER_MIN <= max_iter <= MANUAL_ITER_MAX,
        ensures
            *final(self) == (FractalApp { max_iter, needs_render: true, ..*old(self) }),
    {
        self.max_iter = max_iter;
        self.needs_render = true;
    }

    /// Shows or hides the panel.
    pub fn toggle_panel(&mut self)
        ensures
            *final(self) == (FractalApp { show_panel: !old(self).show_panel, ..*old(self) }),
    {
        self.show_panel = !self.show_panel;
    }

    /// The frame has a size; a new one calls for a new frame.
    pub fn resize(&mut self, w: u32, h: u32)
        ensures
            *final(self) == (if old(self).viewport.width != w || old(self).viewport.height != h {
                FractalApp {
                    viewport: Viewport { width: w, height: h, ..old(self).viewport },
                    needs_render: true,
                    ..*old(self)
                }
            } else {
                *old(self)
            }),
    {
        if self.viewport.width != w || self.viewport.height != h {
            self.viewport.width = w;
            self.viewport.height = h;
            self.needs_render = true;
        }
    }
}

/// What turning the wheel does.
#[derive(Clone, Copy, PartialEq, Eq, Structural, Debug)]
pub enum Wheel {
    Still,
    ZoomIn,
    ZoomOut,
}

/// What turning the wheel by `scroll` (the bit pattern of a single) does: forward
/// zooms in; anything else but standing still zooms out.
pub fn wheel(scroll: u32) -> (r: Wheel)
    ensures
        r == (if single_eq_spec(scroll, 0) {
            Wheel::Still
        } else if single_lt_spec(0, scroll) {
            Wheel::ZoomIn
        } else {
            Wheel::ZoomOut
        }),
{
    if single_eq(scroll, 0) {
        Wheel::Still
    } else if single_lt(0, scroll) {
        Wheel::ZoomIn
    } else {
        Wheel::ZoomOut
    }
}

/// A Julia constant with a name.
pub struct Preset {
    pub name: &'static str,
    pub c: [u64; 2],
}

/// The Julia constants that are offered.
pub fn julia_presets() -> (r: [Preset; 5])
    ensures
        r[0].name@ == "Dragon"@ && r[0].c@ == dragon(),
        r[1].name@ == "Spiral"@ && r[1].c@ == seq![0xbfe9_9999_9999_999au64, 0x3fc3_f7ce_d916_872bu64],
        r[2].name@ == "Dendrite"@ && r[2].c@ == seq![0xbfce_147a_e147_ae14u64, 0x3fea_76c8_b439_5810u64],
        r[3].name@ == "Snowflake"@ && r[3].c@ == seq![0xbfd9_9999_9999_999au64, 0x3fe3_3333_3333_3333u64],
        r[4].name@ == "Fire"@ && r[4].c@ == seq![0x3fd2_3d70_a3d7_0a3du64, 0x3f84_7ae1_47ae_147bu64],
{
    [
        Preset { name: "Dragon", c: [0xbfe7_42c3_c9ee_cbfb, 0x3fc8_2de0_0d1b_7176] },
        Preset { name: "Spiral", c: [0xbfe9_9999_9999_999a, 0x3fc3_f7ce_d916_872b] },
        Preset { name: "Dendrite", c: [0xbfce_147a_e147_ae14, 0x3fea_76c8_b439_5810] },
        Preset { name: "Snowflake", c: [0xbfd9_9999_9999_999a, 0x3fe3_3333_3333_3333] },
        Preset { name: "Fire", c: [0x3fd2_3d70_a3d7_0a3d, 0x3f84_7ae1_47ae_147b] },
    ]
}

/// The automatic iteration limit lies between its bounds at every zoom.
pub proof fn law_auto_limit_is_bounded<D: Fn(u64) -> u32>(zoom: u64, depth: D)
    ensures
        AUTO_ITER_MIN <= auto_limit(zoom, depth) <= AUTO_ITER_MAX,
{
}

/// The iteration limit of the next frame: the one that is set where it is not
/// automatic, and else what the zoom calls for, as it is between 64 and 2048 and the
/// nearer of the two beyond them.
pub proof fn law_next_limit_is_what_the_zoom_calls_for<D: Fn(u64) -> u32>(
    app: FractalApp,
    depth: D,
)
    ensures
        ({
            let wanted = value_of(depth, app.viewport.zoom);
            &&& !app.auto_iter ==> app.next_limit(depth) == app.max_iter
            &&& app.auto_iter && 64 <= wanted <= 2048 ==> app.next_limit(depth) == wanted
            &&& app.auto_iter && wanted < 64 ==> app.next_limit(depth) == 64
            &&& app.auto_iter && 2048 < wanted ==> app.next_limit(depth) == 2048
        }),
{
}

/// The first Julia constant that is offered lies left of the imaginary axis and above
/// the real one, less than one away from both: its parts are minus 0.7269 and 0.1889, to
/// the nearest double.
pub proof fn law_dragon_lies_upper_left()
    ensures
        dragon().len() == 2,
        dragon()[0] == 0xbfe7_42c3_c9ee_cbfb,
        dragon()[1] == 0x3fc8_2de0_0d1b_7176,
        double_lt_spec(dragon()[0], 0) && double_lt_spec(0, dragon()[1]),
        double_lt_spec(0xbff0_0000_0000_0000, dragon()[0]) && double_lt_spec(
            dragon()[1],
            0x3ff0_0000_0000_0000,
        ),
{
}

} // verus!
