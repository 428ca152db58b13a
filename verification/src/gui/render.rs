//! Planning a frame: what of the last frame can be used again, and which
//! renderer computes the rest.

use crate::float_bits::{double_lt, double_lt_spec};
use crate::fractal::fractal::{IterBuf, F32_PRECISION_THRESHOLD};
use crate::fractal::fractal_type::FractalType;
use crate::fractal::perturbation::perturbation_theory::{needs_pairs, F128_ZOOM_THRESHOLD};
use crate::fractal::render::pan::{panned_value, shift_and_fill};
use crate::func::{is_function, value_of};
use crate::grid::{at, in_frame, lemma_index_in_frame, lemma_index_to_pixel, lemma_same_frame};
use crate::gui::color::ColorScheme;
use crate::gui::viewport::Viewport;
use vstd::prelude::*;

verus! {

/// How far above its left neighbour's value a pixel's first limit lies.
pub const NEIGHBOR_CAP_SLACK: u32 = 16;

/// Everything that a frame depends on. The Julia constant is a pair of bit
/// patterns of doubles.
#[derive(Clone, Copy, Debug)]
pub struct RenderRequest {
    pub vp: Viewport,
    pub fractal: FractalType,
    pub julia_c: [u64; 2],
    pub max_iter: u32,
    pub scheme: ColorScheme,
    pub use_mariani_silver: bool,
    pub use_perturbation: bool,
    pub use_series_approx: bool,
    pub use_neighbor_cap: bool,
    pub use_multiref: bool,
    pub use_heterogeneous: bool,
}

/// Whether a frame is the quick one at half the resolution or the one asked for.
#[derive(Clone, Copy, PartialEq, Eq, Structural, Debug)]
pub enum Quality {
    Preview,
    Final,
}

/// Everything that the values of a frame depend on: not the palette.
#[derive(Clone, Copy, Debug)]
pub struct CacheKey {
    pub vp: Viewport,
    pub fractal: FractalType,
    pub julia_c_bits: [u64; 2],
    pub max_iter: u32,
    pub use_mariani_silver: bool,
    pub use_perturbation: bool,
    pub use_series_approx: bool,
    pub use_neighbor_cap: bool,
    pub use_multiref: bool,
}

impl PartialEq for CacheKey {
    fn eq(&self, other: &CacheKey) -> (r: bool) {
        self.vp == other.vp && self.fractal == other.fractal && self.julia_c_bits[0]
            == other.julia_c_bits[0] && self.julia_c_bits[1] == other.julia_c_bits[1]
            && self.max_iter == other.max_iter && self.use_mariani_silver
            == other.use_mariani_silver && self.use_perturbation == other.use_perturbation
            && self.use_series_approx == other.use_series_approx && self.use_neighbor_cap
            == other.use_neighbor_cap && self.use_multiref == other.use_multiref
    }
}

impl vstd::std_specs::cmp::PartialEqSpecImpl for CacheKey {
    open spec fn obeys_eq_spec() -> bool {
        true
    }

    open spec fn eq_spec(&self, other: &CacheKey) -> bool {
        self.same_frame(*other)
    }
}

/// The key of the frame that `req` asks for.
pub open spec fn key_of(req: RenderRequest) -> CacheKey {
    CacheKey {
        vp: req.vp,
        fractal: req.fractal,
        julia_c_bits: req.julia_c,
        max_iter: req.max_iter,
        use_mariani_silver: req.use_mariani_silver,
        use_perturbation: req.use_perturbation,
        use_series_approx: req.use_series_approx,
        use_neighbor_cap: req.use_neighbor_cap,
        use_multiref: req.use_multiref,
    }
}

impl CacheKey {
    /// The two keys are those of one frame.
    pub open spec fn same_frame(self, other: CacheKey) -> bool {
        &&& self.vp.same_view(other.vp)
        &&& self.fractal == other.fractal
        &&& self.julia_c_bits[0] == other.julia_c_bits[0]
        &&& self.julia_c_bits[1] == other.julia_c_bits[1]
        &&& self.max_iter == other.max_iter
        &&& self.use_mariani_silver == other.use_mariani_silver
        &&& self.use_perturbation == other.use_perturbation
        &&& self.use_series_approx == other.use_series_approx
        &&& self.use_neighbor_cap == other.use_neighbor_cap
        &&& self.use_multiref == other.use_multiref
    }

    /// The key of the frame that `req` asks for.
    pub fn from(req: &RenderRequest) -> (r: CacheKey)
        ensures
            r == key_of(*req),
    {
        CacheKey {
            vp: req.vp,
            fractal: req.fractal,
            julia_c_bits: req.julia_c,
            max_iter: req.max_iter,
            use_mariani_silver: req.use_mariani_silver,
            use_perturbation: req.use_perturbation,
            use_series_approx: req.use_series_approx,
            use_neighbor_cap: req.use_neighbor_cap,
            use_multiref: req.use_multiref,
        }
    }

    /// Every setting but the camera agrees, and none is on under which a pixel's
    /// value depends on the rest of the frame.
    pub open spec fn differs_by_camera_only(self, other: CacheKey) -> bool {
        &&& self.fractal == other.fractal
        &&& self.julia_c_bits[0] == other.julia_c_bits[0]
        &&& self.julia_c_bits[1] == other.julia_c_bits[1]
        &&& self.max_iter == other.max_iter
        &&& !self.use_mariani_silver && !other.use_mariani_silver
        &&& !self.use_perturbation && !other.use_perturbation
        &&& !self.use_series_approx && !other.use_series_approx
        &&& !self.use_neighbor_cap && !other.use_neighbor_cap
        &&& self.use_multiref == other.use_multiref
    }

    /// Whether the frame of one key can be moved to become that of the other.
    pub fn pan_eligible_match(&self, other: &CacheKey) -> (r: bool)
        ensures
            r == self.differs_by_camera_only(*other),
    {
        self.fractal == other.fractal && self.julia_c_bits[0] == other.julia_c_bits[0]
            && self.julia_c_bits[1] == other.julia_c_bits[1] && self.max_iter == other.max_iter
            && !self.use_mariani_silver && !other.use_mariani_silver && !self.use_perturbation
            && !other.use_perturbation && !self.use_series_approx && !other.use_series_approx
            && !self.use_neighbor_cap && !other.use_neighbor_cap && self.use_multiref
            == other.use_multiref
    }
}

/// How the next frame comes about.
#[derive(Clone, Copy, Debug)]
pub enum FramePlan {
    /// The values are those of the last frame.
    Recolor,
    /// The last frame is moved, and what came into view is computed.
    Shift { dx: i32, dy: i32 },
    /// The frame is computed, after a quick one at the given size if it has one.
    Full { preview: Option<Viewport> },
}

/// A move by whole pixels along one axis that leaves part of the frame in view.
pub open spec fn is_usable_move(dx: i32, dy: i32, w: u32, h: u32) -> bool {
    &&& -w < dx < w
    &&& -h < dy < h
    &&& dx == 0 || dy == 0
    &&& dx != 0 || dy != 0
}

/// The camera of the quick frame: half as wide and high, if there is something to halve.
pub open spec fn preview_of(vp: Viewport) -> Option<Viewport> {
    if vp.width >= 2 && vp.height >= 2 {
        Some(Viewport { width: vp.width / 2, height: vp.height / 2, ..vp })
    } else {
        None
    }
}

/// How the frame that `req` asks for comes about after a frame of key `last`.
pub open spec fn plan_for<F: Fn((Viewport, Viewport)) -> Option<(i32, i32)>>(
    last: Option<CacheKey>,
    req: RenderRequest,
    drift: F,
) -> FramePlan {
    let full = FramePlan::Full { preview: preview_of(req.vp) };
    match last {
        None => full,
        Some(prev) => if prev.same_frame(key_of(req)) {
            FramePlan::Recolor
        } else if prev.differs_by_camera_only(key_of(req)) && prev.vp.same_scale(req.vp)
            && prev.vp.is_placed() && req.vp.is_placed() {
            match value_of(drift, (prev.vp, req.vp)) {
                Some(d) => if is_usable_move(d.0, d.1, req.vp.width, req.vp.height) {
                    FramePlan::Shift { dx: d.0, dy: d.1 }
                } else {
                    full
                },
                None => full,
            }
        } else {
            full
        },
    }
}

/// The values of the last frame, and its key.
pub struct FrameCache {
    pub key: Option<CacheKey>,
    pub buf: IterBuf,
}

impl FrameCache {
    /// The values are those of a whole frame.
    pub open spec fn inv(self) -> bool {
        self.key matches Some(key) ==> self.buf@.len() == key.vp.width * key.vp.height
    }

    /// A cache that holds no frame.
    pub fn new() -> (r: FrameCache)
        ensures
            r.inv(),
            r.key is None,
            r.buf@.len() == 0,
    {
        FrameCache { key: None, buf: Vec::new() }
    }

    /// How the frame that `req` asks for comes about.
    pub fn plan<F: Fn((Viewport, Viewport)) -> Option<(i32, i32)>>(
        &self,
        req: &RenderRequest,
        drift: &F,
    ) -> (r: FramePlan)
        requires
            is_function(*drift),
        ensures
            r == plan_for(self.key, *req, *drift),
    {
        let w: u32 = req.vp.width;
        let h: u32 = req.vp.height;
        let key = CacheKey::from(req);
        if let Some(prev) = &self.key {
            if *prev == key {
                return FramePlan::Recolor;
            }
            if prev.pan_eligible_match(&key) {
                if let Some((dx, dy)) = prev.vp.delta_pixels(&req.vp, drift) {
                    let in_bounds: bool = -(w as i64) < dx as i64 && (dx as i64) < w as i64 && -(
                    h as i64) < dy as i64 && (dy as i64) < h as i64;
                    let axis_aligned: bool = dx == 0 || dy == 0;
                    let nonzero: bool = dx != 0 || dy != 0;
                    if in_bounds && axis_aligned && nonzero {
                        return FramePlan::Shift { dx, dy };
                    }
                }
            }
        }
        if w >= 2 && h >= 2 {
            FramePlan::Full { preview: Some(req.vp.with_size(w / 2, h / 2)) }
        } else {
            FramePlan::Full { preview: None }
        }
    }

    /// Moves the last frame and computes what came into view.
    pub fn shift<F: Fn((usize, usize)) -> u32 + Sync>(
        &mut self,
        req: &RenderRequest,
        dx: i32,
        dy: i32,
        sample: &F,
    )
        requires
            old(self).buf@.len() == req.vp.width * req.vp.height,
            req.vp.width <= usize::MAX,
            req.vp.height <= usize::MAX,
            is_usable_move(dx, dy, req.vp.width, req.vp.height),
            is_function(*sample),
        ensures
            final(self).inv(),
            final(self).key == Some(key_of(*req)),
            final(self).buf@.len() == req.vp.width * req.vp.height,
            forall|x: int, y: int|
                in_frame(req.vp.width as int, req.vp.height as int, x, y) ==> #[trigger] at(
                    final(self).buf@,
                    req.vp.width as int,
                    x,
                    y,
                ) == panned_value(
                    old(self).buf@,
                    req.vp.width as int,
                    req.vp.height as int,
                    dx as int,
                    dy as int,
                    *sample,
                    x,
                    y,
                ),
    {
        let w: usize = req.vp.width as usize;
        let h: usize = req.vp.height as usize;
        shift_and_fill(&mut self.buf, w, h, dx, dy, sample);
        self.key = Some(CacheKey::from(req));
    }

    /// Keeps the values of a frame that was computed.
    pub fn store(&mut self, req: &RenderRequest, buf: IterBuf)
        requires
            buf@.len() == req.vp.width * req.vp.height,
        ensures
            final(self).inv(),
            final(self).key == Some(key_of(*req)),
            final(self).buf@ == buf@,
    {
        self.key = Some(CacheKey::from(req));
        self.buf = buf;
    }
}

/// A frame is moved only where the last one has the size of the next one, so
/// that moving is possible, and only by a usable move.
pub proof fn law_moved_frames_keep_their_size<
    F: Fn((Viewport, Viewport)) -> Option<(i32, i32)>,
>(cache: FrameCache, req: RenderRequest, drift: F, dx: i32, dy: i32)
    requires
        cache.inv(),
        plan_for(cache.key, req, drift) == (FramePlan::Shift { dx, dy }),
    ensures
        cache.buf@.len() == req.vp.width * req.vp.height,
        is_usable_move(dx, dy, req.vp.width, req.vp.height),
        cache.key matches Some(prev) && prev.differs_by_camera_only(key_of(req)),
{
}

/// Changing the palette alone never computes a frame again.
pub proof fn law_palette_change_recolors<F: Fn((Viewport, Viewport)) -> Option<(i32, i32)>>(
    req: RenderRequest,
    scheme: ColorScheme,
    drift: F,
)
    requires
        req.vp.same_view(req.vp),
    ensures
        plan_for(Some(key_of(req)), RenderRequest { scheme, ..req }, drift) is Recolor,
{
}

/// A quick frame is never larger than the frame, and never empty.
pub proof fn law_preview_is_smaller(vp: Viewport)
    ensures
        preview_of(vp) matches Some(p) ==> 0 < p.width < vp.width && 0 < p.height < vp.height
            && p.zoom == vp.zoom && p.center == vp.center,
        preview_of(vp) is None <==> vp.width < 2 || vp.height < 2,
{
}

/// The renderers.
#[derive(Clone, Copy, Debug, PartialEq, Eq, Structural)]
pub enum Strategy {
    PerturbationSeries,
    PerturbationMultiref,
    Perturbation,
    MarianiSilver,
    NeighborCapped,
    SimdSingleInterleaved,
    SimdSingle,
    SimdDouble,
    Scalar,
}

/// The renderer of a request at a zoom: the most special one that is asked for;
/// else the one that computes the most pixels at a time in sufficient precision,
/// where `simd` says that such renderers may be used.
pub open spec fn strategy_for(req: RenderRequest, zoom: u64, simd: bool) -> Strategy {
    if req.use_perturbation && req.use_series_approx {
        Strategy::PerturbationSeries
    } else if req.use_perturbation && req.use_multiref {
        Strategy::PerturbationMultiref
    } else if req.use_perturbation {
        Strategy::Perturbation
    } else if req.use_mariani_silver {
        Strategy::MarianiSilver
    } else if req.use_neighbor_cap {
        Strategy::NeighborCapped
    } else if simd && req.fractal == FractalType::Mandelbrot {
        if double_lt_spec(zoom, F32_PRECISION_THRESHOLD) {
            Strategy::SimdSingleInterleaved
        } else {
            Strategy::SimdDouble
        }
    } else if simd && req.fractal == FractalType::Julia {
        if double_lt_spec(zoom, F32_PRECISION_THRESHOLD) {
            Strategy::SimdSingle
        } else {
            Strategy::SimdDouble
        }
    } else {
        Strategy::Scalar
    }
}

/// Chooses the renderer of a request for the camera `target`.
pub fn choose_strategy(req: &RenderRequest, target: &Viewport, simd: bool) -> (r: Strategy)
    ensures
        r == strategy_for(*req, target.zoom, simd),
{
    if req.use_perturbation && req.use_series_approx {
        Strategy::PerturbationSeries
    } else if req.use_perturbation && req.use_multiref {
        Strategy::PerturbationMultiref
    } else if req.use_perturbation {
        Strategy::Perturbation
    } else if req.use_mariani_silver {
        Strategy::MarianiSilver
    } else if req.use_neighbor_cap {
        Strategy::NeighborCapped
    } else if simd {
        let single: bool = double_lt(target.zoom, F32_PRECISION_THRESHOLD);
        match req.fractal {
            FractalType::Mandelbrot => if single {
                Strategy::SimdSingleInterleaved
            } else {
                Strategy::SimdDouble
            },
            FractalType::Julia => if single {
                Strategy::SimdSingle
            } else {
                Strategy::SimdDouble
            },
            _ => Strategy::Scalar,
        }
    } else {
        Strategy::Scalar
    }
}

/// A renderer that computes blocks is chosen only for a fractal that has one.
pub proof fn law_blocks_only_where_there_are_kernels(req: RenderRequest, zoom: u64, simd: bool)
    ensures
        ({
            let s = strategy_for(req, zoom, simd);
            s is SimdSingle || s is SimdSingleInterleaved || s is SimdDouble ==> simd
                && req.fractal.is_quadratic_spec()
        }),
        strategy_for(req, zoom, simd) is SimdSingleInterleaved ==> req.fractal
            == FractalType::Mandelbrot,
{
}

/// What a device is asked to do for a frame.
#[derive(Clone, Copy, Debug, PartialEq, Eq, Structural)]
pub enum DevicePath {
    /// Share the frame with the CPU.
    Heterogeneous,
    /// Follow every pixel against a reference orbit, which the CPU computes.
    Perturbation { pairs: bool },
    /// Compute every pixel.
    Plain,
}

/// What a device is asked to do for a frame.
pub open spec fn device_path_for(req: RenderRequest) -> DevicePath {
    if req.use_heterogeneous {
        DevicePath::Heterogeneous
    } else if req.use_perturbation && req.fractal == FractalType::Mandelbrot {
        DevicePath::Perturbation { pairs: needs_pairs(req.vp.zoom) }
    } else {
        DevicePath::Plain
    }
}

/// Chooses what a device is asked to do for a frame.
pub fn choose_device_path(req: &RenderRequest) -> (r: DevicePath)
    ensures
        r == device_path_for(*req),
{
    if req.use_heterogeneous {
        DevicePath::Heterogeneous
    } else if req.use_perturbation && req.fractal == FractalType::Mandelbrot {
        DevicePath::Perturbation { pairs: double_lt(F128_ZOOM_THRESHOLD, req.vp.zoom) }
    } else {
        DevicePath::Plain
    }
}

/// Whether a device set up for frames of one size, if any, has to be set up anew.
pub fn needs_new_device(current: Option<(u32, u32)>, req: &RenderRequest) -> (r: bool)
    ensures
        r == (current != Some((req.vp.width, req.vp.height))),
{
    match current {
        Some((w, h)) => w != req.vp.width || h != req.vp.height,
        None => true,
    }
}

/// A request and its number.
#[derive(Clone, Copy, Debug)]
pub struct Ticket {
    pub id: u64,
    pub req: RenderRequest,
}

/// The request that was sent last.
pub open spec fn latest_of(first: Ticket, queued: Seq<Ticket>) -> Ticket {
    if queued.len() == 0 {
        first
    } else {
        queued.last()
    }
}

/// The request that is worth rendering once `first` is taken up while `queued`
/// wait behind it: the one that was sent last.
pub fn latest_request(first: Ticket, queued: &Vec<Ticket>) -> (r: Ticket)
    ensures
        r == latest_of(first, queued@),
{
    if queued.len() == 0 {
        first
    } else {
        queued[queued.len() - 1]
    }
}

/// The cameras and qualities of the frames that a plan leads to, in the order in
/// which they are handed over.
pub open spec fn passes_of(plan: FramePlan, vp: Viewport) -> Seq<(Viewport, Quality)> {
    match plan {
        FramePlan::Recolor => seq![(vp, Quality::Final)],
        FramePlan::Shift { dx, dy } => seq![(vp, Quality::Final)],
        FramePlan::Full { preview: None } => seq![(vp, Quality::Final)],
        FramePlan::Full { preview: Some(small) } => seq![
            (small, Quality::Preview),
            (vp, Quality::Final),
        ],
    }
}

/// The cameras and qualities of the frames that a plan for the camera `vp` leads
/// to, in the order in which they are handed over.
pub fn passes(plan: &FramePlan, vp: &Viewport) -> (r: Vec<(Viewport, Quality)>)
    ensures
        r@ == passes_of(*plan, *vp),
{
    let mut r: Vec<(Viewport, Quality)> = Vec::new();
    if let FramePlan::Full { preview: Some(small) } = plan {
        r.push((*small, Quality::Preview));
    }
    r.push((*vp, Quality::Final));
    assert(r@ =~= passes_of(*plan, *vp));
    r
}

/// A request that is being served: how its frame comes about, and how many of the
/// frames that the plan leads to have been handed over.
#[derive(Clone, Copy, Debug)]
pub struct Serving {
    pub ticket: Ticket,
    pub plan: FramePlan,
    pub done: usize,
}

/// A frame that is handed over, with the number of the request that it answers.
pub struct Frame {
    pub id: u64,
    pub vp: Viewport,
    pub quality: Quality,
    pub buf: IterBuf,
}

/// What [`Frame`] holds.
#[verifier::ext_equal]
pub struct FrameModel {
    pub id: u64,
    pub vp: Viewport,
    pub quality: Quality,
    pub values: Seq<u32>,
}

impl View for Frame {
    type V = FrameModel;

    open spec fn view(&self) -> FrameModel {
        FrameModel { id: self.id, vp: self.vp, quality: self.quality, values: self.buf@ }
    }
}

/// `compute` renders the frame of `vp`: it answers one value for each pixel, and
/// the same values each time.
pub open spec fn renders<C: Fn(Viewport) -> IterBuf>(compute: C, vp: Viewport) -> bool {
    &&& call_requires(compute, (vp,))
    &&& forall|a: IterBuf, b: IterBuf|
        #[trigger] call_ensures(compute, (vp,), a) && #[trigger] call_ensures(compute, (vp,), b)
            ==> a@ == b@
    &&& forall|a: IterBuf|
        #[trigger] call_ensures(compute, (vp,), a) ==> a@.len() == vp.width * vp.height
}

/// The values that `compute` answers for the frame of `vp`.
pub open spec fn rendered<C: Fn(Viewport) -> IterBuf>(compute: C, vp: Viewport) -> Seq<u32> {
    (choose|a: IterBuf| call_ensures(compute, (vp,), a))@
}

/// The frame `buf` of the camera `vp` once it is moved and what came into view is
/// computed.
pub open spec fn moved_frame<F: Fn((usize, usize)) -> u32>(
    buf: Seq<u32>,
    vp: Viewport,
    dx: i32,
    dy: i32,
    sample: F,
) -> Seq<u32> {
    let w = vp.width as int;
    let h = vp.height as int;
    Seq::new(
        (w * h) as nat,
        |i: int| panned_value(buf, w, h, dx as int, dy as int, sample, i % w, i / w),
    )
}

impl Serving {
    /// The values of the frame at place `k` among those that the plan leads to,
    /// where `buf` are the values of the last frame.
    pub open spec fn values_at<F: Fn((usize, usize)) -> u32, C: Fn(Viewport) -> IterBuf>(
        self,
        buf: Seq<u32>,
        k: int,
        sample: F,
        compute: C,
    ) -> Seq<u32> {
        let vp = passes_of(self.plan, self.ticket.req.vp)[k].0;
        match self.plan {
            FramePlan::Recolor => buf,
            FramePlan::Shift { dx, dy } => moved_frame(buf, vp, dx, dy, sample),
            FramePlan::Full { preview } => rendered(compute, vp),
        }
    }

    /// The frames that the request yields, in the order in which they are handed
    /// over, where `buf` are the values of the last frame.
    pub open spec fn frames<F: Fn((usize, usize)) -> u32, C: Fn(Viewport) -> IterBuf>(
        self,
        buf: Seq<u32>,
        sample: F,
        compute: C,
    ) -> Seq<FrameModel> {
        let p = passes_of(self.plan, self.ticket.req.vp);
        Seq::new(
            p.len(),
            |k: int|
                FrameModel {
                    id: self.ticket.id,
                    vp: p[k].0,
                    quality: p[k].1,
                    values: self.values_at(buf, k, sample, compute),
                },
        )
    }

    /// `compute` renders every frame that the plan leads to.
    pub open spec fn can_be_rendered<C: Fn(Viewport) -> IterBuf>(self, compute: C) -> bool {
        forall|k: int|
            0 <= k < passes_of(self.plan, self.ticket.req.vp).len() ==> renders(
                compute,
                (#[trigger] passes_of(self.plan, self.ticket.req.vp)[k]).0,
            )
    }
}

impl FrameCache {
    /// The last frame is one from which the plan can start.
    pub open spec fn can_serve(self, s: Serving) -> bool {
        let vp = s.ticket.req.vp;
        match s.plan {
            FramePlan::Recolor => self.buf@.len() == vp.width * vp.height,
            FramePlan::Shift { dx, dy } => self.buf@.len() == vp.width * vp.height
                && is_usable_move(dx, dy, vp.width, vp.height),
            FramePlan::Full { preview } => true,
        }
    }

    /// Takes up the request that was sent last, once `first` is taken up while
    /// `queued` wait behind it.
    pub fn begin<D: Fn((Viewport, Viewport)) -> Option<(i32, i32)>>(
        &self,
        first: Ticket,
        queued: &Vec<Ticket>,
        drift: &D,
    ) -> (s: Serving)
        requires
            self.inv(),
            is_function(*drift),
        ensures
            s.ticket == latest_of(first, queued@),
            s.plan == plan_for(self.key, s.ticket.req, *drift),
            s.done == 0,
            self.can_serve(s),
    {
        let ticket: Ticket = latest_request(first, queued);
        let plan: FramePlan = self.plan(&ticket.req, drift);
        Serving { ticket, plan, done: 0 }
    }

    /// Makes the next frame of a request that is being served; nothing if all of
    /// them have been handed over. The last one is kept. `sample` answers the
    /// pixels of the camera asked for, and `compute` renders a frame.
    pub fn step<F: Fn((usize, usize)) -> u32 + Sync, C: Fn(Viewport) -> IterBuf>(
        &mut self,
        s: &mut Serving,
        sample: &F,
        compute: &C,
    ) -> (r: Option<Frame>)
        requires
            old(self).inv(),
            old(self).can_serve(*old(s)),
            old(s).ticket.req.vp.width <= usize::MAX,
            old(s).ticket.req.vp.height <= usize::MAX,
            is_function(*sample),
            old(s).can_be_rendered(*compute),
        ensures
            final(self).inv(),
            final(self).can_serve(*final(s)),
            match r {
                Some(f) => {
                    let all = old(s).frames(old(self).buf@, *sample, *compute);
                    &&& old(s).done < all.len()
                    &&& f@ == all[old(s).done as int]
                    &&& *final(s) == (Serving { done: (old(s).done + 1) as usize, ..*old(s) })
                    &&& f.quality == Quality::Preview ==> *final(self) == *old(self)
                    &&& f.buf@.len() == f.vp.width * f.vp.height
                    &&& f.quality == Quality::Final ==> final(self).buf@ == f.buf@
                    &&& f.quality == Quality::Final && old(s).plan is Recolor
                        ==> final(self).key == old(self).key
                    &&& f.quality == Quality::Final && !(old(s).plan is Recolor)
                        ==> final(self).key == Some(key_of(old(s).ticket.req))
                },
                None => {
                    &&& old(s).done >= passes_of(old(s).plan, old(s).ticket.req.vp).len()
                    &&& *final(s) == *old(s)
                    &&& *final(self) == *old(self)
                },
            },
    {
        let all: Vec<(Viewport, Quality)> = passes(&s.plan, &s.ticket.req.vp);
        if s.done >= all.len() {
            return None;
        }
        let (vp, quality) = all[s.done];
        let req: RenderRequest = s.ticket.req;
        let ghost before = self.buf@;
        match s.plan {
            FramePlan::Recolor => {},
            FramePlan::Shift { dx, dy } => {
                self.shift(&req, dx, dy, sample);
                proof {
                    let w = req.vp.width as int;
                    let h = req.vp.height as int;
                    let want = moved_frame(before, req.vp, dx, dy, *sample);
                    assert forall|x: int, y: int| in_frame(w, h, x, y) implies #[trigger] at(
                        self.buf@,
                        w,
                        x,
                        y,
                    ) == at(want, w, x, y) by {
                        lemma_index_in_frame(w, h, x, y);
                        lemma_index_to_pixel(w, x, y);
                    }
                    lemma_same_frame(self.buf@, want, w, h);
                }
            },
            FramePlan::Full { .. } => {
                assert(renders(*compute, passes_of(s.plan, req.vp)[s.done as int].0));
                let buf: IterBuf = compute(vp);
                if quality == Quality::Preview {
                    let frame = Frame { id: s.ticket.id, vp, quality, buf };
                    s.done = s.done + 1;
                    return Some(frame);
                }
                self.store(&req, buf);
            },
        }
        let frame = Frame { id: s.ticket.id, vp, quality, buf: self.buf.clone() };
        s.done = s.done + 1;
        Some(frame)
    }
}

/// A request yields its own frames and nothing else: the last one, and only that,
/// is Final and has the size asked for; before it comes at most one, a Preview
/// of half the width and height.
pub proof fn law_request_ends_with_its_final_frame<
    D: Fn((Viewport, Viewport)) -> Option<(i32, i32)>,
    F: Fn((usize, usize)) -> u32,
    C: Fn(Viewport) -> IterBuf,
>(cache: FrameCache, s: Serving, drift: D, sample: F, compute: C)
    requires
        s.plan == plan_for(cache.key, s.ticket.req, drift),
    ensures
        ({
            let vp = s.ticket.req.vp;
            let all = s.frames(cache.buf@, sample, compute);
            &&& 1 <= all.len() <= 2
            &&& all.last().quality == Quality::Final && all.last().vp == vp
            &&& all.len() == 2 ==> {
                &&& all[0].quality == Quality::Preview
                &&& all[0].vp == (Viewport {
                    width: vp.width / 2,
                    height: vp.height / 2,
                    ..vp
                })
            }
            &&& forall|k: int|
                0 <= k < all.len() ==> (#[trigger] all[k]).id == s.ticket.id
        }),
{
}

/// Where several requests wait, only the one that was sent last is served: every
/// frame until the next request is taken up answers it, and the last of them is
/// its Final frame.
pub proof fn law_only_the_latest_request_is_served<
    D: Fn((Viewport, Viewport)) -> Option<(i32, i32)>,
    F: Fn((usize, usize)) -> u32,
    C: Fn(Viewport) -> IterBuf,
>(
    cache: FrameCache,
    first: Ticket,
    queued: Seq<Ticket>,
    s: Serving,
    drift: D,
    sample: F,
    compute: C,
)
    requires
        queued.len() > 0,
        s.ticket == latest_of(first, queued),
        s.plan == plan_for(cache.key, s.ticket.req, drift),
    ensures
        ({
            let all = s.frames(cache.buf@, sample, compute);
            &&& all.len() > 0
            &&& forall|k: int| 0 <= k < all.len() ==> (#[trigger] all[k]).id == queued.last().id
            &&& all.last().quality == Quality::Final
            &&& all.last().vp == queued.last().req.vp
        }),
{
    law_request_ends_with_its_final_frame(cache, s, drift, sample, compute);
}

/// A request that differs from the one served last in the palette alone yields
/// exactly one frame: a Final one of the same size, with the very values of the
/// frame before.
pub proof fn law_palette_change_yields_the_same_values<
    D: Fn((Viewport, Viewport)) -> Option<(i32, i32)>,
    F: Fn((usize, usize)) -> u32,
    C: Fn(Viewport) -> IterBuf,
>(
    cache: FrameCache,
    req: RenderRequest,
    scheme: ColorScheme,
    s: Serving,
    drift: D,
    sample: F,
    compute: C,
)
    requires
        cache.key == Some(key_of(req)),
        req.vp.same_view(req.vp),
        s.ticket.req == (RenderRequest { scheme, ..req }),
        s.plan == plan_for(cache.key, s.ticket.req, drift),
    ensures
        s.frames(cache.buf@, sample, compute) == seq![
            FrameModel {
                id: s.ticket.id,
                vp: req.vp,
                quality: Quality::Final,
                values: cache.buf@,
            },
        ],
{
    assert(s.plan is Recolor);
    assert(s.frames(cache.buf@, sample, compute) =~= seq![
        FrameModel {
            id: s.ticket.id,
            vp: req.vp,
            quality: Quality::Final,
            values: cache.buf@,
        },
    ]);
}

/// Whether the Final frame of the request that was sent last is still to come.
/// Requests are numbered from one on.
#[derive(Clone, Copy, Debug)]
pub struct RenderStatus {
    pub busy: bool,
    /// The number of the request that was sent last.
    pub latest: u64,
}

impl RenderStatus {
    /// Before anything is asked for.
    pub open spec fn idle() -> RenderStatus {
        RenderStatus { busy: false, latest: 0 }
    }

    /// After one more request. The numbers start over once they are used up.
    pub open spec fn after_request(self) -> RenderStatus {
        RenderStatus {
            busy: true,
            latest: if self.latest < u64::MAX {
                (self.latest + 1) as u64
            } else {
                0
            },
        }
    }

    /// After a frame for the request `id` arrived.
    pub open spec fn after_frame(self, id: u64, quality: Quality) -> RenderStatus {
        RenderStatus {
            busy: self.busy && !(quality == Quality::Final && id == self.latest),
            latest: self.latest,
        }
    }

    /// Nothing has been asked for yet.
    pub fn new() -> (r: RenderStatus)
        ensures
            r == RenderStatus::idle(),
    {
        RenderStatus { busy: false, latest: 0 }
    }

    /// A frame is asked for. Answers the number of the request.
    pub fn request(&mut self) -> (id: u64)
        ensures
            *final(self) == old(self).after_request(),
            id == final(self).latest,
    {
        self.latest = if self.latest < u64::MAX {
            self.latest + 1
        } else {
            0
        };
        self.busy = true;
        self.latest
    }

    /// A frame arrived for the request `id`. Neither a quick frame nor one of an
    /// earlier request ends the wait.
    pub fn received(&mut self, id: u64, quality: Quality)
        ensures
            *final(self) == old(self).after_frame(id, quality),
    {
        if quality == Quality::Final && id == self.latest {
            self.busy = false;
        }
    }
}

/// Something that happens to a [`RenderStatus`].
pub enum StatusEvent {
    Request,
    Received { id: u64, quality: Quality },
}

/// How many requests were sent.
pub open spec fn requests_in(events: Seq<StatusEvent>) -> nat
    decreases events.len(),
{
    if events.len() == 0 {
        0
    } else {
        requests_in(events.drop_last()) + (if events.last() is Request {
            1nat
        } else {
            0nat
        })
    }
}

/// The status after a sequence of events.
pub open spec fn status_after(events: Seq<StatusEvent>) -> RenderStatus
    decreases events.len(),
{
    if events.len() == 0 {
        RenderStatus::idle()
    } else {
        let before = status_after(events.drop_last());
        match events.last() {
            StatusEvent::Request => before.after_request(),
            StatusEvent::Received { id, quality } => before.after_frame(id, quality),
        }
    }
}

/// The event at place `i` is the last request, and since then no Final frame
/// arrived for it.
pub open spec fn waits_since(events: Seq<StatusEvent>, i: int) -> bool {
    &&& 0 <= i < events.len()
    &&& events[i] is Request
    &&& forall|j: int|
        i < j < events.len() ==> (#[trigger] events[j] matches StatusEvent::Received { id, quality }
            && !(quality == Quality::Final && id == requests_in(events)))
}

/// The status is busy exactly while the Final frame of the request that was sent
/// last is still to come, whatever arrives for earlier requests.
pub proof fn law_busy_until_the_latest_is_final(events: Seq<StatusEvent>)
    requires
        requests_in(events) <= u64::MAX,
    ensures
        status_after(events).latest == requests_in(events),
        status_after(events).busy <==> exists|i: int| waits_since(events, i),
    decreases events.len(),
{
    if events.len() > 0 {
        let before = events.drop_last();
        let n = events.len() - 1;
        law_busy_until_the_latest_is_final(before);
        match events.last() {
            StatusEvent::Request => {
                assert(waits_since(events, n));
            },
            StatusEvent::Received { id, quality } => {
                let ends = quality == Quality::Final && id == requests_in(events);
                if status_after(before).busy && !ends {
                    let i = choose|i: int| waits_since(before, i);
                    assert forall|j: int| i < j < events.len() implies (#[trigger] events[j] matches
                        StatusEvent::Received { id, quality } && !(quality == Quality::Final && id
                        == requests_in(events))) by {
                        if j < n {
                            assert(before[j] == events[j]);
                        }
                    }
                    assert(before[i] == events[i]);
                    assert(waits_since(events, i));
                }
                if exists|i: int| waits_since(events, i) {
                    let i = choose|i: int| waits_since(events, i);
                    assert(events[n] is Received);
                    assert forall|j: int| i < j < before.len() implies (#[trigger] before[j] matches
                        StatusEvent::Received { id, quality } && !(quality == Quality::Final && id
                        == requests_in(before))) by {
                        assert(before[j] == events[j]);
                    }
                    assert(before[i] == events[i]);
                    assert(waits_since(before, i));
                    assert(!ends);
                }
            },
        }
    }
}

/// The frames of two requests have the same values exactly if the requests agree in
/// everything but the palette and who computes: camera, fractal, Julia constant,
/// iteration limit, and every way of rendering that can change a value.
pub proof fn law_frames_are_told_apart_by_what_changes_a_value(a: RenderRequest, b: RenderRequest)
    ensures
        key_of(a).same_frame(key_of(b)) <==> {
            &&& a.vp.same_view(b.vp)
            &&& a.fractal == b.fractal
            &&& a.julia_c@[0] == b.julia_c@[0]
            &&& a.julia_c@[1] == b.julia_c@[1]
            &&& a.max_iter == b.max_iter
            &&& a.use_mariani_silver == b.use_mariani_silver
            &&& a.use_perturbation == b.use_perturbation
            &&& a.use_series_approx == b.use_series_approx
            &&& a.use_neighbor_cap == b.use_neighbor_cap
            &&& a.use_multiref == b.use_multiref
        },
        key_of(a).vp == a.vp,
{
}

/// A frame may be moved to become another exactly if both requests have the same
/// fractal, Julia constant, iteration limit and reference setting, and neither uses a
/// way of rendering under which a pixel depends on the rest of the frame.
pub proof fn law_frames_are_moved_only_between_like_requests(a: RenderRequest, b: RenderRequest)
    ensures
        key_of(a).differs_by_camera_only(key_of(b)) <==> {
            &&& a.fractal == b.fractal
            &&& a.julia_c@[0] == b.julia_c@[0]
            &&& a.julia_c@[1] == b.julia_c@[1]
            &&& a.max_iter == b.max_iter
            &&& a.use_multiref == b.use_multiref
            &&& !(a.use_mariani_silver || a.use_perturbation || a.use_series_approx
                || a.use_neighbor_cap)
            &&& !(b.use_mariani_silver || b.use_perturbation || b.use_series_approx
                || b.use_neighbor_cap)
        },
{
}

/// A move is usable exactly if it goes along one axis, by at least one pixel and by
/// less than the frame measures along it.
pub proof fn law_usable_moves_go_along_one_axis(dx: i32, dy: i32, w: u32, h: u32)
    ensures
        is_usable_move(dx, dy, w, h) <==> {
            ||| dy == 0 && 0 < h && (0 < dx < w || 0 < -dx < w)
            ||| dx == 0 && 0 < w && (0 < dy < h || 0 < -dy < h)
        },
{
}

/// How a frame comes about. With no frame before, it is computed. A frame of the same
/// values is recoloured. One that may be moved, and whose camera has moved by a usable
/// number of whole pixels, is moved by it. Any other is computed; before it comes a
/// quick one of half the width and height, rounded down, wherever these are at least
/// one pixel.
pub proof fn law_plans_use_the_last_frame_where_they_can<
    F: Fn((Viewport, Viewport)) -> Option<(i32, i32)>,
>(last: Option<CacheKey>, req: RenderRequest, drift: F)
    ensures
        ({
            let plan = plan_for(last, req, drift);
            let moved = |prev: CacheKey, dx: i32, dy: i32|
                {
                    &&& prev.differs_by_camera_only(key_of(req))
                    &&& prev.vp.same_scale(req.vp)
                    &&& prev.vp.is_placed()
                    &&& req.vp.is_placed()
                    &&& value_of(drift, (prev.vp, req.vp)) == Some((dx, dy))
                    &&& is_usable_move(dx, dy, req.vp.width, req.vp.height)
                };
            &&& plan is Recolor <==> (last matches Some(prev) && prev.same_frame(key_of(req)))
            &&& forall|dx: i32, dy: i32| #[trigger]
                is_usable_move(dx, dy, req.vp.width, req.vp.height) ==> (plan == (
                FramePlan::Shift { dx, dy }) <==> (last matches Some(prev) && !prev.same_frame(
                    key_of(req),
                ) && moved(prev, dx, dy)))
            &&& plan matches FramePlan::Shift { dx, dy } ==> is_usable_move(
                dx,
                dy,
                req.vp.width,
                req.vp.height,
            )
            &&& plan matches FramePlan::Full { preview } ==> {
                &&& req.vp.width / 2 >= 1 && req.vp.height / 2 >= 1 ==> preview == Some(
                    Viewport {
                        center: req.vp.center,
                        zoom: req.vp.zoom,
                        width: req.vp.width / 2,
                        height: req.vp.height / 2,
                    },
                )
                &&& req.vp.width / 2 == 0 || req.vp.height / 2 == 0 ==> preview is None
            }
        }),
{
}

/// Which renderer a request gets. Perturbation comes before everything else, with a
/// series before several references before one; then subdivision, then capping. Of the
/// rest a quadratic map gets a renderer that computes blocks where these may be used:
/// in single precision below a zoom of one million, interleaved for the Mandelbrot set,
/// and else in double precision. Every other frame is computed pixel by pixel.
pub proof fn law_renderer_is_the_most_special_one(req: RenderRequest, zoom: u64, simd: bool)
    ensures
        ({
            let s = strategy_for(req, zoom, simd);
            let special = req.use_perturbation || req.use_mariani_silver || req.use_neighbor_cap;
            let single = double_lt_spec(zoom, 0x412e_8480_0000_0000);
            &&& s is PerturbationSeries <==> req.use_perturbation && req.use_series_approx
            &&& s is PerturbationMultiref <==> req.use_perturbation && !req.use_series_approx
                && req.use_multiref
            &&& s is Perturbation <==> req.use_perturbation && !req.use_series_approx
                && !req.use_multiref
            &&& s is MarianiSilver <==> !req.use_perturbation && req.use_mariani_silver
            &&& s is NeighborCapped <==> !req.use_perturbation && !req.use_mariani_silver
                && req.use_neighbor_cap
            &&& s is SimdSingleInterleaved <==> !special && simd && single && req.fractal
                == FractalType::Mandelbrot
            &&& s is SimdSingle <==> !special && simd && single && req.fractal == FractalType::Julia
            &&& s is SimdDouble <==> !special && simd && !single && (req.fractal
                == FractalType::Mandelbrot || req.fractal == FractalType::Julia)
        }),
{
}

/// What a device is asked to do: to share the frame where that is asked for, else to
/// follow pixels where that is asked for and the frame shows the Mandelbrot set, with
/// pairs of doubles above a zoom of one trillion, and else to compute every pixel.
pub proof fn law_device_follows_only_the_mandelbrot_set(req: RenderRequest)
    ensures
        ({
            let p = device_path_for(req);
            &&& p is Heterogeneous <==> req.use_heterogeneous
            &&& p is Plain <==> !req.use_heterogeneous && !(req.use_perturbation && req.fractal
                == FractalType::Mandelbrot)
            &&& p matches DevicePath::Perturbation { pairs } ==> (pairs <==> double_lt_spec(
                0x426d_1a94_a200_0000,
                req.vp.zoom,
            ))
        }),
{
}

/// Of the requests that wait, the one that was sent last is taken up, and the first
/// where none waits behind it.
pub proof fn law_last_of_the_waiting_requests_is_taken_up(first: Ticket, queued: Seq<Ticket>, t: Ticket)
    ensures
        latest_of(first, queued.push(t)) == t,
        latest_of(first, Seq::empty()) == first,
{
}

/// Which frames a plan leads to: the one that was asked for, as its Final frame, and
/// before it the quick one where the plan has one.
pub proof fn law_preview_comes_before_the_final_frame(vp: Viewport, small: Viewport, dx: i32, dy: i32)
    ensures
        passes_of(FramePlan::Full { preview: Some(small) }, vp) == seq![
            (small, Quality::Preview),
            (vp, Quality::Final),
        ],
        passes_of(FramePlan::Full { preview: None }, vp) == seq![(vp, Quality::Final)],
        passes_of(FramePlan::Recolor, vp) == seq![(vp, Quality::Final)],
        passes_of(FramePlan::Shift { dx, dy }, vp) == seq![(vp, Quality::Final)],
{
}

/// What the values of a frame are. A recoloured one has the values of the frame before.
/// In a moved one each pixel that was in view has the value that it had `dy` rows and
/// `dx` columns back, and any other what `sample` answers for it. One that is computed
/// has the values that `compute` answers for its camera.
pub proof fn law_frames_hold_old_moved_or_computed_values<
    F: Fn((usize, usize)) -> u32,
    C: Fn(Viewport) -> IterBuf,
>(s: Serving, buf: Seq<u32>, k: int, sample: F, compute: C, x: int, y: int, answer: IterBuf)
    requires
        0 <= k < passes_of(s.plan, s.ticket.req.vp).len(),
        0 <= x < s.ticket.req.vp.width,
        0 <= y < s.ticket.req.vp.height,
    ensures
        ({
            let vp = passes_of(s.plan, s.ticket.req.vp)[k].0;
            let all = s.frames(buf, sample, compute);
            let v = all[k].values;
            let w = vp.width as int;
            &&& all.len() == passes_of(s.plan, s.ticket.req.vp).len()
            &&& all[k].id == s.ticket.id
            &&& all[k].vp == vp
            &&& all[k].quality == passes_of(s.plan, s.ticket.req.vp)[k].1
            &&& s.plan is Recolor ==> v == buf
            &&& s.plan matches FramePlan::Shift { dx, dy } ==> {
                &&& v.len() == w * vp.height
                &&& 0 <= x - dx < w && 0 <= y - dy < vp.height ==> v[y * w + x] == buf[(y - dy) * w
                    + (x - dx)]
                &&& !(0 <= x - dx < w && 0 <= y - dy < vp.height) ==> v[y * w + x] == value_of(
                    sample,
                    (x as usize, y as usize),
                )
            }
            &&& s.plan is Full && renders(compute, vp) && call_ensures(compute, (vp,), answer)
                ==> v == answer@
        }),
{
    let w = s.ticket.req.vp.width as int;
    let h = s.ticket.req.vp.height as int;
    lemma_index_in_frame(w, h, x, y);
    lemma_index_to_pixel(w, x, y);
    assert(w * h >= 0) by (nonlinear_arith)
        requires
            w > 0,
            h > 0,
    ;
}

/// A request makes the status busy and gets the next number, and the first one again
/// once the numbers are used up. A frame ends the wait only if it is the Final frame of
/// the request that was sent last, and never begins one.
pub proof fn law_status_counts_requests_and_waits(s: RenderStatus, id: u64, quality: Quality)
    ensures
        s.after_request().busy,
        s.latest < u64::MAX ==> s.after_request().latest == s.latest + 1,
        s.latest == u64::MAX ==> s.after_request().latest == 0,
        s.after_frame(id, quality).latest == s.latest,
        quality == Quality::Final && id == s.latest ==> !s.after_frame(id, quality).busy,
        quality == Quality::Preview || id != s.latest ==> s.after_frame(id, quality).busy == s.busy,
        !RenderStatus::idle().busy,
        RenderStatus::idle().latest == 0,
{
}

} // verus!
