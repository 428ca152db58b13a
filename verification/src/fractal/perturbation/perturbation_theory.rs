//! Rendering the Mandelbrot set at deep zoom: one reference orbit, or a few, are
//! computed precisely, and every pixel is followed as an offset from one of them.
//!
//! `O` is a reference orbit with what belongs to it. A reference point is the
//! centre of the view or, where that orbit is no help, a pixel.

use crate::float_bits::{double_lt, double_lt_spec, single_is_nan, single_is_nan_spec, SINGLE_NAN};
use crate::fractal::fractal::{has_frame, render, IterBuf};
use crate::fractal::fractal_type::FractalType;
use crate::func::{evaluate, evaluate_for, is_function, is_function_of, par_map, value_for, value_of};
use crate::grid::{at, in_frame, is_picture, join_rows, lemma_index_in_frame, lemma_index_to_pixel, lemma_same_frame, sampled};
use crate::gui::viewport::Viewport;
use vstd::prelude::*;

verus! {

/// The zoom, as the pattern of a double, above which the reference orbit is
/// computed with pairs of doubles: one trillion.
pub const F128_ZOOM_THRESHOLD: u64 = 0x426d_1a94_a200_0000;

/// How many reference orbits a frame may have.
pub const MAX_REFS: usize = 8;

/// Whether the reference orbit is computed with pairs of doubles.
pub open spec fn needs_pairs(zoom: u64) -> bool {
    double_lt_spec(F128_ZOOM_THRESHOLD, zoom)
}

/// The reference point is the centre of the view, or the given pixel.
pub type Reference = Option<(usize, usize)>;

/// What `make_orbit` answers for a reference point at this zoom.
pub open spec fn orbit_at<O, M: Fn((Reference, bool)) -> O>(make_orbit: M, at: Reference, zoom: u64) -> O {
    value_of(make_orbit, (at, needs_pairs(zoom)))
}

/// What `follow` answers for the pixel `(x, y)` against the orbit `o`.
pub open spec fn followed_at<O, R, P: Fn(&O, (usize, usize)) -> R>(follow: P, o: O, x: int, y: int) -> R {
    value_for(follow, o, (x as usize, y as usize))
}

/// A pixel that following gives no value is computed by itself.
pub open spec fn or_exact<F: Fn((usize, usize)) -> u32>(v: Option<u32>, exact: F, x: int, y: int) -> u32 {
    match v {
        Some(v) => v,
        None => sampled(exact, x, y),
    }
}

fn followed_row<O, F: Fn((usize, usize)) -> u32, P: Fn(&O, (usize, usize)) -> Option<u32>>(
    w: usize,
    y: usize,
    orbit: &O,
    exact: &F,
    follow: &P,
) -> (row: Vec<u32>)
    requires
        is_function(*exact),
        is_function_of(*follow),
    ensures
        row@.len() == w,
        forall|x: int|
            0 <= x < w ==> #[trigger] row@[x] == or_exact(
                followed_at(*follow, *orbit, x, y as int),
                *exact,
                x,
                y as int,
            ),
{
    let mut row: Vec<u32> = Vec::new();
    let mut x: usize = 0;
    while x < w
        invariant
            is_function(*exact),
            is_function_of(*follow),
            x <= w,
            row@.len() == x,
            forall|k: int|
                0 <= k < x ==> #[trigger] row@[k] == or_exact(
                    followed_at(*follow, *orbit, k, y as int),
                    *exact,
                    k,
                    y as int,
                ),
        decreases w - x,
    {
        match evaluate_for(follow, orbit, (x, y)) {
            Some(v) => {
                row.push(v);
            },
            None => {
                row.push(evaluate(exact, (x, y)));
            },
        }
        x = x + 1;
    }
    row
}

/// The frame shows every pixel as it is followed, or by itself.
pub open spec fn is_followed_picture<
    O,
    F: Fn((usize, usize)) -> u32,
    P: Fn(&O, (usize, usize)) -> Option<u32>,
>(buf: Seq<u32>, w: int, h: int, orbit: O, exact: F, follow: P) -> bool {
    &&& buf.len() == w * h
    &&& forall|x: int, y: int|
        in_frame(w, h, x, y) ==> #[trigger] at(buf, w, x, y) == or_exact(
            followed_at(follow, orbit, x, y),
            exact,
            x,
            y,
        )
}

fn render_followed<
    O: Sync,
    F: Fn((usize, usize)) -> u32 + Sync,
    P: Fn(&O, (usize, usize)) -> Option<u32> + Sync,
>(vp: &Viewport, orbit: &O, exact: &F, follow: &P) -> (buf: IterBuf)
    requires
        has_frame(*vp),
        is_function(*exact),
        is_function_of(*follow),
    ensures
        is_followed_picture(
            buf@,
            vp.width as int,
            vp.height as int,
            *orbit,
            *exact,
            *follow,
        ),
{
    let w: usize = vp.width as usize;
    let h: usize = vp.height as usize;
    let row = |y: usize| -> (r: Vec<u32>)
        ensures
            r@.len() == w,
            forall|x: int|
                0 <= x < w ==> #[trigger] r@[x] == or_exact(
                    followed_at(*follow, *orbit, x, y as int),
                    *exact,
                    x,
                    y as int,
                ),
        { followed_row(w, y, orbit, exact, follow) };
    let rows = par_map(h, &row);
    proof {
        assert forall|y: int| 0 <= y < h implies (#[trigger] rows@[y])@.len() == w && (forall|x: int|
            0 <= x < w ==> #[trigger] rows@[y]@[x] == or_exact(
                followed_at(*follow, *orbit, x, y),
                *exact,
                x,
                y,
            )) by {
            assert(call_ensures(row, (y as usize,), rows@[y]));
        }
    }
    join_rows(&rows, w)
}

/// Renders the Mandelbrot set against one reference orbit at the centre of the
/// view; a pixel that following gives no value is computed by itself. The other
/// fractals have no such kernel: every pixel is computed by itself.
pub fn render_perturbation<
    O: Sync,
    F: Fn((usize, usize)) -> u32 + Sync,
    M: Fn((Reference, bool)) -> O,
    P: Fn(&O, (usize, usize)) -> Option<u32> + Sync,
>(vp: &Viewport, fractal: FractalType, exact: &F, make_orbit: &M, follow: &P) -> (buf: IterBuf)
    requires
        has_frame(*vp),
        is_function(*exact),
        is_function(*make_orbit),
        is_function_of(*follow),
    ensures
        fractal != FractalType::Mandelbrot ==> is_picture(
            buf@,
            vp.width as int,
            vp.height as int,
            *exact,
        ),
        fractal == FractalType::Mandelbrot ==> is_followed_picture(
            buf@,
            vp.width as int,
            vp.height as int,
            orbit_at(*make_orbit, None, vp.zoom),
            *exact,
            *follow,
        ),
{
    if fractal != FractalType::Mandelbrot {
        return render(vp, exact);
    }
    let pairs: bool = double_lt(F128_ZOOM_THRESHOLD, vp.zoom);
    let orbit: O = evaluate(make_orbit, (None, pairs));
    render_followed(vp, &orbit, exact, follow)
}

/// As [`render_perturbation`], with a power series fitted to the orbit: `fit`
/// answers the series, and `follow` starts where the series leads.
pub fn render_perturbation_sa<
    O: Sync,
    T: Sync,
    F: Fn((usize, usize)) -> u32 + Sync,
    M: Fn((Reference, bool)) -> O,
    L: Fn(&O, ()) -> T,
    P: Fn(&(O, T), (usize, usize)) -> Option<u32> + Sync,
>(
    vp: &Viewport,
    fractal: FractalType,
    exact: &F,
    make_orbit: &M,
    fit: &L,
    follow: &P,
) -> (buf: IterBuf)
    requires
        has_frame(*vp),
        is_function(*exact),
        is_function(*make_orbit),
        is_function_of(*fit),
        is_function_of(*follow),
    ensures
        fractal != FractalType::Mandelbrot ==> is_picture(
            buf@,
            vp.width as int,
            vp.height as int,
            *exact,
        ),
        fractal == FractalType::Mandelbrot ==> ({
            let orbit = orbit_at(*make_orbit, None, vp.zoom);
            is_followed_picture(
                buf@,
                vp.width as int,
                vp.height as int,
                (orbit, value_for(*fit, orbit, ())),
                *exact,
                *follow,
            )
        }),
{
    if fractal != FractalType::Mandelbrot {
        return render(vp, exact);
    }
    let pairs: bool = double_lt(F128_ZOOM_THRESHOLD, vp.zoom);
    let orbit: O = evaluate(make_orbit, (None, pairs));
    let series: T = evaluate_for(fit, &orbit, ());
    let both: (O, T) = (orbit, series);
    render_followed(vp, &both, exact, follow)
}

fn rebased_row<O, P: Fn(&O, (usize, usize)) -> u32>(w: usize, y: usize, orbit: &O, follow: &P) -> (row:
    Vec<u32>)
    requires
        is_function_of(*follow),
    ensures
        row@.len() == w,
        forall|x: int|
            0 <= x < w ==> #[trigger] row@[x] == followed_at(*follow, *orbit, x, y as int),
{
    let mut row: Vec<u32> = Vec::new();
    let mut x: usize = 0;
    while x < w
        invariant
            is_function_of(*follow),
            x <= w,
            row@.len() == x,
            forall|k: int|
                0 <= k < x ==> #[trigger] row@[k] == followed_at(*follow, *orbit, k, y as int),
        decreases w - x,
    {
        row.push(evaluate_for(follow, orbit, (x, y)));
        x = x + 1;
    }
    row
}

/// Renders the Mandelbrot set against one reference orbit at the centre of the
/// view, with a kernel that gives every pixel a value. The other fractals have no
/// such kernel: every pixel is computed by itself.
pub fn render_perturbation_rebase<
    O: Sync,
    F: Fn((usize, usize)) -> u32 + Sync,
    M: Fn((Reference, bool)) -> O,
    P: Fn(&O, (usize, usize)) -> u32 + Sync,
>(vp: &Viewport, fractal: FractalType, exact: &F, make_orbit: &M, follow: &P) -> (buf: IterBuf)
    requires
        has_frame(*vp),
        is_function(*exact),
        is_function(*make_orbit),
        is_function_of(*follow),
    ensures
        fractal != FractalType::Mandelbrot ==> is_picture(
            buf@,
            vp.width as int,
            vp.height as int,
            *exact,
        ),
        buf@.len() == vp.width * vp.height,
        fractal == FractalType::Mandelbrot ==> forall|x: int, y: int|
            in_frame(vp.width as int, vp.height as int, x, y) ==> #[trigger] at(
                buf@,
                vp.width as int,
                x,
                y,
            ) == followed_at(*follow, orbit_at(*make_orbit, None, vp.zoom), x, y),
{
    if fractal != FractalType::Mandelbrot {
        return render(vp, exact);
    }
    let w: usize = vp.width as usize;
    let h: usize = vp.height as usize;
    let pairs: bool = double_lt(F128_ZOOM_THRESHOLD, vp.zoom);
    let made: O = evaluate(make_orbit, (None, pairs));
    let orbit: &O = &made;
    let row = |y: usize| -> (r: Vec<u32>)
        ensures
            r@.len() == w,
            forall|x: int|
                0 <= x < w ==> #[trigger] r@[x] == followed_at(*follow, *orbit, x, y as int),
        { rebased_row(w, y, orbit, follow) };
    let rows = par_map(h, &row);
    proof {
        assert forall|y: int| 0 <= y < h implies (#[trigger] rows@[y])@.len() == w && (forall|x: int|
            0 <= x < w ==> #[trigger] rows@[y]@[x] == followed_at(*follow, *orbit, x, y)) by {
            assert(call_ensures(row, (y as usize,), rows@[y]));
        }
    }
    join_rows(&rows, w)
}

/// The frame after following every pixel against the orbit `o`; a pixel that
/// gets no value is missing.
pub open spec fn first_pass<O, P: Fn(&O, (usize, usize)) -> Option<u32>>(
    w: int,
    h: int,
    o: O,
    follow: P,
) -> Seq<u32> {
    Seq::new(
        (w * h) as nat,
        |i: int|
            match followed_at(follow, o, i % w, i / w) {
                Some(v) => v,
                None => SINGLE_NAN,
            },
    )
}

/// The frame after following the missing pixels against the orbit `o`; a pixel
/// that gets no value stays missing.
pub open spec fn retried<O, P: Fn(&O, (usize, usize)) -> Option<u32>>(
    buf: Seq<u32>,
    w: int,
    o: O,
    follow: P,
) -> Seq<u32> {
    Seq::new(
        buf.len(),
        |i: int|
            if single_is_nan_spec(buf[i]) {
                match followed_at(follow, o, i % w, i / w) {
                    Some(v) => v,
                    None => buf[i],
                }
            } else {
                buf[i]
            },
    )
}

/// The frame after computing the missing pixels by themselves.
pub open spec fn resolved<F: Fn((usize, usize)) -> u32>(buf: Seq<u32>, w: int, exact: F) -> Seq<u32> {
    Seq::new(
        buf.len(),
        |i: int|
            if single_is_nan_spec(buf[i]) {
                sampled(exact, i % w, i / w)
            } else {
                buf[i]
            },
    )
}

/// The index of the first missing pixel, row by row, from index `from` on; the
/// length of the frame if there is none.
pub open spec fn first_missing(buf: Seq<u32>, from: int) -> int
    decreases buf.len() - from,
{
    if from >= buf.len() {
        buf.len() as int
    } else if single_is_nan_spec(buf[from]) {
        from
    } else {
        first_missing(buf, from + 1)
    }
}

/// The frame after as many rounds as are needed and allowed: each round takes the
/// first missing pixel as a new reference point and retries the missing pixels.
pub open spec fn after_rounds<
    O,
    M: Fn((Reference, bool)) -> O,
    P: Fn(&O, (usize, usize)) -> Option<u32>,
>(buf: Seq<u32>, w: int, used: int, zoom: u64, make_orbit: M, follow: P) -> Seq<u32>
    decreases MAX_REFS - used,
{
    let i = first_missing(buf, 0);
    if i >= buf.len() || used >= MAX_REFS {
        buf
    } else {
        let o = orbit_at(make_orbit, Some(((i % w) as usize, (i / w) as usize)), zoom);
        after_rounds(retried(buf, w, o, follow), w, used + 1, zoom, make_orbit, follow)
    }
}

/// The frame that several reference orbits render.
pub open spec fn multiref_picture<
    O,
    F: Fn((usize, usize)) -> u32,
    M: Fn((Reference, bool)) -> O,
    P: Fn(&O, (usize, usize)) -> Option<u32>,
>(w: int, h: int, zoom: u64, exact: F, make_orbit: M, follow: P) -> Seq<u32> {
    let start = first_pass(w, h, orbit_at(make_orbit, None, zoom), follow);
    resolved(after_rounds(start, w, 1, zoom, make_orbit, follow), w, exact)
}

/// The index of the first missing pixel, if there is one.
fn find_missing(buf: &Vec<u32>) -> (r: Option<usize>)
    ensures
        match r {
            Some(i) => i < buf@.len() && i == first_missing(buf@, 0),
            None => first_missing(buf@, 0) == buf@.len(),
        },
{
    let mut i: usize = 0;
    while i < buf.len()
        invariant
            i <= buf@.len(),
            first_missing(buf@, 0) == first_missing(buf@, i as int),
        decreases buf@.len() - i,
    {
        if single_is_nan(buf[i]) {
            return Some(i);
        }
        i = i + 1;
    }
    None
}

/// What a pixel of value `v` shows after it is followed against the orbit `o`.
pub open spec fn retried_value<O, P: Fn(&O, (usize, usize)) -> Option<u32>>(
    v: u32,
    o: O,
    follow: P,
    x: int,
    y: int,
) -> u32 {
    if single_is_nan_spec(v) {
        match followed_at(follow, o, x, y) {
            Some(n) => n,
            None => v,
        }
    } else {
        v
    }
}

fn retried_row<O, P: Fn(&O, (usize, usize)) -> Option<u32>>(
    buf: &Vec<u32>,
    w: usize,
    h: usize,
    y: usize,
    orbit: &O,
    follow: &P,
) -> (row: Vec<u32>)
    requires
        is_function_of(*follow),
        buf@.len() == w * h <= usize::MAX,
        y < h,
    ensures
        row@.len() == w,
        forall|x: int|
            0 <= x < w ==> #[trigger] row@[x] == retried_value(
                at(buf@, w as int, x, y as int),
                *orbit,
                *follow,
                x,
                y as int,
            ),
{
    let mut row: Vec<u32> = Vec::new();
    let mut x: usize = 0;
    while x < w
        invariant
            is_function_of(*follow),
            buf@.len() == w * h <= usize::MAX,
            y < h,
            x <= w,
            row@.len() == x,
            forall|k: int|
                0 <= k < x ==> #[trigger] row@[k] == retried_value(
                    at(buf@, w as int, k, y as int),
                    *orbit,
                    *follow,
                    k,
                    y as int,
                ),
        decreases w - x,
    {
        proof {
            lemma_index_in_frame(w as int, h as int, x as int, y as int);
        }
        let v: u32 = buf[y * w + x];
        if single_is_nan(v) {
            match evaluate_for(follow, orbit, (x, y)) {
                Some(n) => {
                    row.push(n);
                },
                None => {
                    row.push(v);
                },
            }
        } else {
            row.push(v);
        }
        x = x + 1;
    }
    row
}

/// Follows the missing pixels against the orbit, with the rows spread over the
/// thread pool.
fn retry<O: Sync, P: Fn(&O, (usize, usize)) -> Option<u32> + Sync>(
    frame: &Vec<u32>,
    w: usize,
    h: usize,
    orbit: &O,
    follow: &P,
) -> (out: Vec<u32>)
    requires
        0 < w,
        is_function_of(*follow),
        frame@.len() == w * h <= usize::MAX,
    ensures
        out@ == retried(frame@, w as int, *orbit, *follow),
{
    let row = |y: usize| -> (r: Vec<u32>)
        requires
            y < h,
        ensures
            r@.len() == w,
            forall|x: int|
                0 <= x < w ==> #[trigger] r@[x] == retried_value(
                    at(frame@, w as int, x, y as int),
                    *orbit,
                    *follow,
                    x,
                    y as int,
                ),
        { retried_row(frame, w, h, y, orbit, follow) };
    let rows = par_map(h, &row);
    proof {
        assert forall|y: int| 0 <= y < h implies (#[trigger] rows@[y])@.len() == w && (forall|x: int|
            0 <= x < w ==> #[trigger] rows@[y]@[x] == retried_value(
                at(frame@, w as int, x, y),
                *orbit,
                *follow,
                x,
                y,
            )) by {
            assert(call_ensures(row, (y as usize,), rows@[y]));
        }
    }
    let out = join_rows(&rows, w);
    proof {
        let want = retried(frame@, w as int, *orbit, *follow);
        assert forall|x: int, y: int| in_frame(w as int, h as int, x, y) implies #[trigger] at(
            out@,
            w as int,
            x,
            y,
        ) == at(want, w as int, x, y) by {
            lemma_index_in_frame(w as int, h as int, x, y);
            lemma_index_to_pixel(w as int, x, y);
        }
        lemma_same_frame(out@, want, w as int, h as int);
    }
    out
}

fn resolved_row<F: Fn((usize, usize)) -> u32>(
    buf: &Vec<u32>,
    w: usize,
    h: usize,
    y: usize,
    exact: &F,
) -> (row: Vec<u32>)
    requires
        is_function(*exact),
        buf@.len() == w * h <= usize::MAX,
        y < h,
    ensures
        row@.len() == w,
        forall|x: int|
            0 <= x < w ==> #[trigger] row@[x] == at(
                resolved(buf@, w as int, *exact),
                w as int,
                x,
                y as int,
            ),
{
    let mut row: Vec<u32> = Vec::new();
    let mut x: usize = 0;
    while x < w
        invariant
            is_function(*exact),
            buf@.len() == w * h <= usize::MAX,
            y < h,
            x <= w,
            row@.len() == x,
            forall|k: int|
                0 <= k < x ==> #[trigger] row@[k] == at(
                    resolved(buf@, w as int, *exact),
                    w as int,
                    k,
                    y as int,
                ),
        decreases w - x,
    {
        proof {
            lemma_index_in_frame(w as int, h as int, x as int, y as int);
            lemma_index_to_pixel(w as int, x as int, y as int);
        }
        let v: u32 = buf[y * w + x];
        if single_is_nan(v) {
            row.push(evaluate(exact, (x, y)));
        } else {
            row.push(v);
        }
        x = x + 1;
    }
    row
}

/// Computes the missing pixels by themselves, with the rows spread over the
/// thread pool.
fn resolve<F: Fn((usize, usize)) -> u32 + Sync>(
    frame: &Vec<u32>,
    w: usize,
    h: usize,
    exact: &F,
) -> (out: Vec<u32>)
    requires
        0 < w,
        is_function(*exact),
        frame@.len() == w * h <= usize::MAX,
    ensures
        out@ == resolved(frame@, w as int, *exact),
{
    let row = |y: usize| -> (r: Vec<u32>)
        requires
            y < h,
        ensures
            r@.len() == w,
            forall|x: int|
                0 <= x < w ==> #[trigger] r@[x] == at(
                    resolved(frame@, w as int, *exact),
                    w as int,
                    x,
                    y as int,
                ),
        { resolved_row(frame, w, h, y, exact) };
    let rows = par_map(h, &row);
    proof {
        assert forall|y: int| 0 <= y < h implies (#[trigger] rows@[y])@.len() == w && (forall|x: int|
            0 <= x < w ==> #[trigger] rows@[y]@[x] == at(
                resolved(frame@, w as int, *exact),
                w as int,
                x,
                y,
            )) by {
            assert(call_ensures(row, (y as usize,), rows@[y]));
        }
    }
    let out = join_rows(&rows, w);
    proof {
        lemma_same_frame(out@, resolved(frame@, w as int, *exact), w as int, h as int);
    }
    out
}

/// The reference orbits of a frame so far, each with its reference point.
pub struct RefOrbitSet<O> {
    pub refs: Vec<O>,
    pub centers: Vec<Reference>,
}

impl<O> RefOrbitSet<O> {
    /// Every orbit is the one of its reference point at this zoom.
    pub open spec fn inv<M: Fn((Reference, bool)) -> O>(self, make_orbit: M, zoom: u64) -> bool {
        &&& self.refs@.len() == self.centers@.len()
        &&& forall|k: int|
            0 <= k < self.refs@.len() ==> #[trigger] self.refs@[k] == orbit_at(
                make_orbit,
                self.centers@[k],
                zoom,
            )
    }

    /// A set without orbits.
    pub fn new() -> (r: RefOrbitSet<O>)
        ensures
            r.refs@.len() == 0,
            r.centers@.len() == 0,
    {
        RefOrbitSet { refs: Vec::new(), centers: Vec::new() }
    }

    /// Computes the orbit of one more reference point.
    pub fn add_reference<M: Fn((Reference, bool)) -> O>(
        &mut self,
        center: Reference,
        zoom: u64,
        make_orbit: &M,
    )
        requires
            old(self).inv(*make_orbit, zoom),
            is_function(*make_orbit),
        ensures
            final(self).inv(*make_orbit, zoom),
            final(self).refs@ == old(self).refs@.push(orbit_at(*make_orbit, center, zoom)),
            final(self).centers@ == old(self).centers@.push(center),
    {
        let pairs: bool = double_lt(F128_ZOOM_THRESHOLD, zoom);
        self.refs.push(evaluate(make_orbit, (center, pairs)));
        self.centers.push(center);
    }
}

/// Renders the Mandelbrot set against several reference orbits: the first one at
/// the centre of the view, each further one at the first pixel that still has no
/// value, up to [`MAX_REFS`] in all. The pixels that no orbit gives a value are
/// computed by themselves. The other fractals have no such kernel: every pixel
/// is computed by itself.
pub fn render_perturbation_multiref<
    O: Sync,
    F: Fn((usize, usize)) -> u32 + Sync,
    M: Fn((Reference, bool)) -> O,
    P: Fn(&O, (usize, usize)) -> Option<u32> + Sync,
>(vp: &Viewport, fractal: FractalType, exact: &F, make_orbit: &M, follow: &P) -> (buf: IterBuf)
    requires
        has_frame(*vp),
        is_function(*exact),
        is_function(*make_orbit),
        is_function_of(*follow),
    ensures
        fractal != FractalType::Mandelbrot ==> is_picture(
            buf@,
            vp.width as int,
            vp.height as int,
            *exact,
        ),
        fractal == FractalType::Mandelbrot ==> buf@ == multiref_picture(
            vp.width as int,
            vp.height as int,
            vp.zoom,
            *exact,
            *make_orbit,
            *follow,
        ),
{
    if fractal != FractalType::Mandelbrot {
        return render(vp, exact);
    }
    let w: usize = vp.width as usize;
    let h: usize = vp.height as usize;
    let ghost wi = w as int;
    let ghost hi = h as int;
    let mut set: RefOrbitSet<O> = RefOrbitSet::new();
    set.add_reference(None, vp.zoom, make_orbit);
    let blank: Vec<u32> = vec![SINGLE_NAN; w * h];
    let mut buf: Vec<u32> = retry(&blank, w, h, &set.refs[0], follow);
    let ghost start = first_pass(wi, hi, orbit_at(*make_orbit, None, vp.zoom), *follow);
    assert(buf@ =~= start);
    loop
        invariant_except_break
            after_rounds(start, wi, 1, vp.zoom, *make_orbit, *follow) == after_rounds(
                buf@,
                wi,
                set.refs@.len() as int,
                vp.zoom,
                *make_orbit,
                *follow,
            ),
        invariant
            0 < w,
            wi == w,
            w * h <= usize::MAX,
            set.inv(*make_orbit, vp.zoom),
            is_function(*exact),
            is_function(*make_orbit),
            is_function_of(*follow),
            buf@.len() == w * h,
            1 <= set.refs@.len() <= MAX_REFS,
        ensures
            buf@ == after_rounds(start, wi, 1, vp.zoom, *make_orbit, *follow),
        decreases MAX_REFS - set.refs@.len(),
    {
        match find_missing(&buf) {
            None => {
                break ;
            },
            Some(i) => {
                let used: usize = set.refs.len();
                if used >= MAX_REFS {
                    break ;
                }
                set.add_reference(Some((i % w, i / w)), vp.zoom, make_orbit);
                buf = retry(&buf, w, h, &set.refs[used], follow);
            },
        }
    }
    resolve(&buf, w, h, exact)
}

/// Perturbation is exact wherever it gives a value.
pub open spec fn follow_is_exact<
    O,
    F: Fn((usize, usize)) -> u32,
    P: Fn(&O, (usize, usize)) -> Option<u32>,
>(o: O, exact: F, follow: P) -> bool {
    forall|x: int, y: int|
        (#[trigger] followed_at(follow, o, x, y)) is Some ==> followed_at(follow, o, x, y) == Some(
            sampled(exact, x, y),
        )
}

/// Every pixel is exact or missing.
pub open spec fn exact_or_missing<F: Fn((usize, usize)) -> u32>(buf: Seq<u32>, w: int, exact: F) -> bool {
    forall|i: int|
        0 <= i < buf.len() ==> #[trigger] buf[i] == sampled(exact, i % w, i / w)
            || single_is_nan_spec(buf[i])
}

proof fn lemma_rounds_exact<
    O,
    F: Fn((usize, usize)) -> u32,
    M: Fn((Reference, bool)) -> O,
    P: Fn(&O, (usize, usize)) -> Option<u32>,
>(buf: Seq<u32>, w: int, used: int, zoom: u64, exact: F, make_orbit: M, follow: P)
    requires
        exact_or_missing(buf, w, exact),
        forall|at: Reference| follow_is_exact(
            #[trigger] orbit_at(make_orbit, at, zoom),
            exact,
            follow,
        ),
    ensures
        after_rounds(buf, w, used, zoom, make_orbit, follow).len() == buf.len(),
        exact_or_missing(after_rounds(buf, w, used, zoom, make_orbit, follow), w, exact),
    decreases MAX_REFS - used,
{
    let i = first_missing(buf, 0);
    if i < buf.len() && used < MAX_REFS {
        let r: Reference = Some(((i % w) as usize, (i / w) as usize));
        let o = orbit_at(make_orbit, r, zoom);
        assert(follow_is_exact(o, exact, follow));
        let next = retried(buf, w, o, follow);
        assert forall|k: int| 0 <= k < next.len() implies #[trigger] next[k] == sampled(
            exact,
            k % w,
            k / w,
        ) || single_is_nan_spec(next[k]) by {
            assert(buf[k] == sampled(exact, k % w, k / w) || single_is_nan_spec(buf[k]));
            assert(followed_at(follow, o, k % w, k / w) is Some ==> followed_at(
                follow,
                o,
                k % w,
                k / w,
            ) == Some(sampled(exact, k % w, k / w)));
        }
        lemma_rounds_exact(next, w, used + 1, zoom, exact, make_orbit, follow);
    }
}

/// Several reference orbits render the picture: where every orbit that gives a
/// pixel a value gives it its own, the frame is the one that computing every
/// pixel by itself renders, however many orbits were needed.
pub proof fn law_multiref_renders_the_picture<
    O,
    F: Fn((usize, usize)) -> u32,
    M: Fn((Reference, bool)) -> O,
    P: Fn(&O, (usize, usize)) -> Option<u32>,
>(w: int, h: int, zoom: u64, exact: F, make_orbit: M, follow: P)
    requires
        0 < w,
        0 <= h,
        forall|at: Reference| follow_is_exact(
            #[trigger] orbit_at(make_orbit, at, zoom),
            exact,
            follow,
        ),
    ensures
        is_picture(multiref_picture(w, h, zoom, exact, make_orbit, follow), w, h, exact),
{
    assert(w * h >= 0) by (nonlinear_arith)
        requires
            w > 0,
            h >= 0,
    ;
    let o = orbit_at(make_orbit, None, zoom);
    assert(follow_is_exact(o, exact, follow));
    let start = first_pass(w, h, o, follow);
    assert forall|i: int| 0 <= i < start.len() implies #[trigger] start[i] == sampled(
        exact,
        i % w,
        i / w,
    ) || single_is_nan_spec(start[i]) by {
        assert(followed_at(follow, o, i % w, i / w) is Some ==> followed_at(
            follow,
            o,
            i % w,
            i / w,
        ) == Some(sampled(exact, i % w, i / w)));
    }
    lemma_rounds_exact(start, w, 1, zoom, exact, make_orbit, follow);
    let tried = after_rounds(start, w, 1, zoom, make_orbit, follow);
    let out = multiref_picture(w, h, zoom, exact, make_orbit, follow);
    assert forall|x: int, y: int| in_frame(w, h, x, y) implies #[trigger] at(out, w, x, y)
        == sampled(exact, x, y) by {
        lemma_index_in_frame(w, h, x, y);
        lemma_index_to_pixel(w, x, y);
        let i = y * w + x;
        assert(tried[i] == sampled(exact, i % w, i / w) || single_is_nan_spec(tried[i]));
    }
}

/// The reference orbit is computed with pairs of doubles at zooms above one trillion,
/// and at no others.
pub proof fn law_pairs_are_used_above_a_trillion<O, M: Fn((Reference, bool)) -> O>(
    make_orbit: M,
    at: Reference,
    zoom: u64,
)
    ensures
        double_lt_spec(0x426d_1a94_a200_0000, zoom) ==> orbit_at(make_orbit, at, zoom) == value_of(
            make_orbit,
            (at, true),
        ),
        !double_lt_spec(0x426d_1a94_a200_0000, zoom) ==> orbit_at(make_orbit, at, zoom)
            == value_of(make_orbit, (at, false)),
{
}

/// A pixel of a frame that is followed against one orbit shows the value that
/// following gives it, and only where there is none what `exact` answers.
pub proof fn law_followed_pixel_shows_what_following_gives<
    O,
    F: Fn((usize, usize)) -> u32,
    P: Fn(&O, (usize, usize)) -> Option<u32>,
>(buf: Seq<u32>, w: int, h: int, orbit: O, exact: F, follow: P, x: int, y: int)
    requires
        is_followed_picture(buf, w, h, orbit, exact, follow),
        0 <= x < w,
        0 <= y < h,
    ensures
        buf.len() == w * h,
        match value_for(follow, orbit, (x as usize, y as usize)) {
            Some(v) => buf[y * w + x] == v,
            None => buf[y * w + x] == value_of(exact, (x as usize, y as usize)),
        },
{
    assert(at(buf, w, x, y) == or_exact(followed_at(follow, orbit, x, y), exact, x, y));
}

/// The frames of rendering with several references: `bufs[0]` holds what following
/// gives each pixel against the orbit at the centre, and a missing value where it gives
/// none. As long as a pixel is missing and fewer than eight references are in use, the
/// next frame comes from the first missing pixel `gaps[k]` of the one before, as a new
/// reference: each missing pixel takes the value that following gives it against this
/// one, if any, and the others stay.
pub open spec fn are_rounds<
    O,
    M: Fn((Reference, bool)) -> O,
    P: Fn(&O, (usize, usize)) -> Option<u32>,
>(
    bufs: Seq<Seq<u32>>,
    gaps: Seq<int>,
    w: int,
    h: int,
    zoom: u64,
    make_orbit: M,
    follow: P,
) -> bool {
    &&& bufs.len() == gaps.len() + 1
    &&& bufs.len() <= 8
    &&& bufs[0].len() == w * h
    &&& forall|i: int|
        0 <= i < w * h ==> #[trigger] bufs[0][i] == (match value_for(
            follow,
            orbit_at(make_orbit, None, zoom),
            ((i % w) as usize, (i / w) as usize),
        ) {
            Some(v) => v,
            None => SINGLE_NAN,
        })
    &&& forall|k: int| 0 <= k < gaps.len() ==> is_round(bufs, #[trigger] gaps[k], k, w, zoom, make_orbit, follow)
    &&& bufs.len() == 8 || forall|i: int|
        0 <= i < bufs.last().len() ==> !single_is_nan_spec(#[trigger] bufs.last()[i])
}

/// The frame `bufs[k + 1]` comes from `bufs[k]` by following its missing pixels
/// against the orbit at `gap`, the first of them.
pub open spec fn is_round<
    O,
    M: Fn((Reference, bool)) -> O,
    P: Fn(&O, (usize, usize)) -> Option<u32>,
>(
    bufs: Seq<Seq<u32>>,
    gap: int,
    k: int,
    w: int,
    zoom: u64,
    make_orbit: M,
    follow: P,
) -> bool {
    let before = bufs[k];
    let after = bufs[k + 1];
    let o = orbit_at(make_orbit, Some(((gap % w) as usize, (gap / w) as usize)), zoom);
    &&& 0 <= gap < before.len()
    &&& single_is_nan_spec(before[gap])
    &&& forall|i: int| 0 <= i < gap ==> !single_is_nan_spec(#[trigger] before[i])
    &&& after.len() == before.len()
    &&& forall|i: int|
        0 <= i < before.len() ==> #[trigger] after[i] == (if !single_is_nan_spec(before[i]) {
            before[i]
        } else {
            match value_for(follow, o, ((i % w) as usize, (i / w) as usize)) {
                Some(v) => v,
                None => before[i],
            }
        })
}

proof fn lemma_first_missing(buf: Seq<u32>, from: int, gap: int)
    requires
        0 <= from <= gap <= buf.len(),
        gap < buf.len() ==> single_is_nan_spec(buf[gap]),
        forall|i: int| from <= i < gap ==> !single_is_nan_spec(#[trigger] buf[i]),
    ensures
        first_missing(buf, from) == gap,
    decreases gap - from,
{
    if from < gap {
        assert(!single_is_nan_spec(buf[from]));
        lemma_first_missing(buf, from + 1, gap);
    }
}

proof fn lemma_rounds_lead_to<
    O,
    M: Fn((Reference, bool)) -> O,
    P: Fn(&O, (usize, usize)) -> Option<u32>,
>(
    bufs: Seq<Seq<u32>>,
    gaps: Seq<int>,
    k: int,
    w: int,
    h: int,
    zoom: u64,
    make_orbit: M,
    follow: P,
)
    requires
        are_rounds(bufs, gaps, w, h, zoom, make_orbit, follow),
        0 <= k <= gaps.len(),
    ensures
        after_rounds(bufs[k], w, k + 1, zoom, make_orbit, follow) == bufs.last(),
    decreases gaps.len() - k,
{
    if k < gaps.len() {
        assert(is_round(bufs, gaps[k], k, w, zoom, make_orbit, follow));
        lemma_first_missing(bufs[k], 0, gaps[k]);
        let o = orbit_at(
            make_orbit,
            Some(((gaps[k] % w) as usize, (gaps[k] / w) as usize)),
            zoom,
        );
        assert(retried(bufs[k], w, o, follow) =~= bufs[k + 1]);
        lemma_rounds_lead_to(bufs, gaps, k + 1, w, h, zoom, make_orbit, follow);
    } else if bufs.len() < 8 {
        let last = bufs[k];
        assert(last == bufs.last());
        assert forall|i: int| 0 <= i < last.len() implies !single_is_nan_spec(#[trigger] last[i]) by {
            assert(!single_is_nan_spec(bufs.last()[i]));
        }
        lemma_first_missing(last, 0, last.len() as int);
    }
}

/// Rendering with several references ends with the last of its rounds: a pixel that
/// has a value then shows it, and one that is still missing shows what `exact` answers.
pub proof fn law_multiref_resolves_what_the_rounds_leave<
    O,
    F: Fn((usize, usize)) -> u32,
    M: Fn((Reference, bool)) -> O,
    P: Fn(&O, (usize, usize)) -> Option<u32>,
>(
    bufs: Seq<Seq<u32>>,
    gaps: Seq<int>,
    w: int,
    h: int,
    zoom: u64,
    exact: F,
    make_orbit: M,
    follow: P,
    x: int,
    y: int,
)
    requires
        are_rounds(bufs, gaps, w, h, zoom, make_orbit, follow),
        0 <= x < w,
        0 <= y < h,
    ensures
        ({
            let v = multiref_picture(w, h, zoom, exact, make_orbit, follow)[y * w + x];
            let last = bufs.last()[y * w + x];
            &&& !single_is_nan_spec(last) ==> v == last
            &&& single_is_nan_spec(last) ==> v == value_of(exact, (x as usize, y as usize))
        }),
{
    lemma_index_in_frame(w, h, x, y);
    lemma_index_to_pixel(w, x, y);
    let start = first_pass(w, h, orbit_at(make_orbit, None, zoom), follow);
    assert(start =~= bufs[0]);
    lemma_rounds_lead_to(bufs, gaps, 0, w, h, zoom, make_orbit, follow);
    lemma_rounds_keep_length(bufs[0], w, 1, zoom, make_orbit, follow);
}

proof fn lemma_rounds_keep_length<
    O,
    M: Fn((Reference, bool)) -> O,
    P: Fn(&O, (usize, usize)) -> Option<u32>,
>(buf: Seq<u32>, w: int, used: int, zoom: u64, make_orbit: M, follow: P)
    ensures
        after_rounds(buf, w, used, zoom, make_orbit, follow).len() == buf.len(),
    decreases MAX_REFS - used,
{
    let i = first_missing(buf, 0);
    if i < buf.len() && used < MAX_REFS {
        let o = orbit_at(make_orbit, Some(((i % w) as usize, (i / w) as usize)), zoom);
        lemma_rounds_keep_length(
            retried(buf, w, o, follow),
            w,
            used + 1,
            zoom,
            make_orbit,
            follow,
        );
    }
}

} // verus!
