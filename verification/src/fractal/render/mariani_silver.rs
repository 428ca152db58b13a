//! Mariani-Silver subdivision: a rectangle whose border pixels all show one
//! value is filled with that value, any other rectangle is halved.
//!
//! A pixel that was not computed yet holds a NaN, so that the pixels which two
//! neighbouring rectangles look at are computed once.

use crate::float_bits::{single_eq, single_eq_spec, single_ge, single_ge_spec, single_is_nan, single_is_nan_spec, single_max, single_max_spec, single_min, single_min_spec, single_of, u32_to_single, SINGLE_INFINITY, SINGLE_NAN, SINGLE_NEG_INFINITY};
use crate::fractal::kernels::escape::{law_settling_kernels_answer_numbers, outcome, settled_value};
use crate::fractal::fractal_type::FractalType;
use crate::fractal::fractal::IterBuf;
use crate::func::{evaluate, is_function, value_of};
use crate::grid::{at, in_frame, is_picture, lemma_index_in_frame, lemma_index_to_pixel, lemma_pixel_of_index, sampled};
use crate::gui::viewport::Viewport;
use vstd::prelude::*;

verus! {

/// Rectangles at most this wide or high are computed pixel by pixel.
pub const MS_MIN: usize = 2;

/// The pixels with `x0 <= x < x1` and `y0 <= y < y1`.
#[derive(Clone, Copy, Debug)]
pub struct Rect {
    pub x0: usize,
    pub y0: usize,
    pub x1: usize,
    pub y1: usize,
}

impl Rect {
    pub open spec fn contains(self, x: int, y: int) -> bool {
        self.x0 <= x < self.x1 && self.y0 <= y < self.y1
    }

    /// `(x, y)` lies on the outermost ring of the rectangle.
    pub open spec fn on_border(self, x: int, y: int) -> bool {
        self.contains(x, y) && (x == self.x0 || x == self.x1 - 1 || y == self.y0 || y == self.y1
            - 1)
    }

    pub open spec fn inside(self, x: int, y: int) -> bool {
        self.contains(x, y) && !self.on_border(x, y)
    }

    pub open spec fn wide(self) -> int {
        self.x1 - self.x0
    }

    pub open spec fn high(self) -> int {
        self.y1 - self.y0
    }

    /// The rectangle lies in a frame of width `w` and height `h`.
    pub open spec fn fits(self, w: int, h: int) -> bool {
        self.x0 <= self.x1 <= w && self.y0 <= self.y1 <= h
    }

    /// The rectangle is too small to be halved.
    pub open spec fn small(self) -> bool {
        self.wide() <= MS_MIN || self.high() <= MS_MIN
    }

    /// The left or upper half: the longer side is cut.
    pub open spec fn first_half(self) -> Rect {
        if self.wide() >= self.high() {
            Rect { x1: (self.x0 + self.wide() / 2) as usize, ..self }
        } else {
            Rect { y1: (self.y0 + self.high() / 2) as usize, ..self }
        }
    }

    /// The right or lower half.
    pub open spec fn second_half(self) -> Rect {
        if self.wide() >= self.high() {
            Rect { x0: (self.x0 + self.wide() / 2) as usize, ..self }
        } else {
            Rect { y0: (self.y0 + self.high() / 2) as usize, ..self }
        }
    }
}

/// The value at index `i` once the pixel there is computed.
pub open spec fn refreshed<F: Fn((usize, usize)) -> u32>(
    buf: Seq<u32>,
    w: int,
    sample: F,
    i: int,
) -> u32 {
    if single_is_nan_spec(buf[i]) {
        sampled(sample, i % w, i / w)
    } else {
        buf[i]
    }
}

/// The frame once the pixels of `r` that were missing are computed.
pub open spec fn with_rect<F: Fn((usize, usize)) -> u32>(
    buf: Seq<u32>,
    w: int,
    r: Rect,
    sample: F,
) -> Seq<u32> {
    Seq::new(
        buf.len(),
        |i: int|
            if r.contains(i % w, i / w) {
                refreshed(buf, w, sample, i)
            } else {
                buf[i]
            },
    )
}

/// The frame once the pixels on the border of `r` that were missing are computed.
pub open spec fn with_border<F: Fn((usize, usize)) -> u32>(
    buf: Seq<u32>,
    w: int,
    r: Rect,
    sample: F,
) -> Seq<u32> {
    Seq::new(
        buf.len(),
        |i: int|
            if r.on_border(i % w, i / w) {
                refreshed(buf, w, sample, i)
            } else {
                buf[i]
            },
    )
}

/// The frame once the pixels inside `r` that were missing show `v`.
pub open spec fn with_inside(buf: Seq<u32>, w: int, r: Rect, v: u32) -> Seq<u32> {
    Seq::new(
        buf.len(),
        |i: int|
            if r.inside(i % w, i / w) && single_is_nan_spec(buf[i]) {
                v
            } else {
                buf[i]
            },
    )
}

/// Every border pixel of `r` shows the same number.
pub open spec fn uniform_border(buf: Seq<u32>, w: int, r: Rect) -> bool {
    forall|x: int, y: int|
        r.on_border(x, y) ==> single_eq_spec(
            #[trigger] at(buf, w, x, y),
            at(buf, w, r.x0 as int, r.y0 as int),
        )
}

/// The frame once `r` is filled by subdivision.
pub open spec fn filled<F: Fn((usize, usize)) -> u32>(
    buf: Seq<u32>,
    w: int,
    r: Rect,
    sample: F,
) -> Seq<u32>
    decreases r.wide() + r.high(),
{
    if r.small() {
        with_rect(buf, w, r, sample)
    } else {
        let traced = with_border(buf, w, r, sample);
        if uniform_border(traced, w, r) {
            with_inside(traced, w, r, at(traced, w, r.x0 as int, r.y0 as int))
        } else {
            filled(filled(traced, w, r.first_half(), sample), w, r.second_half(), sample)
        }
    }
}

/// Computes the missing pixels of `r`.
fn fill_rect<F: Fn((usize, usize)) -> u32>(
    buf: &mut Vec<u32>,
    w: usize,
    Ghost(h): Ghost<int>,
    r: Rect,
    sample: &F,
)
    requires
        is_function(*sample),
        old(buf)@.len() == w * h <= usize::MAX,
        r.fits(w as int, h),
    ensures
        final(buf)@ == with_rect(old(buf)@, w as int, r, *sample),
{
    let ghost start = buf@;
    let ghost wi = w as int;
    let mut y: usize = r.y0;
    while y < r.y1
        invariant
            is_function(*sample),
            start.len() == w * h <= usize::MAX,
            wi == w,
            r.fits(w as int, h),
            r.y0 <= y <= r.y1,
            buf@ == with_rect(start, wi, (Rect { y1: y, ..r }), *sample),
        decreases r.y1 - y,
    {
        let mut x: usize = r.x0;
        proof {
            assert(with_rect(buf@, wi, (Rect { x1: r.x0, y0: y, y1: (y + 1) as usize, ..r }), *sample)
                =~= buf@);
        }
        let ghost row_start = buf@;
        while x < r.x1
            invariant
                is_function(*sample),
                start.len() == w * h <= usize::MAX,
                row_start.len() == w * h,
                wi == w,
                r.fits(w as int, h),
                r.y0 <= y < r.y1,
                r.x0 <= x <= r.x1,
                buf@ == with_rect(
                    row_start,
                    wi,
                    (Rect { x1: x, y0: y, y1: (y + 1) as usize, ..r }),
                    *sample,
                ),
            decreases r.x1 - x,
        {
            proof {
                lemma_index_in_frame(wi, h, x as int, y as int);
                lemma_index_to_pixel(wi, x as int, y as int);
                assert(buf@.len() == w * h);
            }
            let ghost before = buf@;
            let idx: usize = y * w + x;
            if single_is_nan(buf[idx]) {
                buf.set(idx, evaluate(sample, (x, y)));
            }
            proof {
                let done = with_rect(
                    row_start,
                    wi,
                    (Rect { x1: (x + 1) as usize, y0: y, y1: (y + 1) as usize, ..r }),
                    *sample,
                );
                assert forall|i: int| 0 <= i < buf@.len() implies buf@[i] == done[i] by {
                    lemma_pixel_of_index(wi, h, i);
                    if i % wi == x && i / wi == y {
                        assert(i == idx);
                    }
                }
                assert(buf@ =~= done);
            }
            x = x + 1;
        }
        proof {
            let done = with_rect(start, wi, (Rect { y1: (y + 1) as usize, ..r }), *sample);
            assert(buf@ =~= done);
        }
        y = y + 1;
    }
    proof {
        assert(buf@ =~= with_rect(start, wi, r, *sample));
    }
}

/// Whether every border pixel of `r` shows the same number.
fn has_uniform_border(buf: &Vec<u32>, w: usize, Ghost(h): Ghost<int>, r: Rect) -> (u: bool)
    requires
        buf@.len() == w * h <= usize::MAX,
        r.fits(w as int, h),
        r.x0 < r.x1,
        r.y0 < r.y1,
    ensures
        u == uniform_border(buf@, w as int, r),
{
    let ghost wi = w as int;
    proof {
        lemma_index_in_frame(wi, h, r.x0 as int, r.y0 as int);
    }
    let border_val: u32 = buf[r.y0 * w + r.x0];
    let mut x: usize = r.x0;
    while x < r.x1
        invariant
            buf@.len() == w * h <= usize::MAX,
            wi == w,
            r.fits(w as int, h),
            r.x0 < r.x1,
            r.y0 < r.y1,
            r.x0 <= x <= r.x1,
            border_val == at(buf@, wi, r.x0 as int, r.y0 as int),
            forall|u: int|
                r.x0 <= u < x ==> single_eq_spec(#[trigger] at(buf@, wi, u, r.y0 as int), border_val),
            forall|u: int|
                r.x0 <= u < x ==> single_eq_spec(#[trigger] at(buf@, wi, u, r.y1 - 1), border_val),
        decreases r.x1 - x,
    {
        proof {
            lemma_index_in_frame(wi, h, x as int, r.y0 as int);
            lemma_index_in_frame(wi, h, x as int, r.y1 - 1);
        }
        if !single_eq(buf[r.y0 * w + x], border_val) {
            assert(!single_eq_spec(at(buf@, wi, x as int, r.y0 as int), border_val));
            return false;
        }
        if !single_eq(buf[(r.y1 - 1) * w + x], border_val) {
            assert(!single_eq_spec(at(buf@, wi, x as int, r.y1 - 1), border_val));
            return false;
        }
        x = x + 1;
    }
    let mut y: usize = r.y0 + 1;
    while y < r.y1 - 1
        invariant
            buf@.len() == w * h <= usize::MAX,
            wi == w,
            r.fits(w as int, h),
            r.x0 < r.x1,
            r.y0 < r.y1,
            r.y0 < y,
            y <= r.y1,
            border_val == at(buf@, wi, r.x0 as int, r.y0 as int),
            forall|u: int|
                r.x0 <= u < r.x1 ==> single_eq_spec(#[trigger] at(buf@, wi, u, r.y0 as int), border_val),
            forall|u: int|
                r.x0 <= u < r.x1 ==> single_eq_spec(#[trigger] at(buf@, wi, u, r.y1 - 1), border_val),
            forall|v: int|
                r.y0 < v < y ==> single_eq_spec(#[trigger] at(buf@, wi, r.x0 as int, v), border_val),
            forall|v: int|
                r.y0 < v < y ==> single_eq_spec(#[trigger] at(buf@, wi, r.x1 - 1, v), border_val),
        decreases r.y1 - y,
    {
        proof {
            lemma_index_in_frame(wi, h, r.x0 as int, y as int);
            lemma_index_in_frame(wi, h, r.x1 - 1, y as int);
        }
        if !single_eq(buf[y * w + r.x0], border_val) {
            assert(!single_eq_spec(at(buf@, wi, r.x0 as int, y as int), border_val));
            return false;
        }
        if !single_eq(buf[y * w + (r.x1 - 1)], border_val) {
            assert(!single_eq_spec(at(buf@, wi, r.x1 - 1, y as int), border_val));
            return false;
        }
        y = y + 1;
    }
    true
}

/// Makes the missing pixels inside `r` show `v`.
fn fill_inside(buf: &mut Vec<u32>, w: usize, Ghost(h): Ghost<int>, r: Rect, v: u32)
    requires
        old(buf)@.len() == w * h <= usize::MAX,
        r.fits(w as int, h),
        r.x0 < r.x1,
        r.y0 < r.y1,
    ensures
        final(buf)@ == with_inside(old(buf)@, w as int, r, v),
{
    let ghost start = buf@;
    let ghost wi = w as int;
    let mut y: usize = r.y0 + 1;
    while y < r.y1 - 1
        invariant
            start.len() == w * h <= usize::MAX,
            buf@.len() == start.len(),
            wi == w,
            r.fits(w as int, h),
            r.x0 < r.x1,
            r.y0 < r.y1,
            r.y0 < y <= r.y1,
            forall|i: int|
                0 <= i < start.len() ==> #[trigger] buf@[i] == (if r.inside(i % wi, i / wi)
                    && single_is_nan_spec(start[i]) && i / wi < y {
                    v
                } else {
                    start[i]
                }),
        decreases r.y1 - y,
    {
        let mut x: usize = r.x0 + 1;
        while x < r.x1 - 1
            invariant
                start.len() == w * h <= usize::MAX,
                buf@.len() == start.len(),
                wi == w,
                r.fits(w as int, h),
                r.x0 < x <= r.x1,
                r.y0 < y,
                y + 1 < r.y1,
                forall|i: int|
                    0 <= i < start.len() ==> #[trigger] buf@[i] == (if r.inside(i % wi, i / wi)
                        && single_is_nan_spec(start[i]) && (i / wi < y || (i / wi == y && i % wi
                        < x)) {
                        v
                    } else {
                        start[i]
                    }),
            decreases r.x1 - x,
        {
            proof {
                lemma_index_in_frame(wi, h, x as int, y as int);
                lemma_index_to_pixel(wi, x as int, y as int);
            }
            let idx: usize = y * w + x;
            let ghost before = buf@;
            if single_is_nan(buf[idx]) {
                buf.set(idx, v);
            }
            proof {
                assert forall|i: int| 0 <= i < start.len() implies #[trigger] buf@[i] == (if r.inside(
                    i % wi,
                    i / wi,
                ) && single_is_nan_spec(start[i]) && (i / wi < y || (i / wi == y && i % wi < x
                    + 1)) {
                    v
                } else {
                    start[i]
                }) by {
                    lemma_pixel_of_index(wi, h, i);
                    assert(before[i] == before[i]);
                    if i % wi == x && i / wi == y {
                        assert(i == idx);
                    }
                }
            }
            x = x + 1;
        }
        y = y + 1;
    }
    assert(buf@ =~= with_inside(start, wi, r, v));
}

/// Computes the missing pixels on the border of `r`.
fn trace_border<F: Fn((usize, usize)) -> u32>(
    buf: &mut Vec<u32>,
    w: usize,
    Ghost(h): Ghost<int>,
    r: Rect,
    sample: &F,
)
    requires
        is_function(*sample),
        old(buf)@.len() == w * h <= usize::MAX,
        r.fits(w as int, h),
        r.x0 < r.x1,
        r.y0 < r.y1,
    ensures
        final(buf)@ == with_border(old(buf)@, w as int, r, *sample),
{
    let ghost start = buf@;
    let top = Rect { y1: r.y0 + 1, ..r };
    let bottom = Rect { y0: r.y1 - 1, ..r };
    let left = Rect { x1: r.x0 + 1, ..r };
    let right = Rect { x0: r.x1 - 1, ..r };
    fill_rect(buf, w, Ghost(h), top, sample);
    fill_rect(buf, w, Ghost(h), bottom, sample);
    fill_rect(buf, w, Ghost(h), left, sample);
    fill_rect(buf, w, Ghost(h), right, sample);
    assert(buf@ =~= with_border(start, w as int, r, *sample));
}

/// Fills `r` by subdivision.
fn ms_fill<F: Fn((usize, usize)) -> u32>(
    buf: &mut Vec<u32>,
    w: usize,
    Ghost(h): Ghost<int>,
    r: Rect,
    sample: &F,
)
    requires
        is_function(*sample),
        old(buf)@.len() == w * h <= usize::MAX,
        r.fits(w as int, h),
    ensures
        final(buf)@ == filled(old(buf)@, w as int, r, *sample),
    decreases r.x1 - r.x0 + r.y1 - r.y0,
{
    let rw: usize = r.x1 - r.x0;
    let rh: usize = r.y1 - r.y0;
    if rw <= MS_MIN || rh <= MS_MIN {
        fill_rect(buf, w, Ghost(h), r, sample);
        return;
    }
    trace_border(buf, w, Ghost(h), r, sample);
    if has_uniform_border(buf, w, Ghost(h), r) {
        proof {
            lemma_index_in_frame(w as int, h, r.x0 as int, r.y0 as int);
        }
        let border_val: u32 = buf[r.y0 * w + r.x0];
        fill_inside(buf, w, Ghost(h), r, border_val);
    } else if rw >= rh {
        let mid: usize = r.x0 + rw / 2;
        ms_fill(buf, w, Ghost(h), Rect { x1: mid, ..r }, sample);
        proof {
            lemma_filled_len(
                with_border(old(buf)@, w as int, r, *sample),
                w as int,
                (Rect { x1: mid, ..r }),
                *sample,
            );
        }
        ms_fill(buf, w, Ghost(h), Rect { x0: mid, ..r }, sample);
    } else {
        let mid: usize = r.y0 + rh / 2;
        ms_fill(buf, w, Ghost(h), Rect { y1: mid, ..r }, sample);
        proof {
            lemma_filled_len(
                with_border(old(buf)@, w as int, r, *sample),
                w as int,
                (Rect { y1: mid, ..r }),
                *sample,
            );
        }
        ms_fill(buf, w, Ghost(h), Rect { y0: mid, ..r }, sample);
    }
}

proof fn lemma_filled_len<F: Fn((usize, usize)) -> u32>(buf: Seq<u32>, w: int, r: Rect, sample: F)
    ensures
        filled(buf, w, r, sample).len() == buf.len(),
    decreases r.wide() + r.high(),
{
    if !r.small() {
        let traced = with_border(buf, w, r, sample);
        if !uniform_border(traced, w, r) {
            lemma_filled_len(traced, w, r.first_half(), sample);
            lemma_filled_len(
                filled(traced, w, r.first_half(), sample),
                w,
                r.second_half(),
                sample,
            );
        }
    }
}

/// A frame in which no pixel is computed yet.
pub open spec fn blank(n: nat) -> Seq<u32> {
    Seq::new(n, |i: int| SINGLE_NAN)
}

/// The whole frame as a rectangle.
pub open spec fn whole(vp: Viewport) -> Rect {
    Rect { x0: 0, y0: 0, x1: vp.width as usize, y1: vp.height as usize }
}

/// Renders the frame of `vp` by subdivision.
pub fn render_mariani_silver<F: Fn((usize, usize)) -> u32>(vp: &Viewport, sample: &F) -> (buf:
    IterBuf)
    requires
        vp.width <= usize::MAX,
        vp.height <= usize::MAX,
        vp.width * vp.height <= usize::MAX,
        is_function(*sample),
    ensures
        buf@ == filled(
            blank((vp.width * vp.height) as nat),
            vp.width as int,
            whole(*vp),
            *sample,
        ),
{
    let w: usize = vp.width as usize;
    let h: usize = vp.height as usize;
    let mut buf: Vec<u32> = vec![SINGLE_NAN; w * h];
    assert(buf@ =~= blank((w * h) as nat));
    ms_fill(&mut buf, w, Ghost(h as int), Rect { x0: 0, y0: 0, x1: w, y1: h }, sample);
    buf
}

/// Every pixel of `r` is computed or missing.
pub open spec fn partly_computed<F: Fn((usize, usize)) -> u32>(
    buf: Seq<u32>,
    w: int,
    r: Rect,
    sample: F,
) -> bool {
    forall|x: int, y: int|
        r.contains(x, y) ==> #[trigger] at(buf, w, x, y) == sampled(sample, x, y)
            || single_is_nan_spec(at(buf, w, x, y))
}

/// Every border pixel of `r` has the same value.
pub open spec fn samples_agree_on_border<F: Fn((usize, usize)) -> u32>(r: Rect, sample: F) -> bool {
    forall|x: int, y: int|
        r.on_border(x, y) ==> single_eq_spec(
            #[trigger] sampled(sample, x, y),
            sampled(sample, r.x0 as int, r.y0 as int),
        )
}

/// What subdivision relies on: a rectangle whose border pixels have one value
/// has that value everywhere.
pub open spec fn borders_tell_insides<F: Fn((usize, usize)) -> u32>(
    w: int,
    h: int,
    sample: F,
) -> bool {
    forall|r: Rect, x: int, y: int|
        r.fits(w, h) && !r.small() && #[trigger] samples_agree_on_border(r, sample)
            && #[trigger] r.inside(x, y) ==> sampled(sample, x, y) == sampled(
            sample,
            r.x0 as int,
            r.y0 as int,
        )
}

/// Filling a rectangle leaves the rest of the frame as it was.
pub proof fn law_filling_stays_in_rectangle<F: Fn((usize, usize)) -> u32>(
    buf: Seq<u32>,
    w: int,
    h: int,
    r: Rect,
    sample: F,
)
    requires
        buf.len() == w * h,
        r.fits(w, h),
    ensures
        filled(buf, w, r, sample).len() == buf.len(),
        forall|x: int, y: int|
            in_frame(w, h, x, y) && !r.contains(x, y) ==> #[trigger] at(
                filled(buf, w, r, sample),
                w,
                x,
                y,
            ) == at(buf, w, x, y),
    decreases r.wide() + r.high(),
{
    lemma_filled_len(buf, w, r, sample);
    let out = filled(buf, w, r, sample);
    let traced = with_border(buf, w, r, sample);
    let recurse = !r.small() && !uniform_border(traced, w, r);
    let half = filled(traced, w, r.first_half(), sample);
    if recurse {
        law_filling_stays_in_rectangle(traced, w, h, r.first_half(), sample);
        law_filling_stays_in_rectangle(half, w, h, r.second_half(), sample);
    }
    assert forall|x: int, y: int| in_frame(w, h, x, y) && !r.contains(x, y) implies #[trigger] at(
        out,
        w,
        x,
        y,
    ) == at(buf, w, x, y) by {
        lemma_index_in_frame(w, h, x, y);
        lemma_index_to_pixel(w, x, y);
        if recurse {
            assert(at(half, w, x, y) == at(traced, w, x, y));
        }
    }
}

/// Filling a rectangle gives every pixel of it its own value, if a border of
/// one value always encloses that value alone.
pub proof fn law_filling_is_exact<F: Fn((usize, usize)) -> u32>(
    buf: Seq<u32>,
    w: int,
    h: int,
    r: Rect,
    sample: F,
)
    requires
        buf.len() == w * h,
        r.fits(w, h),
        partly_computed(buf, w, r, sample),
        borders_tell_insides(w, h, sample),
    ensures
        forall|x: int, y: int|
            r.contains(x, y) ==> #[trigger] at(filled(buf, w, r, sample), w, x, y) == sampled(
                sample,
                x,
                y,
            ),
    decreases r.wide() + r.high(),
{
    let out = filled(buf, w, r, sample);
    let traced = with_border(buf, w, r, sample);
    assert forall|x: int, y: int| in_frame(w, h, x, y) implies #[trigger] at(traced, w, x, y) == (
    if r.on_border(x, y) {
        sampled(sample, x, y)
    } else {
        at(buf, w, x, y)
    }) by {
        lemma_index_in_frame(w, h, x, y);
        lemma_index_to_pixel(w, x, y);
        assert(r.contains(x, y) ==> at(buf, w, x, y) == sampled(sample, x, y)
            || single_is_nan_spec(at(buf, w, x, y)));
    }
    if r.small() {
        assert forall|x: int, y: int| r.contains(x, y) implies #[trigger] at(out, w, x, y)
            == sampled(sample, x, y) by {
            lemma_index_in_frame(w, h, x, y);
            lemma_index_to_pixel(w, x, y);
            assert(at(buf, w, x, y) == sampled(sample, x, y) || single_is_nan_spec(
                at(buf, w, x, y),
            ));
        }
    } else if uniform_border(traced, w, r) {
        assert(samples_agree_on_border(r, sample)) by {
            assert forall|x: int, y: int| r.on_border(x, y) implies single_eq_spec(
                #[trigger] sampled(sample, x, y),
                sampled(sample, r.x0 as int, r.y0 as int),
            ) by {
                assert(single_eq_spec(
                    at(traced, w, x, y),
                    at(traced, w, r.x0 as int, r.y0 as int),
                ));
            }
        }
        assert forall|x: int, y: int| r.contains(x, y) implies #[trigger] at(out, w, x, y)
            == sampled(sample, x, y) by {
            lemma_index_in_frame(w, h, x, y);
            lemma_index_to_pixel(w, x, y);
            assert(at(traced, w, r.x0 as int, r.y0 as int) == sampled(
                sample,
                r.x0 as int,
                r.y0 as int,
            ));
            assert(at(buf, w, x, y) == sampled(sample, x, y) || single_is_nan_spec(
                at(buf, w, x, y),
            ));
            assert(at(traced, w, x, y) == (if r.on_border(x, y) {
                sampled(sample, x, y)
            } else {
                at(buf, w, x, y)
            }));
        }
    } else {
        let half = filled(traced, w, r.first_half(), sample);
        law_filling_is_exact(traced, w, h, r.first_half(), sample);
        law_filling_stays_in_rectangle(traced, w, h, r.first_half(), sample);
        law_filling_is_exact(half, w, h, r.second_half(), sample);
        law_filling_stays_in_rectangle(half, w, h, r.second_half(), sample);
        assert forall|x: int, y: int| r.contains(x, y) implies #[trigger] at(out, w, x, y)
            == sampled(sample, x, y) by {
            if r.first_half().contains(x, y) {
                assert(at(half, w, x, y) == sampled(sample, x, y));
            } else {
                assert(r.second_half().contains(x, y));
            }
        }
    }
}

/// Subdivision renders the same frame as computing every pixel does, if a border
/// of one value always encloses that value alone.
pub proof fn law_subdivision_renders_the_picture<F: Fn((usize, usize)) -> u32>(
    vp: Viewport,
    sample: F,
)
    requires
        vp.width <= usize::MAX,
        vp.height <= usize::MAX,
        borders_tell_insides(vp.width as int, vp.height as int, sample),
    ensures
        is_picture(
            filled(blank((vp.width * vp.height) as nat), vp.width as int, whole(vp), sample),
            vp.width as int,
            vp.height as int,
            sample,
        ),
{
    let w = vp.width as int;
    let h = vp.height as int;
    assert(w * h >= 0) by (nonlinear_arith)
        requires
            w >= 0,
            h >= 0,
    ;
    let start = blank((vp.width * vp.height) as nat);
    assert forall|x: int, y: int| whole(vp).contains(x, y) implies single_is_nan_spec(
        #[trigger] at(start, w, x, y),
    ) by {
        lemma_index_in_frame(w, h, x, y);
    }
    law_filling_is_exact(start, w, h, whole(vp), sample);
    law_filling_stays_in_rectangle(start, w, h, whole(vp), sample);
}

/// The value of pixel `(x, y)` is that of some pixel of `r`.
pub open spec fn is_taken_from<F: Fn((usize, usize)) -> u32>(v: u32, r: Rect, sample: F) -> bool {
    exists|x: int, y: int| r.contains(x, y) && v == #[trigger] sampled(sample, x, y)
}

/// Whatever the kernel is, subdivision invents no value: each pixel of a filled
/// rectangle shows what the kernel answers for some pixel of it, and a border
/// pixel shows what the kernel answers for that pixel.
pub proof fn law_filling_invents_no_value<F: Fn((usize, usize)) -> u32>(
    buf: Seq<u32>,
    w: int,
    h: int,
    r: Rect,
    sample: F,
)
    requires
        buf.len() == w * h,
        r.fits(w, h),
        partly_computed(buf, w, r, sample),
    ensures
        forall|x: int, y: int|
            r.contains(x, y) ==> is_taken_from(
                #[trigger] at(filled(buf, w, r, sample), w, x, y),
                r,
                sample,
            ),
        forall|x: int, y: int|
            r.on_border(x, y) ==> #[trigger] at(filled(buf, w, r, sample), w, x, y) == sampled(
                sample,
                x,
                y,
            ),
    decreases r.wide() + r.high(),
{
    let out = filled(buf, w, r, sample);
    let traced = with_border(buf, w, r, sample);
    assert forall|x: int, y: int| in_frame(w, h, x, y) implies #[trigger] at(traced, w, x, y) == (
    if r.on_border(x, y) {
        sampled(sample, x, y)
    } else {
        at(buf, w, x, y)
    }) by {
        lemma_index_in_frame(w, h, x, y);
        lemma_index_to_pixel(w, x, y);
        assert(r.contains(x, y) ==> at(buf, w, x, y) == sampled(sample, x, y)
            || single_is_nan_spec(at(buf, w, x, y)));
    }
    if r.small() || uniform_border(traced, w, r) {
        assert forall|x: int, y: int| r.contains(x, y) implies is_taken_from(
            #[trigger] at(out, w, x, y),
            r,
            sample,
        ) && (r.on_border(x, y) ==> at(out, w, x, y) == sampled(sample, x, y)) by {
            lemma_index_in_frame(w, h, x, y);
            lemma_index_to_pixel(w, x, y);
            assert(at(buf, w, x, y) == sampled(sample, x, y) || single_is_nan_spec(
                at(buf, w, x, y),
            ));
            assert(at(traced, w, x, y) == at(traced, w, x, y));
            assert(at(traced, w, r.x0 as int, r.y0 as int) == sampled(
                sample,
                r.x0 as int,
                r.y0 as int,
            ));
        }
    } else {
        let a = r.first_half();
        let b = r.second_half();
        let half = filled(traced, w, a, sample);
        law_filling_invents_no_value(traced, w, h, a, sample);
        law_filling_stays_in_rectangle(traced, w, h, a, sample);
        law_filling_invents_no_value(half, w, h, b, sample);
        law_filling_stays_in_rectangle(half, w, h, b, sample);
        assert forall|x: int, y: int| r.contains(x, y) implies is_taken_from(
            #[trigger] at(out, w, x, y),
            r,
            sample,
        ) && (r.on_border(x, y) ==> at(out, w, x, y) == sampled(sample, x, y)) by {
            if a.contains(x, y) {
                assert(is_taken_from(at(half, w, x, y), a, sample));
                assert(at(out, w, x, y) == at(half, w, x, y));
                let (u, v) = choose|u: int, v: int|
                    a.contains(u, v) && at(half, w, x, y) == #[trigger] sampled(sample, u, v);
                assert(r.contains(u, v));
                assert(r.on_border(x, y) ==> a.on_border(x, y));
            } else {
                assert(b.contains(x, y));
                assert(is_taken_from(at(out, w, x, y), b, sample));
                let (u, v) = choose|u: int, v: int|
                    b.contains(u, v) && at(out, w, x, y) == #[trigger] sampled(sample, u, v);
                assert(r.contains(u, v));
                assert(r.on_border(x, y) ==> b.on_border(x, y));
            }
        }
    }
}

/// A pixel that is already computed is never written again.
pub proof fn law_computed_pixels_are_kept<F: Fn((usize, usize)) -> u32>(
    buf: Seq<u32>,
    w: int,
    h: int,
    r: Rect,
    sample: F,
)
    requires
        buf.len() == w * h,
        r.fits(w, h),
    ensures
        filled(buf, w, r, sample).len() == buf.len(),
        forall|x: int, y: int|
            in_frame(w, h, x, y) && !single_is_nan_spec(#[trigger] at(buf, w, x, y)) ==> at(
                filled(buf, w, r, sample),
                w,
                x,
                y,
            ) == at(buf, w, x, y),
    decreases r.wide() + r.high(),
{
    lemma_filled_len(buf, w, r, sample);
    let out = filled(buf, w, r, sample);
    let traced = with_border(buf, w, r, sample);
    let recurse = !r.small() && !uniform_border(traced, w, r);
    let half = filled(traced, w, r.first_half(), sample);
    if recurse {
        law_computed_pixels_are_kept(traced, w, h, r.first_half(), sample);
        law_computed_pixels_are_kept(half, w, h, r.second_half(), sample);
    }
    assert forall|x: int, y: int|
        in_frame(w, h, x, y) && !single_is_nan_spec(#[trigger] at(buf, w, x, y)) implies at(
        out,
        w,
        x,
        y,
    ) == at(buf, w, x, y) by {
        lemma_index_in_frame(w, h, x, y);
        lemma_index_to_pixel(w, x, y);
        assert(at(traced, w, x, y) == at(buf, w, x, y));
        if recurse {
            assert(at(half, w, x, y) == at(traced, w, x, y));
        }
    }
}

/// A subdivided frame has every pixel, for a kernel that answers every pixel with
/// a number: no pixel stays missing. Whatever the kernel is, the pixels on the
/// edge of the frame are those of the frame `full` in which every pixel is
/// computed, and so are all pixels of a frame that is at most two pixels wide or
/// high.
pub proof fn law_subdivided_frame_is_complete<F: Fn((usize, usize)) -> u32>(
    vp: Viewport,
    sample: F,
    full: Seq<u32>,
)
    requires
        vp.width <= usize::MAX,
        vp.height <= usize::MAX,
        is_picture(full, vp.width as int, vp.height as int, sample),
    ensures
        ({
            let w = vp.width as int;
            let h = vp.height as int;
            let out = filled(blank((vp.width * vp.height) as nat), w, whole(vp), sample);
            &&& out.len() == w * h
            &&& (forall|x: int, y: int|
                in_frame(w, h, x, y) ==> !single_is_nan_spec(#[trigger] sampled(sample, x, y)))
                ==> (forall|x: int, y: int|
                in_frame(w, h, x, y) ==> !single_is_nan_spec(#[trigger] at(out, w, x, y)))
            &&& forall|x: int, y: int|
                in_frame(w, h, x, y) && (x == 0 || x == w - 1 || y == 0 || y == h - 1)
                    ==> #[trigger] at(out, w, x, y) == at(full, w, x, y)
            &&& w <= MS_MIN || h <= MS_MIN ==> out == full
        }),
{
    let w = vp.width as int;
    let h = vp.height as int;
    let r = whole(vp);
    assert(w * h >= 0) by (nonlinear_arith)
        requires
            w >= 0,
            h >= 0,
    ;
    let start = blank((vp.width * vp.height) as nat);
    let out = filled(start, w, r, sample);
    assert forall|x: int, y: int| r.contains(x, y) implies single_is_nan_spec(
        #[trigger] at(start, w, x, y),
    ) by {
        lemma_index_in_frame(w, h, x, y);
    }
    law_filling_invents_no_value(start, w, h, r, sample);
    law_filling_stays_in_rectangle(start, w, h, r, sample);
    if forall|x: int, y: int|
        in_frame(w, h, x, y) ==> !single_is_nan_spec(#[trigger] sampled(sample, x, y)) {
        assert forall|x: int, y: int| in_frame(w, h, x, y) implies !single_is_nan_spec(
            #[trigger] at(out, w, x, y),
        ) by {
            assert(is_taken_from(at(out, w, x, y), r, sample));
            let (u, v) = choose|u: int, v: int|
                r.contains(u, v) && at(out, w, x, y) == #[trigger] sampled(sample, u, v);
            assert(in_frame(w, h, u, v));
        }
    }
    assert forall|x: int, y: int|
        in_frame(w, h, x, y) && (x == 0 || x == w - 1 || y == 0 || y == h - 1) implies #[trigger] at(
        out,
        w,
        x,
        y,
    ) == at(full, w, x, y) by {
        assert(r.on_border(x, y));
    }
    if w <= MS_MIN || h <= MS_MIN {
        assert(r.small());
        assert forall|i: int| 0 <= i < out.len() implies #[trigger] out[i] == full[i] by {
            if w == 0 {
                assert(w * h == 0) by (nonlinear_arith)
                    requires
                        w == 0,
                ;
            }
            lemma_pixel_of_index(w, h, i);
            assert(at(full, w, i % w, i / w) == sampled(sample, i % w, i / w));
        }
        assert(out =~= full);
    }
}

/// What the distance estimator answers at the four corners of `r`: the value of
/// the corner, and whether the boundary of the set is too close to it for a
/// rectangle of that size.
pub open spec fn corner_answers<C: Fn((usize, usize, usize, usize)) -> (u32, bool)>(
    r: Rect,
    corner: C,
) -> Seq<(u32, bool)> {
    let w = r.wide() as usize;
    let h = r.high() as usize;
    seq![
        value_of(corner, (r.x0, r.y0, w, h)),
        value_of(corner, ((r.x1 - 1) as usize, r.y0, w, h)),
        value_of(corner, (r.x0, (r.y1 - 1) as usize, w, h)),
        value_of(corner, ((r.x1 - 1) as usize, (r.y1 - 1) as usize, w, h)),
    ]
}

/// A corner that escaped, far from the boundary.
pub open spec fn is_safe_corner(answer: (u32, bool), max_iter: u32) -> bool {
    !single_ge_spec(answer.0, single_of(max_iter)) && !answer.1
}

/// The largest and the smallest of four values.
pub open spec fn extremes(c: Seq<(u32, bool)>) -> (u32, u32) {
    (
        single_max_spec(
            single_max_spec(
                single_max_spec(single_max_spec(SINGLE_NEG_INFINITY, c[0].0), c[1].0),
                c[2].0,
            ),
            c[3].0,
        ),
        single_min_spec(
            single_min_spec(
                single_min_spec(single_min_spec(SINGLE_INFINITY, c[0].0), c[1].0),
                c[2].0,
            ),
            c[3].0,
        ),
    )
}

/// No boundary detail can lie in `r`: all corners are safe, and their values
/// are not far apart.
pub open spec fn is_culled<
    C: Fn((usize, usize, usize, usize)) -> (u32, bool),
    A: Fn((u32, u32)) -> bool,
>(r: Rect, max_iter: u32, corner: C, apart: A) -> bool {
    let c = corner_answers(r, corner);
    &&& is_safe_corner(c[0], max_iter)
    &&& is_safe_corner(c[1], max_iter)
    &&& is_safe_corner(c[2], max_iter)
    &&& is_safe_corner(c[3], max_iter)
    &&& !value_of(apart, extremes(c))
}

/// The value of pixel `(x, y)` of `r` between those of the four corners.
pub open spec fn blended_value<B: Fn(([u32; 4], usize, usize, usize, usize)) -> u32>(
    r: Rect,
    corners: [u32; 4],
    blend: B,
    x: int,
    y: int,
) -> u32 {
    let last_x = if r.wide() - 1 > 1 {
        (r.wide() - 1) as usize
    } else {
        1
    };
    let last_y = if r.high() - 1 > 1 {
        (r.high() - 1) as usize
    } else {
        1
    };
    value_of(blend, (corners, (x - r.x0) as usize, (y - r.y0) as usize, last_x, last_y))
}

/// The values of the four corners.
pub open spec fn corner_values(c: Seq<(u32, bool)>) -> [u32; 4] {
    [c[0].0, c[1].0, c[2].0, c[3].0]
}

/// The frame once every pixel of `r` lies between the four corners.
pub open spec fn with_blend<B: Fn(([u32; 4], usize, usize, usize, usize)) -> u32>(
    buf: Seq<u32>,
    w: int,
    r: Rect,
    corners: [u32; 4],
    blend: B,
) -> Seq<u32> {
    Seq::new(
        buf.len(),
        |i: int|
            if r.contains(i % w, i / w) {
                blended_value(r, corners, blend, i % w, i / w)
            } else {
                buf[i]
            },
    )
}

/// The frame once `r` is filled by subdivision with distance culling.
pub open spec fn filled_dem<
    F: Fn((usize, usize)) -> u32,
    C: Fn((usize, usize, usize, usize)) -> (u32, bool),
    A: Fn((u32, u32)) -> bool,
    B: Fn(([u32; 4], usize, usize, usize, usize)) -> u32,
>(buf: Seq<u32>, w: int, r: Rect, max_iter: u32, sample: F, corner: C, apart: A, blend: B) -> Seq<u32>
    decreases r.wide() + r.high(),
{
    if r.small() {
        filled(buf, w, r, sample)
    } else if is_culled(r, max_iter, corner, apart) {
        with_blend(buf, w, r, corner_values(corner_answers(r, corner)), blend)
    } else {
        let traced = with_border(buf, w, r, sample);
        if uniform_border(traced, w, r) {
            with_inside(traced, w, r, at(traced, w, r.x0 as int, r.y0 as int))
        } else {
            let half = filled_dem(
                traced,
                w,
                r.first_half(),
                max_iter,
                sample,
                corner,
                apart,
                blend,
            );
            filled_dem(half, w, r.second_half(), max_iter, sample, corner, apart, blend)
        }
    }
}

/// The corner values of `r` if no boundary detail can lie in it.
fn cull<
    C: Fn((usize, usize, usize, usize)) -> (u32, bool),
    A: Fn((u32, u32)) -> bool,
>(r: Rect, max_iter: u32, corner: &C, apart: &A) -> (vals: Option<[u32; 4]>)
    requires
        is_function(*corner),
        is_function(*apart),
        r.x0 < r.x1,
        r.y0 < r.y1,
    ensures
        vals == (if is_culled(r, max_iter, *corner, *apart) {
            Some(corner_values(corner_answers(r, *corner)))
        } else {
            None
        }),
{
    let w: usize = r.x1 - r.x0;
    let h: usize = r.y1 - r.y0;
    let limit: u32 = u32_to_single(max_iter);
    let c0 = evaluate(corner, (r.x0, r.y0, w, h));
    if single_ge(c0.0, limit) || c0.1 {
        return None;
    }
    let c1 = evaluate(corner, (r.x1 - 1, r.y0, w, h));
    if single_ge(c1.0, limit) || c1.1 {
        return None;
    }
    let c2 = evaluate(corner, (r.x0, r.y1 - 1, w, h));
    if single_ge(c2.0, limit) || c2.1 {
        return None;
    }
    let c3 = evaluate(corner, (r.x1 - 1, r.y1 - 1, w, h));
    if single_ge(c3.0, limit) || c3.1 {
        return None;
    }
    let vmax: u32 = single_max(
        single_max(single_max(single_max(SINGLE_NEG_INFINITY, c0.0), c1.0), c2.0),
        c3.0,
    );
    let vmin: u32 = single_min(
        single_min(single_min(single_min(SINGLE_INFINITY, c0.0), c1.0), c2.0),
        c3.0,
    );
    if evaluate(apart, (vmax, vmin)) {
        return None;
    }
    Some([c0.0, c1.0, c2.0, c3.0])
}

/// Makes every pixel of `r` lie between the four corners.
fn fill_blend<B: Fn(([u32; 4], usize, usize, usize, usize)) -> u32>(
    buf: &mut Vec<u32>,
    w: usize,
    Ghost(h): Ghost<int>,
    r: Rect,
    corners: [u32; 4],
    blend: &B,
)
    requires
        is_function(*blend),
        old(buf)@.len() == w * h <= usize::MAX,
        r.fits(w as int, h),
        r.x0 < r.x1,
        r.y0 < r.y1,
    ensures
        final(buf)@ == with_blend(old(buf)@, w as int, r, corners, *blend),
{
    let ghost start = buf@;
    let ghost wi = w as int;
    let last_x: usize = if r.x1 - r.x0 - 1 > 1 {
        r.x1 - r.x0 - 1
    } else {
        1
    };
    let last_y: usize = if r.y1 - r.y0 - 1 > 1 {
        r.y1 - r.y0 - 1
    } else {
        1
    };
    let mut y: usize = r.y0;
    while y < r.y1
        invariant
            is_function(*blend),
            start.len() == w * h <= usize::MAX,
            buf@.len() == start.len(),
            wi == w,
            r.fits(w as int, h),
            r.x0 < r.x1,
            r.y0 <= y <= r.y1,
            last_x == (if r.wide() - 1 > 1 {
                r.wide() - 1
            } else {
                1
            }),
            last_y == (if r.high() - 1 > 1 {
                r.high() - 1
            } else {
                1
            }),
            forall|i: int|
                0 <= i < start.len() ==> #[trigger] buf@[i] == (if r.contains(i % wi, i / wi) && i
                    / wi < y {
                    blended_value(r, corners, *blend, i % wi, i / wi)
                } else {
                    start[i]
                }),
        decreases r.y1 - y,
    {
        let mut x: usize = r.x0;
        while x < r.x1
            invariant
                is_function(*blend),
                start.len() == w * h <= usize::MAX,
                buf@.len() == start.len(),
                wi == w,
                r.fits(w as int, h),
                r.x0 <= x <= r.x1,
                r.y0 <= y < r.y1,
                last_x == (if r.wide() - 1 > 1 {
                    r.wide() - 1
                } else {
                    1
                }),
                last_y == (if r.high() - 1 > 1 {
                    r.high() - 1
                } else {
                    1
                }),
                forall|i: int|
                    0 <= i < start.len() ==> #[trigger] buf@[i] == (if r.contains(i % wi, i / wi)
                        && (i / wi < y || (i / wi == y && i % wi < x)) {
                        blended_value(r, corners, *blend, i % wi, i / wi)
                    } else {
                        start[i]
                    }),
            decreases r.x1 - x,
        {
            proof {
                lemma_index_in_frame(wi, h, x as int, y as int);
                lemma_index_to_pixel(wi, x as int, y as int);
            }
            let idx: usize = y * w + x;
            let ghost before = buf@;
            buf.set(idx, evaluate(blend, (corners, x - r.x0, y - r.y0, last_x, last_y)));
            proof {
                assert forall|i: int| 0 <= i < start.len() implies #[trigger] buf@[i] == (
                if r.contains(i % wi, i / wi) && (i / wi < y || (i / wi == y && i % wi < x + 1)) {
                    blended_value(r, corners, *blend, i % wi, i / wi)
                } else {
                    start[i]
                }) by {
                    lemma_pixel_of_index(wi, h, i);
                    assert(before[i] == before[i]);
                    if i % wi == x && i / wi == y {
                        assert(i == idx);
                    }
                }
            }
            x = x + 1;
        }
        y = y + 1;
    }
    assert(buf@ =~= with_blend(start, wi, r, corners, *blend));
}

/// Fills `r` by subdivision with distance culling.
fn ms_fill_dem<
    F: Fn((usize, usize)) -> u32,
    C: Fn((usize, usize, usize, usize)) -> (u32, bool),
    A: Fn((u32, u32)) -> bool,
    B: Fn(([u32; 4], usize, usize, usize, usize)) -> u32,
>(
    buf: &mut Vec<u32>,
    w: usize,
    Ghost(h): Ghost<int>,
    r: Rect,
    max_iter: u32,
    sample: &F,
    corner: &C,
    apart: &A,
    blend: &B,
)
    requires
        is_function(*sample),
        is_function(*corner),
        is_function(*apart),
        is_function(*blend),
        old(buf)@.len() == w * h <= usize::MAX,
        r.fits(w as int, h),
    ensures
        final(buf)@ == filled_dem(
            old(buf)@,
            w as int,
            r,
            max_iter,
            *sample,
            *corner,
            *apart,
            *blend,
        ),
        final(buf)@.len() == old(buf)@.len(),
    decreases r.x1 - r.x0 + r.y1 - r.y0,
{
    let rw: usize = r.x1 - r.x0;
    let rh: usize = r.y1 - r.y0;
    if rw <= MS_MIN || rh <= MS_MIN {
        ms_fill(buf, w, Ghost(h), r, sample);
        proof {
            lemma_filled_len(old(buf)@, w as int, r, *sample);
        }
        return;
    }
    match cull(r, max_iter, corner, apart) {
        Some(corners) => {
            fill_blend(buf, w, Ghost(h), r, corners, blend);
            return;
        },
        None => {},
    }
    trace_border(buf, w, Ghost(h), r, sample);
    if has_uniform_border(buf, w, Ghost(h), r) {
        proof {
            lemma_index_in_frame(w as int, h, r.x0 as int, r.y0 as int);
        }
        let border_val: u32 = buf[r.y0 * w + r.x0];
        fill_inside(buf, w, Ghost(h), r, border_val);
    } else if rw >= rh {
        let mid: usize = r.x0 + rw / 2;
        let left = Rect { x1: mid, ..r };
        let right = Rect { x0: mid, ..r };
        ms_fill_dem(buf, w, Ghost(h), left, max_iter, sample, corner, apart, blend);
        ms_fill_dem(buf, w, Ghost(h), right, max_iter, sample, corner, apart, blend);
    } else {
        let mid: usize = r.y0 + rh / 2;
        let upper = Rect { y1: mid, ..r };
        let lower = Rect { y0: mid, ..r };
        ms_fill_dem(buf, w, Ghost(h), upper, max_iter, sample, corner, apart, blend);
        ms_fill_dem(buf, w, Ghost(h), lower, max_iter, sample, corner, apart, blend);
    }
}

/// Renders the frame of `vp` by subdivision, filling a rectangle that is far
/// from the boundary of the Mandelbrot set by interpolation between its corners.
/// The other fractals have no distance estimator and are subdivided as usual.
///
/// `corner` answers `(x, y, w, h)` with the value of the pixel `(x, y)` and
/// whether it is too close to the boundary to stand for `w` by `h` pixels;
/// `apart` answers whether the larger value is far above the smaller; `blend`
/// answers the value at an offset between four corner values.
pub fn render_mariani_silver_dem<
    F: Fn((usize, usize)) -> u32,
    C: Fn((usize, usize, usize, usize)) -> (u32, bool),
    A: Fn((u32, u32)) -> bool,
    B: Fn(([u32; 4], usize, usize, usize, usize)) -> u32,
>(
    vp: &Viewport,
    fractal: FractalType,
    max_iter: u32,
    sample: &F,
    corner: &C,
    apart: &A,
    blend: &B,
) -> (buf: IterBuf)
    requires
        vp.width <= usize::MAX,
        vp.height <= usize::MAX,
        vp.width * vp.height <= usize::MAX,
        is_function(*sample),
        is_function(*corner),
        is_function(*apart),
        is_function(*blend),
    ensures
        fractal == FractalType::Mandelbrot ==> buf@ == filled_dem(
            blank((vp.width * vp.height) as nat),
            vp.width as int,
            whole(*vp),
            max_iter,
            *sample,
            *corner,
            *apart,
            *blend,
        ),
        fractal != FractalType::Mandelbrot ==> buf@ == filled(
            blank((vp.width * vp.height) as nat),
            vp.width as int,
            whole(*vp),
            *sample,
        ),
{
    if fractal != FractalType::Mandelbrot {
        return render_mariani_silver(vp, sample);
    }
    let w: usize = vp.width as usize;
    let h: usize = vp.height as usize;
    let mut buf: Vec<u32> = vec![SINGLE_NAN; w * h];
    assert(buf@ =~= blank((w * h) as nat));
    let all = Rect { x0: 0, y0: 0, x1: w, y1: h };
    ms_fill_dem(&mut buf, w, Ghost(h as int), all, max_iter, sample, corner, apart, blend);
    buf
}

/// Where no rectangle can be culled, culling changes nothing.
pub proof fn law_without_culling_nothing_changes<
    F: Fn((usize, usize)) -> u32,
    C: Fn((usize, usize, usize, usize)) -> (u32, bool),
    A: Fn((u32, u32)) -> bool,
    B: Fn(([u32; 4], usize, usize, usize, usize)) -> u32,
>(buf: Seq<u32>, w: int, r: Rect, max_iter: u32, sample: F, corner: C, apart: A, blend: B)
    requires
        forall|q: Rect| !#[trigger] is_culled(q, max_iter, corner, apart),
    ensures
        filled_dem(buf, w, r, max_iter, sample, corner, apart, blend) == filled(
            buf,
            w,
            r,
            sample,
        ),
    decreases r.wide() + r.high(),
{
    if !r.small() {
        assert(!is_culled(r, max_iter, corner, apart));
        let traced = with_border(buf, w, r, sample);
        if !uniform_border(traced, w, r) {
            law_without_culling_nothing_changes(
                traced,
                w,
                r.first_half(),
                max_iter,
                sample,
                corner,
                apart,
                blend,
            );
            law_without_culling_nothing_changes(
                filled(traced, w, r.first_half(), sample),
                w,
                r.second_half(),
                max_iter,
                sample,
                corner,
                apart,
                blend,
            );
        }
    }
}

/// Filling a rectangle with culling leaves the rest of the frame as it was.
pub proof fn law_culled_filling_stays_in_rectangle<
    F: Fn((usize, usize)) -> u32,
    C: Fn((usize, usize, usize, usize)) -> (u32, bool),
    A: Fn((u32, u32)) -> bool,
    B: Fn(([u32; 4], usize, usize, usize, usize)) -> u32,
>(
    buf: Seq<u32>,
    w: int,
    h: int,
    r: Rect,
    max_iter: u32,
    sample: F,
    corner: C,
    apart: A,
    blend: B,
)
    requires
        buf.len() == w * h,
        r.fits(w, h),
    ensures
        filled_dem(buf, w, r, max_iter, sample, corner, apart, blend).len() == buf.len(),
        forall|x: int, y: int|
            in_frame(w, h, x, y) && !r.contains(x, y) ==> #[trigger] at(
                filled_dem(buf, w, r, max_iter, sample, corner, apart, blend),
                w,
                x,
                y,
            ) == at(buf, w, x, y),
    decreases r.wide() + r.high(),
{
    let out = filled_dem(buf, w, r, max_iter, sample, corner, apart, blend);
    let traced = with_border(buf, w, r, sample);
    let half = filled_dem(traced, w, r.first_half(), max_iter, sample, corner, apart, blend);
    if r.small() {
        law_filling_stays_in_rectangle(buf, w, h, r, sample);
    } else {
        let recurse = !is_culled(r, max_iter, corner, apart) && !uniform_border(traced, w, r);
        if recurse {
            law_culled_filling_stays_in_rectangle(
                traced,
                w,
                h,
                r.first_half(),
                max_iter,
                sample,
                corner,
                apart,
                blend,
            );
            law_culled_filling_stays_in_rectangle(
                half,
                w,
                h,
                r.second_half(),
                max_iter,
                sample,
                corner,
                apart,
                blend,
            );
        }
        assert forall|x: int, y: int|
            in_frame(w, h, x, y) && !r.contains(x, y) implies #[trigger] at(out, w, x, y) == at(
            buf,
            w,
            x,
            y,
        ) by {
            lemma_index_in_frame(w, h, x, y);
            lemma_index_to_pixel(w, x, y);
            if recurse {
                assert(at(half, w, x, y) == at(traced, w, x, y));
            }
        }
    }
}

/// With culling too, a pixel that is already computed is written again only where
/// a rectangle that holds it is culled.
pub proof fn law_only_culling_overwrites<
    F: Fn((usize, usize)) -> u32,
    C: Fn((usize, usize, usize, usize)) -> (u32, bool),
    A: Fn((u32, u32)) -> bool,
    B: Fn(([u32; 4], usize, usize, usize, usize)) -> u32,
>(
    buf: Seq<u32>,
    w: int,
    h: int,
    r: Rect,
    max_iter: u32,
    sample: F,
    corner: C,
    apart: A,
    blend: B,
)
    requires
        buf.len() == w * h,
        r.fits(w, h),
    ensures
        forall|x: int, y: int|
            in_frame(w, h, x, y) && !single_is_nan_spec(#[trigger] at(buf, w, x, y)) ==> at(
                filled_dem(buf, w, r, max_iter, sample, corner, apart, blend),
                w,
                x,
                y,
            ) == at(buf, w, x, y) || is_in_culled(x, y, max_iter, corner, apart),
    decreases r.wide() + r.high(),
{
    let out = filled_dem(buf, w, r, max_iter, sample, corner, apart, blend);
    let traced = with_border(buf, w, r, sample);
    let a = r.first_half();
    let b = r.second_half();
    let half = filled_dem(traced, w, a, max_iter, sample, corner, apart, blend);
    let culled = is_culled(r, max_iter, corner, apart);
    let recurse = !r.small() && !culled && !uniform_border(traced, w, r);
    if r.small() {
        law_computed_pixels_are_kept(buf, w, h, r, sample);
    }
    if recurse {
        law_culled_filling_stays_in_rectangle(
            traced,
            w,
            h,
            a,
            max_iter,
            sample,
            corner,
            apart,
            blend,
        );
        law_only_culling_overwrites(traced, w, h, a, max_iter, sample, corner, apart, blend);
        law_only_culling_overwrites(half, w, h, b, max_iter, sample, corner, apart, blend);
    }
    assert forall|x: int, y: int|
        in_frame(w, h, x, y) && !single_is_nan_spec(#[trigger] at(buf, w, x, y)) implies at(
        out,
        w,
        x,
        y,
    ) == at(buf, w, x, y) || is_in_culled(x, y, max_iter, corner, apart) by {
        lemma_index_in_frame(w, h, x, y);
        lemma_index_to_pixel(w, x, y);
        if !r.small() {
            assert(at(traced, w, x, y) == at(buf, w, x, y));
            if recurse {
                assert(at(half, w, x, y) == at(traced, w, x, y) || is_in_culled(
                    x,
                    y,
                    max_iter,
                    corner,
                    apart,
                ));
            } else if culled && r.contains(x, y) {
                assert(is_culled(r, max_iter, corner, apart));
            }
        }
    }
}

/// The pixel lies in a rectangle that is culled.
pub open spec fn is_in_culled<
    C: Fn((usize, usize, usize, usize)) -> (u32, bool),
    A: Fn((u32, u32)) -> bool,
>(x: int, y: int, max_iter: u32, corner: C, apart: A) -> bool {
    exists|q: Rect| #[trigger] is_culled(q, max_iter, corner, apart) && q.contains(x, y)
}

/// A subdivided frame of a root-finding map has every pixel: where `sample`
/// answers what the orbit of `start` shows, no pixel stays missing.
pub proof fn law_subdivided_root_finding_frame_is_complete<
    F: Fn((usize, usize)) -> u32,
    S,
    E: Fn(S) -> bool,
    A: Fn(S) -> (S, bool),
>(
    vp: Viewport,
    sample: F,
    full: Seq<u32>,
    start: spec_fn(int, int) -> S,
    max_iter: u32,
    stuck: E,
    advance: A,
)
    requires
        vp.width <= usize::MAX,
        vp.height <= usize::MAX,
        is_picture(full, vp.width as int, vp.height as int, sample),
        forall|x: int, y: int|
            in_frame(vp.width as int, vp.height as int, x, y) ==> #[trigger] sampled(sample, x, y)
                == settled_value(
                outcome(start(x, y), 0, max_iter as int, stuck, advance),
                max_iter,
            ),
    ensures
        ({
            let w = vp.width as int;
            let h = vp.height as int;
            let out = filled(blank((vp.width * vp.height) as nat), w, whole(vp), sample);
            forall|x: int, y: int|
                in_frame(w, h, x, y) ==> !single_is_nan_spec(#[trigger] at(out, w, x, y))
        }),
{
    assert forall|x: int, y: int|
        in_frame(vp.width as int, vp.height as int, x, y) implies !single_is_nan_spec(
        #[trigger] sampled(sample, x, y),
    ) by {
        law_settling_kernels_answer_numbers(
            outcome(start(x, y), 0, max_iter as int, stuck, advance),
            max_iter,
        );
    }
    law_subdivided_frame_is_complete(vp, sample, full);
}

/// The value that pixel `(x, y)` shows once it is computed: the one it has, and if
/// it is missing what `sample` answers.
pub open spec fn shown_at<F: Fn((usize, usize)) -> u32>(
    buf: Seq<u32>,
    w: int,
    sample: F,
    x: int,
    y: int,
) -> u32 {
    if single_is_nan_spec(buf[y * w + x]) {
        value_of(sample, (x as usize, y as usize))
    } else {
        buf[y * w + x]
    }
}

/// Tracing a border computes the missing pixels of the outermost ring, and no other.
pub proof fn law_tracing_computes_the_border<F: Fn((usize, usize)) -> u32>(
    buf: Seq<u32>,
    w: int,
    h: int,
    r: Rect,
    sample: F,
    x: int,
    y: int,
)
    requires
        buf.len() == w * h,
        0 <= x < w,
        0 <= y < h,
    ensures
        with_border(buf, w, r, sample).len() == buf.len(),
        ({
            let in_rect = r.x0 <= x < r.x1 && r.y0 <= y < r.y1;
            let on_edge = x == r.x0 || x == r.x1 - 1 || y == r.y0 || y == r.y1 - 1;
            let v = with_border(buf, w, r, sample)[y * w + x];
            &&& in_rect && on_edge ==> v == shown_at(buf, w, sample, x, y)
            &&& !(in_rect && on_edge) ==> v == buf[y * w + x]
        }),
{
    lemma_index_in_frame(w, h, x, y);
    lemma_index_to_pixel(w, x, y);
}

/// A rectangle at most two pixels wide or high is computed pixel by pixel: each of
/// its missing pixels shows what `sample` answers for it.
pub proof fn law_thin_rectangle_is_computed<F: Fn((usize, usize)) -> u32>(
    buf: Seq<u32>,
    w: int,
    h: int,
    r: Rect,
    sample: F,
    x: int,
    y: int,
)
    requires
        buf.len() == w * h,
        r.x0 <= r.x1 <= w,
        r.y0 <= r.y1 <= h,
        r.x1 <= r.x0 + 2 || r.y1 <= r.y0 + 2,
        r.x0 <= x < r.x1,
        r.y0 <= y < r.y1,
    ensures
        filled(buf, w, r, sample)[y * w + x] == shown_at(buf, w, sample, x, y),
{
    lemma_index_in_frame(w, h, x, y);
    lemma_index_to_pixel(w, x, y);
}

/// A larger rectangle whose border shows one number all round is filled with it:
/// each pixel of the border shows its own value, and each missing pixel inside the
/// value of the first corner.
pub proof fn law_rectangle_of_one_border_value_is_filled<F: Fn((usize, usize)) -> u32>(
    buf: Seq<u32>,
    w: int,
    h: int,
    r: Rect,
    sample: F,
    x: int,
    y: int,
)
    requires
        buf.len() == w * h,
        r.x1 <= w,
        r.y1 <= h,
        r.x0 + 2 < r.x1,
        r.y0 + 2 < r.y1,
        forall|u: int, v: int|
            r.x0 <= u < r.x1 && r.y0 <= v < r.y1 && (u == r.x0 || u == r.x1 - 1 || v == r.y0 || v
                == r.y1 - 1) ==> single_eq_spec(
                #[trigger] shown_at(buf, w, sample, u, v),
                shown_at(buf, w, sample, r.x0 as int, r.y0 as int),
            ),
        r.x0 <= x < r.x1,
        r.y0 <= y < r.y1,
    ensures
        ({
            let on_edge = x == r.x0 || x == r.x1 - 1 || y == r.y0 || y == r.y1 - 1;
            let v = filled(buf, w, r, sample)[y * w + x];
            &&& on_edge ==> v == shown_at(buf, w, sample, x, y)
            &&& !on_edge && single_is_nan_spec(buf[y * w + x]) ==> v == shown_at(
                buf,
                w,
                sample,
                r.x0 as int,
                r.y0 as int,
            )
            &&& !on_edge && !single_is_nan_spec(buf[y * w + x]) ==> v == buf[y * w + x]
        }),
{
    let traced = with_border(buf, w, r, sample);
    assert forall|u: int, v: int| r.contains(u, v) implies #[trigger] at(traced, w, u, v) == (
    if r.on_border(u, v) {
        shown_at(buf, w, sample, u, v)
    } else {
        buf[v * w + u]
    }) by {
        law_tracing_computes_the_border(buf, w, h, r, sample, u, v);
    }
    assert(r.on_border(r.x0 as int, r.y0 as int));
    assert(uniform_border(traced, w, r)) by {
        assert forall|u: int, v: int| r.on_border(u, v) implies single_eq_spec(
            #[trigger] at(traced, w, u, v),
            at(traced, w, r.x0 as int, r.y0 as int),
        ) by {
            assert(at(traced, w, u, v) == shown_at(buf, w, sample, u, v));
        }
    }
    assert(at(traced, w, x, y) == traced[y * w + x]);
    lemma_index_in_frame(w, h, x, y);
    lemma_index_to_pixel(w, x, y);
}

/// A larger rectangle with two numbers on its border is cut across its longer side
/// (upright if it is square), in the middle or one pixel before it, and its halves
/// are filled one after the other, once its border is traced.
pub proof fn law_rectangle_of_two_border_values_is_halved<F: Fn((usize, usize)) -> u32>(
    buf: Seq<u32>,
    w: int,
    h: int,
    r: Rect,
    sample: F,
    u: int,
    v: int,
    a: Rect,
    b: Rect,
)
    requires
        buf.len() == w * h,
        r.x1 <= w,
        r.y1 <= h,
        r.x0 + 2 < r.x1,
        r.y0 + 2 < r.y1,
        r.x0 <= u < r.x1,
        r.y0 <= v < r.y1,
        u == r.x0 || u == r.x1 - 1 || v == r.y0 || v == r.y1 - 1,
        !single_eq_spec(
            shown_at(buf, w, sample, u, v),
            shown_at(buf, w, sample, r.x0 as int, r.y0 as int),
        ),
        are_halves_of(r, a, b),
    ensures
        filled(buf, w, r, sample) == filled(
            filled(with_border(buf, w, r, sample), w, a, sample),
            w,
            b,
            sample,
        ),
{
    let traced = with_border(buf, w, r, sample);
    law_tracing_computes_the_border(buf, w, h, r, sample, u, v);
    law_tracing_computes_the_border(buf, w, h, r, sample, r.x0 as int, r.y0 as int);
    assert(r.on_border(u, v));
    assert(!single_eq_spec(at(traced, w, u, v), at(traced, w, r.x0 as int, r.y0 as int)));
    assert(a == r.first_half() && b == r.second_half());
}

/// `a` and `b` are the halves of `r`: side by side if it is at least as wide as it
/// is high, else one above the other; the first has half of the pixels of the side
/// that is cut, rounded down.
pub open spec fn are_halves_of(r: Rect, a: Rect, b: Rect) -> bool {
    if r.x1 - r.x0 >= r.y1 - r.y0 {
        &&& a.x0 == r.x0 && a.y0 == r.y0 && a.y1 == r.y1
        &&& b.x1 == r.x1 && b.y0 == r.y0 && b.y1 == r.y1
        &&& a.x1 == b.x0 && a.x1 == r.x0 + (r.x1 - r.x0) / 2
    } else {
        &&& a.y0 == r.y0 && a.x0 == r.x0 && a.x1 == r.x1
        &&& b.y1 == r.y1 && b.x0 == r.x0 && b.x1 == r.x1
        &&& a.y1 == b.y0 && a.y1 == r.y0 + (r.y1 - r.y0) / 2
    }
}

/// The extremes of four corner values enclose all of them that are numbers, and are among
/// these; with none they are the two infinities.
pub proof fn law_extremes_enclose_the_corners(c: Seq<(u32, bool)>)
    requires
        c.len() == 4,
    ensures
        forall|i: int|
            0 <= i < 4 && !single_is_nan_spec(#[trigger] c[i].0) ==> single_ge_spec(
                extremes(c).0,
                c[i].0,
            ) && single_ge_spec(c[i].0, extremes(c).1),
        extremes(c).0 == 0xff80_0000 || exists|i: int|
            0 <= i < 4 && extremes(c).0 == #[trigger] c[i].0,
        extremes(c).1 == 0x7f80_0000 || exists|i: int|
            0 <= i < 4 && extremes(c).1 == #[trigger] c[i].0,
        !single_is_nan_spec(extremes(c).0) && !single_is_nan_spec(extremes(c).1),
{
    assert(!single_is_nan_spec(SINGLE_NEG_INFINITY) && !single_is_nan_spec(SINGLE_INFINITY));
    let (hi, lo) = extremes(c);
    assert(hi == 0xff80_0000 || hi == c[0].0 || hi == c[1].0 || hi == c[2].0 || hi == c[3].0);
    assert(lo == 0x7f80_0000 || lo == c[0].0 || lo == c[1].0 || lo == c[2].0 || lo == c[3].0);
}

/// A rectangle is culled exactly if each of its four corner pixels has a value below
/// the limit, none is too close to the boundary for a rectangle of its width and
/// height, and the largest and the smallest of the values are not apart.
pub proof fn law_culling_needs_four_safe_corners<
    C: Fn((usize, usize, usize, usize)) -> (u32, bool),
    A: Fn((u32, u32)) -> bool,
>(r: Rect, max_iter: u32, corner: C, apart: A)
    requires
        r.x0 < r.x1,
        r.y0 < r.y1,
    ensures
        ({
            let w = (r.x1 - r.x0) as usize;
            let h = (r.y1 - r.y0) as usize;
            let c = seq![
                value_of(corner, (r.x0, r.y0, w, h)),
                value_of(corner, ((r.x1 - 1) as usize, r.y0, w, h)),
                value_of(corner, (r.x0, (r.y1 - 1) as usize, w, h)),
                value_of(corner, ((r.x1 - 1) as usize, (r.y1 - 1) as usize, w, h)),
            ];
            is_culled(r, max_iter, corner, apart) <==> (forall|i: int|
                0 <= i < 4 ==> !single_ge_spec(#[trigger] c[i].0, single_of(max_iter)) && !c[i].1)
                && !value_of(apart, extremes(c))
        }),
{
    let w = (r.x1 - r.x0) as usize;
    let h = (r.y1 - r.y0) as usize;
    let c = seq![
        value_of(corner, (r.x0, r.y0, w, h)),
        value_of(corner, ((r.x1 - 1) as usize, r.y0, w, h)),
        value_of(corner, (r.x0, (r.y1 - 1) as usize, w, h)),
        value_of(corner, ((r.x1 - 1) as usize, (r.y1 - 1) as usize, w, h)),
    ];
    assert(corner_answers(r, corner) =~= c);
    if is_culled(r, max_iter, corner, apart) {
        assert forall|i: int| 0 <= i < 4 implies !single_ge_spec(
            #[trigger] c[i].0,
            single_of(max_iter),
        ) && !c[i].1 by {
            assert(i == 0 || i == 1 || i == 2 || i == 3);
        }
    } else {
        assert(!value_of(apart, extremes(c)) ==> exists|i: int|
            0 <= i < 4 && (single_ge_spec(#[trigger] c[i].0, single_of(max_iter)) || c[i].1)) by {
            assert(c[0] == c[0] && c[1] == c[1] && c[2] == c[2] && c[3] == c[3]);
            if is_safe_corner(c[0], max_iter) && is_safe_corner(c[1], max_iter) && is_safe_corner(
                c[2],
                max_iter,
            ) {
                assert(!value_of(apart, extremes(c)) ==> !is_safe_corner(c[3], max_iter));
            }
        }
    }
}

/// How a rectangle is filled with culling. One at most two pixels wide or high, or
/// one that is not culled and shows one number on its border, is filled as without.
/// A larger one that is culled is blended: each of its pixels shows what `blend`
/// answers for the values of the four corners, the pixel's offset in the rectangle
/// and the offset of the last corner. Any other is traced and halved.
pub proof fn law_culled_rectangle_is_blended<
    F: Fn((usize, usize)) -> u32,
    C: Fn((usize, usize, usize, usize)) -> (u32, bool),
    A: Fn((u32, u32)) -> bool,
    B: Fn(([u32; 4], usize, usize, usize, usize)) -> u32,
>(
    buf: Seq<u32>,
    w: int,
    h: int,
    r: Rect,
    max_iter: u32,
    sample: F,
    corner: C,
    apart: A,
    blend: B,
    x: int,
    y: int,
    a: Rect,
    b: Rect,
)
    requires
        buf.len() == w * h,
        r.x0 <= r.x1 <= w,
        r.y0 <= r.y1 <= h,
        r.x0 <= x < r.x1,
        r.y0 <= y < r.y1,
        are_halves_of(r, a, b),
    ensures
        ({
            let out = filled_dem(buf, w, r, max_iter, sample, corner, apart, blend);
            let thin = r.x1 <= r.x0 + 2 || r.y1 <= r.y0 + 2;
            let culled = is_culled(r, max_iter, corner, apart);
            let traced = with_border(buf, w, r, sample);
            let wide = (r.x1 - r.x0) as usize;
            let high = (r.y1 - r.y0) as usize;
            &&& thin || (!culled && uniform_border(traced, w, r)) ==> out == filled(
                buf,
                w,
                r,
                sample,
            )
            &&& !thin && culled ==> out[y * w + x] == value_of(
                blend,
                (
                    [
                        value_of(corner, (r.x0, r.y0, wide, high)).0,
                        value_of(corner, ((r.x1 - 1) as usize, r.y0, wide, high)).0,
                        value_of(corner, (r.x0, (r.y1 - 1) as usize, wide, high)).0,
                        value_of(corner, ((r.x1 - 1) as usize, (r.y1 - 1) as usize, wide, high)).0,
                    ],
                    (x - r.x0) as usize,
                    (y - r.y0) as usize,
                    (wide - 1) as usize,
                    (high - 1) as usize,
                ),
            )
            &&& !thin && !culled && !uniform_border(traced, w, r) ==> out == filled_dem(
                filled_dem(traced, w, a, max_iter, sample, corner, apart, blend),
                w,
                b,
                max_iter,
                sample,
                corner,
                apart,
                blend,
            )
        }),
{
    lemma_index_in_frame(w, h, x, y);
    lemma_index_to_pixel(w, x, y);
    assert(a == r.first_half() && b == r.second_half());
}

/// A rendered frame starts with every pixel missing and is filled as a whole.
pub proof fn law_rendering_starts_from_nothing(vp: Viewport, n: nat, i: int)
    requires
        vp.width <= usize::MAX,
        vp.height <= usize::MAX,
        0 <= i < n,
    ensures
        blank(n).len() == n,
        single_is_nan_spec(blank(n)[i]),
        whole(vp).x0 == 0 && whole(vp).y0 == 0,
        whole(vp).x1 == vp.width && whole(vp).y1 == vp.height,
{
}

} // verus!
