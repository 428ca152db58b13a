//! Row-parallel rendering of a frame from a per-pixel kernel.
//!
//! A kernel answers the escape-time value of a pixel as the bit pattern of a
//! single-precision number. What the kernel computes is the caller's; the
//! renderers here are proved for every kernel.

use crate::float_bits::{single_floor, single_ge, single_ge_spec, single_of, single_to_u32, single_to_u32_spec, u32_to_single};
use crate::fractal::fractal_type::FractalType;
use crate::func::{evaluate, is_function, par_map, value_of};
use crate::grid::{at, in_frame, is_picture, join_rows, sampled};
use crate::gui::viewport::Viewport;
use vstd::prelude::*;

verus! {

/// The zoom, as the pattern of a double, from which single-precision kernels
/// are no longer exact enough: one million.
pub const F32_PRECISION_THRESHOLD: u64 = 0x412e_8480_0000_0000;

/// One escape-time value per pixel, row by row, each the bit pattern of a single.
pub type IterBuf = Vec<u32>;

/// The camera's frame has at least one column, and its pixels can be counted.
pub open spec fn has_frame(vp: Viewport) -> bool {
    &&& 0 < vp.width <= usize::MAX
    &&& vp.height <= usize::MAX
    &&& vp.width * vp.height <= usize::MAX
}

/// One row of the picture of `sample`.
pub(crate) fn sample_row<F: Fn((usize, usize)) -> u32>(w: usize, y: usize, sample: &F) -> (row: Vec<
    u32,
>)
    requires
        is_function(*sample),
    ensures
        row@.len() == w,
        forall|x: int| 0 <= x < w ==> #[trigger] row@[x] == sampled(*sample, x, y as int),
{
    let mut row: Vec<u32> = Vec::new();
    let mut x: usize = 0;
    while x < w
        invariant
            is_function(*sample),
            x <= w,
            row@.len() == x,
            forall|k: int| 0 <= k < x ==> #[trigger] row@[k] == sampled(*sample, k, y as int),
        decreases w - x,
    {
        row.push(evaluate(sample, (x, y)));
        x = x + 1;
    }
    row
}

/// Renders the frame of `vp`, with the rows spread over the thread pool.
pub fn render<F: Fn((usize, usize)) -> u32 + Sync>(vp: &Viewport, sample: &F) -> (buf: IterBuf)
    requires
        has_frame(*vp),
        is_function(*sample),
    ensures
        is_picture(buf@, vp.width as int, vp.height as int, *sample),
{
    let w: usize = vp.width as usize;
    let h: usize = vp.height as usize;
    let row = |y: usize| -> (r: Vec<u32>)
        ensures
            r@.len() == w,
            forall|x: int| 0 <= x < w ==> #[trigger] r@[x] == sampled(*sample, x, y as int),
        { sample_row(w, y, sample) };
    let rows = par_map(h, &row);
    proof {
        assert forall|y: int| 0 <= y < h implies (#[trigger] rows@[y])@.len() == w && (forall|x: int|
            0 <= x < w ==> #[trigger] rows@[y]@[x] == sampled(*sample, x, y)) by {
            assert(call_ensures(row, (y as usize,), rows@[y]));
        }
    }
    join_rows(&rows, w)
}

/// What a pixel shows when its kernel is first run with the iteration limit
/// `cap`, and run again with the full limit only where the first run hit `cap`.
pub open spec fn capped_value<F: Fn((usize, usize, u32)) -> u32>(
    compute: F,
    x: int,
    y: int,
    cap: u32,
    true_max: u32,
) -> u32 {
    let guess = value_of(compute, (x as usize, y as usize, cap));
    if single_ge_spec(guess, single_of(cap)) && cap < true_max {
        value_of(compute, (x as usize, y as usize, true_max))
    } else {
        guess
    }
}

/// Runs the kernel with the limit `cap`, and with the full limit where that hits `cap`.
pub fn compute_capped<F: Fn((usize, usize, u32)) -> u32>(
    compute: &F,
    x: usize,
    y: usize,
    cap: u32,
    true_max: u32,
) -> (v: u32)
    requires
        is_function(*compute),
    ensures
        v == capped_value(*compute, x as int, y as int, cap, true_max),
{
    let guess: u32 = evaluate(compute, (x, y, cap));
    if single_ge(guess, u32_to_single(cap)) && cap < true_max {
        evaluate(compute, (x, y, true_max))
    } else {
        guess
    }
}

/// The limit under which the right neighbour of a pixel of value `v` is tried first.
pub open spec fn next_cap(v: u32, slack: u32, max_iter: u32) -> u32 {
    if single_to_u32_spec(v) + slack < max_iter {
        (single_to_u32_spec(v) + slack) as u32
    } else {
        max_iter
    }
}

/// The limit under which pixel `x` of row `y` is tried first: the full one for
/// the first pixel, then `slack` above the value of the pixel on the left.
pub open spec fn cap_at<F: Fn((usize, usize, u32)) -> u32>(
    compute: F,
    x: nat,
    y: int,
    max_iter: u32,
    slack: u32,
) -> u32
    decreases x,
{
    if x == 0 {
        max_iter
    } else {
        let left = (x - 1) as nat;
        next_cap(
            capped_value(compute, left as int, y, cap_at(compute, left, y, max_iter, slack), max_iter),
            slack,
            max_iter,
        )
    }
}

/// The value that neighbour capping gives pixel `x` of row `y`.
pub open spec fn neighbor_capped<F: Fn((usize, usize, u32)) -> u32>(
    compute: F,
    x: int,
    y: int,
    max_iter: u32,
    slack: u32,
) -> u32 {
    capped_value(compute, x, y, cap_at(compute, x as nat, y, max_iter, slack), max_iter)
}

fn capped_row<F: Fn((usize, usize, u32)) -> u32>(
    w: usize,
    y: usize,
    compute: &F,
    max_iter: u32,
    slack: u32,
) -> (row: Vec<u32>)
    requires
        is_function(*compute),
    ensures
        row@.len() == w,
        forall|x: int|
            0 <= x < w ==> #[trigger] row@[x] == neighbor_capped(
                *compute,
                x,
                y as int,
                max_iter,
                slack,
            ),
{
    let mut row: Vec<u32> = Vec::new();
    let mut cap: u32 = max_iter;
    let mut x: usize = 0;
    while x < w
        invariant
            is_function(*compute),
            x <= w,
            cap == cap_at(*compute, x as nat, y as int, max_iter, slack),
            row@.len() == x,
            forall|k: int|
                0 <= k < x ==> #[trigger] row@[k] == neighbor_capped(
                    *compute,
                    k,
                    y as int,
                    max_iter,
                    slack,
                ),
        decreases w - x,
    {
        let v: u32 = compute_capped(compute, x, y, cap, max_iter);
        row.push(v);
        let raised: u32 = single_to_u32(v).saturating_add(slack);
        cap = if raised < max_iter {
            raised
        } else {
            max_iter
        };
        x = x + 1;
    }
    row
}

/// Renders the frame of `vp`, trying each pixel first with an iteration limit
/// taken from its left neighbour.
pub fn render_neighbor_capped<F: Fn((usize, usize, u32)) -> u32 + Sync>(
    vp: &Viewport,
    compute: &F,
    max_iter: u32,
    slack: u32,
) -> (buf: IterBuf)
    requires
        has_frame(*vp),
        is_function(*compute),
    ensures
        buf@.len() == vp.width * vp.height,
        forall|x: int, y: int|
            in_frame(vp.width as int, vp.height as int, x, y) ==> #[trigger] at(
                buf@,
                vp.width as int,
                x,
                y,
            ) == neighbor_capped(*compute, x, y, max_iter, slack),
{
    let w: usize = vp.width as usize;
    let h: usize = vp.height as usize;
    let row = |y: usize| -> (r: Vec<u32>)
        ensures
            r@.len() == w,
            forall|x: int|
                0 <= x < w ==> #[trigger] r@[x] == neighbor_capped(
                    *compute,
                    x,
                    y as int,
                    max_iter,
                    slack,
                ),
        { capped_row(w, y, compute, max_iter, slack) };
    let rows = par_map(h, &row);
    proof {
        assert forall|y: int| 0 <= y < h implies (#[trigger] rows@[y])@.len() == w && (forall|x: int|
            0 <= x < w ==> #[trigger] rows@[y]@[x] == neighbor_capped(
                *compute,
                x,
                y,
                max_iter,
                slack,
            )) by {
            assert(call_ensures(row, (y as usize,), rows@[y]));
        }
    }
    join_rows(&rows, w)
}

/// A kernel run with a lower limit that does not hit the limit answers what it
/// answers with the full limit.
pub open spec fn early_exit_is_exact<F: Fn((usize, usize, u32)) -> u32>(
    compute: F,
    max_iter: u32,
) -> bool {
    forall|x: usize, y: usize, cap: u32|
        cap < max_iter && !single_ge_spec(
            #[trigger] value_of(compute, (x, y, cap)),
            single_of(cap),
        ) ==> value_of(compute, (x, y, cap)) == value_of(compute, (x, y, max_iter))
}

/// Neighbour capping changes no pixel: for a kernel whose early exits are exact,
/// each pixel shows what the kernel answers with the full limit.
pub proof fn law_capping_changes_no_pixel<F: Fn((usize, usize, u32)) -> u32>(
    compute: F,
    x: usize,
    y: usize,
    max_iter: u32,
    slack: u32,
)
    requires
        early_exit_is_exact(compute, max_iter),
    ensures
        neighbor_capped(compute, x as int, y as int, max_iter, slack) == value_of(
            compute,
            (x, y, max_iter),
        ),
{
    assert(cap_at(compute, x as nat, y as int, max_iter, slack) <= max_iter);
}

/// The first pixel of every row is computed with the full limit.
pub proof fn law_first_pixel_is_uncapped<F: Fn((usize, usize, u32)) -> u32>(
    compute: F,
    y: usize,
    max_iter: u32,
    slack: u32,
)
    ensures
        neighbor_capped(compute, 0, y as int, max_iter, slack) == value_of(
            compute,
            (0usize, y, max_iter),
        ),
{
}

/// Floating-point operations in one iteration of `fractal`.
pub open spec fn flops(fractal: FractalType) -> u64 {
    match fractal {
        FractalType::Mandelbrot => 8,
        FractalType::Julia => 8,
        FractalType::Newton => 25,
        FractalType::Nova => 27,
    }
}

/// Floating-point operations in one iteration of `fractal`.
pub fn flops_per_iter(fractal: FractalType) -> (r: u64)
    ensures
        r == flops(fractal),
{
    match fractal {
        FractalType::Mandelbrot => 8,
        FractalType::Julia => 8,
        FractalType::Newton => 25,
        FractalType::Nova => 27,
    }
}

/// A row that is rendered with capping: the first pixel shows what the kernel
/// answers under the full limit. Any other is tried under the limit `cap`, which is
/// `slack` more than the whole iterations of its left neighbour but at most the full
/// limit, and shows what the kernel answers then; only where that hits a `cap` below
/// the full limit does it show what the kernel answers under the full limit.
pub proof fn law_capped_row_follows_its_left_neighbors<F: Fn((usize, usize, u32)) -> u32>(
    compute: F,
    x: nat,
    y: int,
    max_iter: u32,
    slack: u32,
    cap: u32,
)
    requires
        0 < x,
        ({
            let left = single_floor(
                neighbor_capped(compute, x - 1, y, max_iter, slack),
            );
            if left + slack < max_iter {
                cap == left + slack
            } else {
                cap == max_iter
            }
        }),
    ensures
        ({
            let tried = value_of(compute, (x as usize, y as usize, cap));
            let shown = neighbor_capped(compute, x as int, y, max_iter, slack);
            &&& cap < max_iter && single_ge_spec(tried, single_of(cap)) ==> shown == value_of(
                compute,
                (x as usize, y as usize, max_iter),
            )
            &&& cap == max_iter || !single_ge_spec(tried, single_of(cap)) ==> shown == tried
        }),
        neighbor_capped(compute, 0, y, max_iter, slack) == value_of(
            compute,
            (0usize, y as usize, max_iter),
        ),
{
}

/// A pixel shows one of the two answers of its kernel: that under the lower limit,
/// unless it hits this limit and there is a higher one.
pub proof fn law_capped_value_is_kept_or_computed_again<F: Fn((usize, usize, u32)) -> u32>(
    compute: F,
    x: usize,
    y: usize,
    cap: u32,
    true_max: u32,
)
    ensures
        ({
            let guess = value_of(compute, (x, y, cap));
            let shown = capped_value(compute, x as int, y as int, cap, true_max);
            &&& !single_ge_spec(guess, single_of(cap)) || true_max <= cap ==> shown == guess
            &&& single_ge_spec(guess, single_of(cap)) && cap < true_max ==> shown == value_of(
                compute,
                (x, y, true_max),
            )
        }),
{
}

/// What one iteration costs: the same for both quadratic maps, a little over three
/// times as much for a step of Newton's method, and two additions more where the
/// coordinate is added back.
pub proof fn law_cost_of_an_iteration(fractal: FractalType)
    ensures
        fractal.is_quadratic_spec() ==> flops(fractal) == 8,
        fractal == FractalType::Newton ==> flops(fractal) == 25,
        fractal == FractalType::Nova ==> flops(fractal) == flops(FractalType::Newton) + 2,
{
}

} // verus!
