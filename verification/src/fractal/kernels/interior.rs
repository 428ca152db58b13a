//! Rendering with two kernels for the Mandelbrot set: a cheaper one is tried
//! where the pixel on the left turned out to lie inside the set.

use crate::float_bits::{single_ge, single_ge_spec, single_of, u32_to_single};
use crate::fractal::fractal::{has_frame, render, IterBuf};
use crate::fractal::fractal_type::FractalType;
use crate::func::{evaluate, is_function, par_map, value_of};
use crate::grid::{at, in_frame, is_picture, join_rows, sampled};
use crate::gui::viewport::Viewport;
use vstd::prelude::*;

verus! {

/// Whether the pixel left of `x` shows a point inside the set. The first pixel of
/// a row has none on its left.
pub open spec fn interior_before<
    F: Fn((usize, usize)) -> u32,
    G: Fn((usize, usize)) -> u32,
>(usual: F, interior: G, max_iter: u32, x: nat, y: int) -> bool
    decreases x,
{
    if x == 0 {
        false
    } else {
        let left = (x - 1) as nat;
        let v = if interior_before(usual, interior, max_iter, left, y) {
            sampled(interior, left as int, y)
        } else {
            sampled(usual, left as int, y)
        };
        single_ge_spec(v, single_of(max_iter))
    }
}

/// What pixel `(x, y)` shows.
pub open spec fn biased_value<F: Fn((usize, usize)) -> u32, G: Fn((usize, usize)) -> u32>(
    usual: F,
    interior: G,
    max_iter: u32,
    x: int,
    y: int,
) -> u32 {
    if interior_before(usual, interior, max_iter, x as nat, y) {
        sampled(interior, x, y)
    } else {
        sampled(usual, x, y)
    }
}

fn biased_row<F: Fn((usize, usize)) -> u32, G: Fn((usize, usize)) -> u32>(
    w: usize,
    y: usize,
    usual: &F,
    interior: &G,
    max_iter: u32,
) -> (row: Vec<u32>)
    requires
        is_function(*usual),
        is_function(*interior),
    ensures
        row@.len() == w,
        forall|x: int|
            0 <= x < w ==> #[trigger] row@[x] == biased_value(
                *usual,
                *interior,
                max_iter,
                x,
                y as int,
            ),
{
    let limit: u32 = u32_to_single(max_iter);
    let mut row: Vec<u32> = Vec::new();
    let mut prev_interior: bool = false;
    let mut x: usize = 0;
    while x < w
        invariant
            is_function(*usual),
            is_function(*interior),
            limit == single_of(max_iter),
            x <= w,
            prev_interior == interior_before(*usual, *interior, max_iter, x as nat, y as int),
            row@.len() == x,
            forall|k: int|
                0 <= k < x ==> #[trigger] row@[k] == biased_value(
                    *usual,
                    *interior,
                    max_iter,
                    k,
                    y as int,
                ),
        decreases w - x,
    {
        let v: u32 = if prev_interior {
            evaluate(interior, (x, y))
        } else {
            evaluate(usual, (x, y))
        };
        prev_interior = single_ge(v, limit);
        row.push(v);
        x = x + 1;
    }
    row
}

/// Renders the Mandelbrot set with the kernel `interior` to the right of points
/// inside the set and with `usual` elsewhere. The other fractals have one kernel
/// only and are rendered with `usual`.
pub fn render_ide_biased<
    F: Fn((usize, usize)) -> u32 + Sync,
    G: Fn((usize, usize)) -> u32 + Sync,
>(vp: &Viewport, fractal: FractalType, max_iter: u32, usual: &F, interior: &G) -> (buf: IterBuf)
    requires
        has_frame(*vp),
        is_function(*usual),
        is_function(*interior),
    ensures
        fractal != FractalType::Mandelbrot ==> is_picture(
            buf@,
            vp.width as int,
            vp.height as int,
            *usual,
        ),
        buf@.len() == vp.width * vp.height,
        fractal == FractalType::Mandelbrot ==> forall|x: int, y: int|
            in_frame(vp.width as int, vp.height as int, x, y) ==> #[trigger] at(
                buf@,
                vp.width as int,
                x,
                y,
            ) == biased_value(*usual, *interior, max_iter, x, y),
{
    if fractal != FractalType::Mandelbrot {
        return render(vp, usual);
    }
    let w: usize = vp.width as usize;
    let h: usize = vp.height as usize;
    let row = |y: usize| -> (r: Vec<u32>)
        ensures
            r@.len() == w,
            forall|x: int|
                0 <= x < w ==> #[trigger] r@[x] == biased_value(
                    *usual,
                    *interior,
                    max_iter,
                    x,
                    y as int,
                ),
        { biased_row(w, y, usual, interior, max_iter) };
    let rows = par_map(h, &row);
    proof {
        assert forall|y: int| 0 <= y < h implies (#[trigger] rows@[y])@.len() == w && (forall|x: int|
            0 <= x < w ==> #[trigger] rows@[y]@[x] == biased_value(
                *usual,
                *interior,
                max_iter,
                x,
                y,
            )) by {
            assert(call_ensures(row, (y as usize,), rows@[y]));
        }
    }
    join_rows(&rows, w)
}

/// The bias changes no pixel for which both kernels give the same answer.
pub proof fn law_bias_changes_no_pixel<
    F: Fn((usize, usize)) -> u32,
    G: Fn((usize, usize)) -> u32,
>(usual: F, interior: G, max_iter: u32, x: int, y: int)
    requires
        sampled(usual, x, y) == sampled(interior, x, y),
    ensures
        biased_value(usual, interior, max_iter, x, y) == sampled(usual, x, y),
{
}

/// A row that is rendered with two kernels: the first pixel shows what the usual
/// one answers, and any other shows what the kernel for the interior answers if its
/// left neighbour shows at least the limit, and else what the usual one answers.
pub proof fn law_biased_row_follows_its_left_neighbors<
    F: Fn((usize, usize)) -> u32,
    G: Fn((usize, usize)) -> u32,
>(usual: F, interior: G, max_iter: u32, x: nat, y: int)
    requires
        0 < x,
    ensures
        biased_value(usual, interior, max_iter, 0, y) == value_of(usual, (0usize, y as usize)),
        single_ge_spec(
            biased_value(usual, interior, max_iter, x - 1, y),
            single_of(max_iter),
        ) ==> biased_value(usual, interior, max_iter, x as int, y) == value_of(
            interior,
            (x as usize, y as usize),
        ),
        !single_ge_spec(
            biased_value(usual, interior, max_iter, x - 1, y),
            single_of(max_iter),
        ) ==> biased_value(usual, interior, max_iter, x as int, y) == value_of(
            usual,
            (x as usize, y as usize),
        ),
{
}

} // verus!
