//! Reusing a frame after an axis-aligned pan: pixels that stay in the frame move
//! along, and only the strip that came into view is computed.

use crate::fractal::fractal::IterBuf;
use crate::func::{evaluate, is_function, par_map, value_of};
use crate::grid::{at, in_frame, is_picture, join_rows, lemma_index_in_frame, sampled};
use vstd::prelude::*;

verus! {

/// What pixel `(x, y)` shows once the frame moved by `(dx, dy)`.
pub open spec fn panned_value<F: Fn((usize, usize)) -> u32>(
    buf: Seq<u32>,
    w: int,
    h: int,
    dx: int,
    dy: int,
    sample: F,
    x: int,
    y: int,
) -> u32 {
    if in_frame(w, h, x - dx, y - dy) {
        at(buf, w, x - dx, y - dy)
    } else {
        sampled(sample, x, y)
    }
}

fn panned_row<F: Fn((usize, usize)) -> u32>(
    buf: &Vec<u32>,
    w: usize,
    h: usize,
    dx: i32,
    dy: i32,
    sample: &F,
    y: usize,
) -> (row: Vec<u32>)
    requires
        is_function(*sample),
        buf@.len() == w * h <= usize::MAX,
        y < h,
    ensures
        row@.len() == w,
        forall|x: int|
            0 <= x < w ==> #[trigger] row@[x] == panned_value(
                buf@,
                w as int,
                h as int,
                dx as int,
                dy as int,
                *sample,
                x,
                y as int,
            ),
{
    let from_y: i128 = y as i128 - dy as i128;
    let row_stays: bool = 0 <= from_y && from_y < h as i128;
    let mut row: Vec<u32> = Vec::new();
    let mut x: usize = 0;
    while x < w
        invariant
            is_function(*sample),
            buf@.len() == w * h <= usize::MAX,
            from_y == y - dy,
            row_stays == (0 <= from_y < h),
            x <= w,
            row@.len() == x,
            forall|k: int|
                0 <= k < x ==> #[trigger] row@[k] == panned_value(
                    buf@,
                    w as int,
                    h as int,
                    dx as int,
                    dy as int,
                    *sample,
                    k,
                    y as int,
                ),
        decreases w - x,
    {
        let from_x: i128 = x as i128 - dx as i128;
        if row_stays && 0 <= from_x && from_x < w as i128 {
            proof {
                lemma_index_in_frame(w as int, h as int, from_x as int, from_y as int);
            }
            row.push(buf[from_y as usize * w + from_x as usize]);
        } else {
            row.push(evaluate(sample, (x, y)));
        }
        x = x + 1;
    }
    row
}

/// Moves the frame by `dx` pixels to the right or `dy` pixels down, and computes
/// the pixels that came into view. One of the two is zero.
pub fn shift_and_fill<F: Fn((usize, usize)) -> u32 + Sync>(
    buf: &mut IterBuf,
    w: usize,
    h: usize,
    dx: i32,
    dy: i32,
    sample: &F,
)
    requires
        is_function(*sample),
        old(buf)@.len() == w * h,
        dx == 0 || dy == 0,
        -w < dx < w,
        -h < dy < h,
    ensures
        final(buf)@.len() == w * h,
        forall|x: int, y: int|
            in_frame(w as int, h as int, x, y) ==> #[trigger] at(final(buf)@, w as int, x, y)
                == panned_value(
                old(buf)@,
                w as int,
                h as int,
                dx as int,
                dy as int,
                *sample,
                x,
                y,
            ),
{
    if dx == 0 && dy == 0 {
        return;
    }
    assert(buf.len() == w * h);
    let moved: IterBuf = {
        let frame: &Vec<u32> = buf;
        let row = |y: usize| -> (r: Vec<u32>)
            requires
                y < h,
            ensures
                r@.len() == w,
                forall|x: int|
                    0 <= x < w ==> #[trigger] r@[x] == panned_value(
                        frame@,
                        w as int,
                        h as int,
                        dx as int,
                        dy as int,
                        *sample,
                        x,
                        y as int,
                    ),
            { panned_row(frame, w, h, dx, dy, sample, y) };
        let rows = par_map(h, &row);
        proof {
            assert forall|y: int| 0 <= y < h implies (#[trigger] rows@[y])@.len() == w && (forall|
                x: int,
            |
                0 <= x < w ==> #[trigger] rows@[y]@[x] == panned_value(
                    frame@,
                    w as int,
                    h as int,
                    dx as int,
                    dy as int,
                    *sample,
                    x,
                    y,
                )) by {
                assert(call_ensures(row, (y as usize,), rows@[y]));
            }
        }
        join_rows(&rows, w)
    };
    *buf = moved;
}

/// A frame that was exact before the pan is exact after it: if every pixel that
/// stays in the frame has the value that it had where it came from, moving and
/// filling gives the frame that rendering from nothing gives.
pub proof fn law_panned_frame_is_the_picture<
    F: Fn((usize, usize)) -> u32,
    G: Fn((usize, usize)) -> u32,
>(
    before: Seq<u32>,
    after: Seq<u32>,
    w: int,
    h: int,
    dx: int,
    dy: int,
    sample_before: F,
    sample: G,
)
    requires
        is_picture(before, w, h, sample_before),
        after.len() == w * h,
        forall|x: int, y: int|
            in_frame(w, h, x, y) ==> #[trigger] at(after, w, x, y) == panned_value(
                before,
                w,
                h,
                dx,
                dy,
                sample,
                x,
                y,
            ),
        forall|x: int, y: int|
            in_frame(w, h, x, y) && in_frame(w, h, x - dx, y - dy) ==> #[trigger] sampled(
                sample,
                x,
                y,
            ) == sampled(sample_before, x - dx, y - dy),
    ensures
        is_picture(after, w, h, sample),
{
    assert forall|x: int, y: int| in_frame(w, h, x, y) implies #[trigger] at(after, w, x, y)
        == sampled(sample, x, y) by {
        if in_frame(w, h, x - dx, y - dy) {
            assert(at(before, w, x - dx, y - dy) == sampled(sample_before, x - dx, y - dy));
            assert(sampled(sample, x, y) == sampled(sample_before, x - dx, y - dy));
        }
    }
}

/// Only the strip that came into view is computed: a pan by `dy` rows keeps all
/// pixels but those of `dy` rows, a pan by `dx` columns all but those of `dx`
/// columns.
pub proof fn law_only_the_strip_is_new(w: int, h: int, dx: int, dy: int, x: int, y: int)
    requires
        dx == 0 || dy == 0,
        in_frame(w, h, x, y),
    ensures
        dx == 0 && dy >= 0 ==> (in_frame(w, h, x - dx, y - dy) <==> y >= dy),
        dx == 0 && dy <= 0 ==> (in_frame(w, h, x - dx, y - dy) <==> y < h + dy),
        dy == 0 && dx >= 0 ==> (in_frame(w, h, x - dx, y - dy) <==> x >= dx),
        dy == 0 && dx <= 0 ==> (in_frame(w, h, x - dx, y - dy) <==> x < w + dx),
{
}

/// A pan moves values: where pixel `(x, y)` was in the frame before the move it
/// shows the value that it had there, `dy` rows and `dx` columns back, and else what
/// `sample` answers for it.
pub proof fn law_pan_moves_values<F: Fn((usize, usize)) -> u32>(
    buf: Seq<u32>,
    w: int,
    h: int,
    dx: int,
    dy: int,
    sample: F,
    x: int,
    y: int,
)
    ensures
        0 <= x - dx < w && 0 <= y - dy < h ==> panned_value(buf, w, h, dx, dy, sample, x, y) == buf[
            (y - dy) * w + (x - dx)],
        !(0 <= x - dx < w && 0 <= y - dy < h) ==> panned_value(
            buf,
            w,
            h,
            dx,
            dy,
            sample,
            x,
            y,
        ) == value_of(sample, (x as usize, y as usize)),
{
}

} // verus!
