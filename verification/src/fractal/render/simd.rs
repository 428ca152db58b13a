//! Rendering a frame with kernels that compute several neighbouring pixels of a
//! row at once. The columns left over at the end of a row are computed one by one.
//!
//! Only the fractals that iterate `z * z + c` have such kernels.

use crate::fractal::fractal::{has_frame, IterBuf};
use crate::fractal::fractal_type::FractalType;
use crate::fractal::kernels::lanes::block_shows;
use crate::func::{evaluate, is_function, par_map, value_of};
use crate::grid::{at, in_frame, is_picture, join_rows, lemma_same_frame, sampled};
use crate::gui::viewport::Viewport;
use vstd::prelude::*;

verus! {

/// The first pixel of the block of `n` neighbours that `x` lies in.
pub open spec fn block_start(x: int, n: int) -> int {
    x - x % n
}

/// The whole block of `x` lies in a row of `w` pixels.
pub open spec fn block_fits(x: int, n: int, w: int) -> bool {
    block_start(x, n) + n <= w
}

/// What `block` answers for pixel `(x, y)`: one lane of its answer for the block.
pub open spec fn lane<const N: usize, B: Fn((usize, usize)) -> [u32; N]>(
    block: B,
    x: int,
    y: int,
) -> u32 {
    value_of(block, (block_start(x, N as int) as usize, y as usize))[x % N as int]
}

/// The value of pixel `(x, y)` in a row of `w` pixels: from `block` where the
/// block fits, from `sample` in the columns left over.
pub open spec fn blockwise<
    const N: usize,
    B: Fn((usize, usize)) -> [u32; N],
    F: Fn((usize, usize)) -> u32,
>(block: B, sample: F, w: int, x: int, y: int) -> u32 {
    if block_fits(x, N as int, w) {
        lane(block, x, y)
    } else {
        sampled(sample, x, y)
    }
}

/// Appends whole blocks to a row for as long as they fit.
pub(crate) fn push_blocks<const N: usize, B: Fn((usize, usize)) -> [u32; N]>(
    row: &mut Vec<u32>,
    w: usize,
    x0: usize,
    y: usize,
    block: &B,
)
    requires
        is_function(*block),
        0 < N,
        old(row)@.len() <= w,
        old(row)@.len() % N as nat == 0,
        x0 + w <= usize::MAX,
    ensures
        final(row)@.len() <= w,
        w - final(row)@.len() < N,
        final(row)@.len() % N as nat == 0,
        old(row)@.len() <= final(row)@.len(),
        forall|x: int|
            0 <= x < old(row)@.len() ==> #[trigger] final(row)@[x] == old(row)@[x],
        forall|x: int|
            old(row)@.len() <= x < final(row)@.len() ==> #[trigger] final(row)@[x] == value_of(
                *block,
                ((x0 + block_start(x, N as int)) as usize, y),
            )[x % N as int],
{
    let ghost start = row@;
    let n: usize = N;
    let mut x: usize = row.len();
    while w - x >= n
        invariant
            is_function(*block),
            n == N,
            0 < N,
            x0 + w <= usize::MAX,
            x == row@.len(),
            x <= w,
            x as int % N as int == 0,
            start.len() <= x,
            forall|k: int| 0 <= k < start.len() ==> #[trigger] row@[k] == start[k],
            forall|k: int|
                start.len() <= k < x ==> #[trigger] row@[k] == value_of(
                    *block,
                    ((x0 + block_start(k, N as int)) as usize, y),
                )[k % N as int],
        decreases w - x,
    {
        let lanes: [u32; N] = evaluate(block, (x0 + x, y));
        let ghost before = row@;
        let mut k: usize = 0;
        while k < n
            invariant
                n == N,
                k <= n,
                before.len() == x,
                row@.len() == x + k,
                forall|j: int| 0 <= j < x ==> #[trigger] row@[j] == before[j],
                forall|j: int| x <= j < x + k ==> #[trigger] row@[j] == lanes[j - x],
            decreases n - k,
        {
            row.push(lanes[k]);
            k = k + 1;
        }
        proof {
            assert forall|j: int| x <= j < x + n implies #[trigger] row@[j] == value_of(
                *block,
                ((x0 + block_start(j, N as int)) as usize, y),
            )[j % N as int] by {
                vstd::arithmetic::div_mod::lemma_fundamental_div_mod(x as int, n as int);
                vstd::arithmetic::div_mod::lemma_fundamental_div_mod_converse(
                    j,
                    n as int,
                    x as int / n as int,
                    j - x,
                );
            }
            vstd::arithmetic::div_mod::lemma_mod_add_multiples_vanish(x as int, n as int);
        }
        x = x + n;
    }
}

/// Appends the columns left over to a row.
pub(crate) fn push_tail<F: Fn((usize, usize)) -> u32>(
    row: &mut Vec<u32>,
    w: usize,
    x0: usize,
    y: usize,
    sample: &F,
)
    requires
        is_function(*sample),
        old(row)@.len() <= w,
        x0 + w <= usize::MAX,
    ensures
        final(row)@.len() == w,
        forall|x: int|
            0 <= x < old(row)@.len() ==> #[trigger] final(row)@[x] == old(row)@[x],
        forall|x: int|
            old(row)@.len() <= x < w ==> #[trigger] final(row)@[x] == sampled(
                *sample,
                x0 + x,
                y as int,
            ),
{
    let ghost start = row@;
    let mut x: usize = row.len();
    while x < w
        invariant
            is_function(*sample),
            x0 + w <= usize::MAX,
            x == row@.len(),
            x <= w,
            start.len() <= x,
            forall|k: int| 0 <= k < start.len() ==> #[trigger] row@[k] == start[k],
            forall|k: int|
                start.len() <= k < x ==> #[trigger] row@[k] == sampled(*sample, x0 + k, y as int),
        decreases w - x,
    {
        row.push(evaluate(sample, (x0 + x, y)));
        x = x + 1;
    }
}

pub proof fn lemma_block_fits(x: int, n: int, w: int, full: int)
    requires
        0 < n,
        0 <= x,
        full % n == 0,
        0 <= full <= w,
        w - full < n,
    ensures
        block_fits(x, n, w) <==> x < full,
{
    let q = x / n;
    let f = full / n;
    vstd::arithmetic::div_mod::lemma_fundamental_div_mod(x, n);
    vstd::arithmetic::div_mod::lemma_fundamental_div_mod(full, n);
    assert(block_start(x, n) == n * q);
    assert(full == n * f);
    if x < full {
        assert(q < f) by (nonlinear_arith)
            requires
                n * q <= x < n * f,
                n > 0,
        ;
        assert(n * q + n <= n * f) by (nonlinear_arith)
            requires
                q + 1 <= f,
                n > 0,
        ;
    } else {
        assert(q >= f) by (nonlinear_arith)
            requires
                n * f <= x,
                x < n * q + n,
                n > 0,
        ;
        assert(n * q >= n * f) by (nonlinear_arith)
            requires
                q >= f,
                n > 0,
        ;
    }
}

fn block_row<const N: usize, B: Fn((usize, usize)) -> [u32; N], F: Fn((usize, usize)) -> u32>(
    w: usize,
    y: usize,
    block: &B,
    sample: &F,
) -> (row: Vec<u32>)
    requires
        is_function(*block),
        is_function(*sample),
        0 < N,
    ensures
        row@.len() == w,
        forall|x: int|
            0 <= x < w ==> #[trigger] row@[x] == blockwise(*block, *sample, w as int, x, y as int),
{
    let mut row: Vec<u32> = Vec::new();
    push_blocks(&mut row, w, 0, y, block);
    let ghost full = row@.len() as int;
    push_tail(&mut row, w, 0, y, sample);
    proof {
        assert forall|x: int| 0 <= x < w implies #[trigger] row@[x] == blockwise(
            *block,
            *sample,
            w as int,
            x,
            y as int,
        ) by {
            lemma_block_fits(x, N as int, w as int, full);
        }
    }
    row
}

fn render_blocks<
    const N: usize,
    B: Fn((usize, usize)) -> [u32; N] + Sync,
    F: Fn((usize, usize)) -> u32 + Sync,
>(vp: &Viewport, block: &B, sample: &F) -> (buf: IterBuf)
    requires
        has_frame(*vp),
        is_function(*block),
        is_function(*sample),
        0 < N,
    ensures
        buf@.len() == vp.width * vp.height,
        forall|x: int, y: int|
            in_frame(vp.width as int, vp.height as int, x, y) ==> #[trigger] at(
                buf@,
                vp.width as int,
                x,
                y,
            ) == blockwise(*block, *sample, vp.width as int, x, y),
{
    let w: usize = vp.width as usize;
    let h: usize = vp.height as usize;
    let row = |y: usize| -> (r: Vec<u32>)
        ensures
            r@.len() == w,
            forall|x: int|
                0 <= x < w ==> #[trigger] r@[x] == blockwise(
                    *block,
                    *sample,
                    w as int,
                    x,
                    y as int,
                ),
        { block_row(w, y, block, sample) };
    let rows = par_map(h, &row);
    proof {
        assert forall|y: int| 0 <= y < h implies (#[trigger] rows@[y])@.len() == w && (forall|x: int|
            0 <= x < w ==> #[trigger] rows@[y]@[x] == blockwise(
                *block,
                *sample,
                w as int,
                x,
                y,
            )) by {
            assert(call_ensures(row, (y as usize,), rows@[y]));
        }
    }
    join_rows(&rows, w)
}

/// Renders the frame of `vp` four pixels at a time, in double precision.
pub fn render_simd<
    B: Fn((usize, usize)) -> [u32; 4] + Sync,
    F: Fn((usize, usize)) -> u32 + Sync,
>(vp: &Viewport, block: &B, sample: &F) -> (buf: IterBuf)
    requires
        has_frame(*vp),
        is_function(*block),
        is_function(*sample),
    ensures
        buf@.len() == vp.width * vp.height,
        forall|x: int, y: int|
            in_frame(vp.width as int, vp.height as int, x, y) ==> #[trigger] at(
                buf@,
                vp.width as int,
                x,
                y,
            ) == blockwise(*block, *sample, vp.width as int, x, y),
{
    render_blocks(vp, block, sample)
}

/// Renders the frame of `vp` eight pixels at a time, in single precision.
pub fn render_simd_f32<
    B: Fn((usize, usize)) -> [u32; 8] + Sync,
    F: Fn((usize, usize)) -> u32 + Sync,
>(vp: &Viewport, block: &B, sample: &F) -> (buf: IterBuf)
    requires
        has_frame(*vp),
        is_function(*block),
        is_function(*sample),
    ensures
        buf@.len() == vp.width * vp.height,
        forall|x: int, y: int|
            in_frame(vp.width as int, vp.height as int, x, y) ==> #[trigger] at(
                buf@,
                vp.width as int,
                x,
                y,
            ) == blockwise(*block, *sample, vp.width as int, x, y),
{
    render_blocks(vp, block, sample)
}

/// The value of pixel `(x, y)` when two blocks of eight are interleaved for the
/// Mandelbrot set: from `pair` where both blocks fit, else block by block.
pub open spec fn interleaved<
    P: Fn((usize, usize)) -> [u32; 16],
    B: Fn((usize, usize)) -> [u32; 8],
    F: Fn((usize, usize)) -> u32,
>(fractal: FractalType, pair: P, block: B, sample: F, w: int, x: int, y: int) -> u32 {
    if fractal == FractalType::Mandelbrot && block_fits(x, 16, w) {
        lane(pair, x, y)
    } else {
        blockwise(block, sample, w, x, y)
    }
}

fn interleaved_row<
    P: Fn((usize, usize)) -> [u32; 16],
    B: Fn((usize, usize)) -> [u32; 8],
    F: Fn((usize, usize)) -> u32,
>(fractal: FractalType, w: usize, y: usize, pair: &P, block: &B, sample: &F) -> (row: Vec<u32>)
    requires
        is_function(*pair),
        is_function(*block),
        is_function(*sample),
    ensures
        row@.len() == w,
        forall|x: int|
            0 <= x < w ==> #[trigger] row@[x] == interleaved(
                fractal,
                *pair,
                *block,
                *sample,
                w as int,
                x,
                y as int,
            ),
{
    let mut row: Vec<u32> = Vec::new();
    if fractal == FractalType::Mandelbrot {
        push_blocks(&mut row, w, 0, y, pair);
    }
    let ghost paired = row@.len() as int;
    push_blocks(&mut row, w, 0, y, block);
    let ghost full = row@.len() as int;
    push_tail(&mut row, w, 0, y, sample);
    proof {
        assert forall|x: int| 0 <= x < w implies #[trigger] row@[x] == interleaved(
            fractal,
            *pair,
            *block,
            *sample,
            w as int,
            x,
            y as int,
        ) by {
            lemma_block_fits(x, 8, w as int, full);
            if fractal == FractalType::Mandelbrot {
                lemma_block_fits(x, 16, w as int, paired);
            }
        }
    }
    row
}

/// Renders the frame of `vp` in single precision, for the Mandelbrot set with two
/// blocks of eight pixels in flight at a time. `pair` answers the sixteen pixels
/// of both blocks.
pub fn render_simd_f32_ilp<
    P: Fn((usize, usize)) -> [u32; 16] + Sync,
    B: Fn((usize, usize)) -> [u32; 8] + Sync,
    F: Fn((usize, usize)) -> u32 + Sync,
>(vp: &Viewport, fractal: FractalType, pair: &P, block: &B, sample: &F) -> (buf: IterBuf)
    requires
        has_frame(*vp),
        fractal.is_quadratic_spec(),
        is_function(*pair),
        is_function(*block),
        is_function(*sample),
    ensures
        buf@.len() == vp.width * vp.height,
        forall|x: int, y: int|
            in_frame(vp.width as int, vp.height as int, x, y) ==> #[trigger] at(
                buf@,
                vp.width as int,
                x,
                y,
            ) == interleaved(fractal, *pair, *block, *sample, vp.width as int, x, y),
{
    let w: usize = vp.width as usize;
    let h: usize = vp.height as usize;
    let row = |y: usize| -> (r: Vec<u32>)
        ensures
            r@.len() == w,
            forall|x: int|
                0 <= x < w ==> #[trigger] r@[x] == interleaved(
                    fractal,
                    *pair,
                    *block,
                    *sample,
                    w as int,
                    x,
                    y as int,
                ),
        { interleaved_row(fractal, w, y, pair, block, sample) };
    let rows = par_map(h, &row);
    proof {
        assert forall|y: int| 0 <= y < h implies (#[trigger] rows@[y])@.len() == w && (forall|x: int|
            0 <= x < w ==> #[trigger] rows@[y]@[x] == interleaved(
                fractal,
                *pair,
                *block,
                *sample,
                w as int,
                x,
                y,
            )) by {
            assert(call_ensures(row, (y as usize,), rows@[y]));
        }
    }
    join_rows(&rows, w)
}

/// Each lane of `block` answers what `sample` answers for its pixel.
pub open spec fn lanes_agree<
    const N: usize,
    B: Fn((usize, usize)) -> [u32; N],
    F: Fn((usize, usize)) -> u32,
>(block: B, sample: F) -> bool {
    forall|x: int, y: int| 0 <= x && 0 <= y ==> #[trigger] lane(block, x, y) == sampled(sample, x, y)
}

/// Computing blocks changes no pixel: where each lane answers what the scalar
/// kernel answers, the frame is the picture of the scalar kernel.
pub proof fn law_blocks_render_the_picture<
    const N: usize,
    B: Fn((usize, usize)) -> [u32; N],
    F: Fn((usize, usize)) -> u32,
>(buf: Seq<u32>, w: int, h: int, block: B, sample: F)
    requires
        buf.len() == w * h,
        forall|x: int, y: int|
            in_frame(w, h, x, y) ==> #[trigger] at(buf, w, x, y) == blockwise(
                block,
                sample,
                w,
                x,
                y,
            ),
        lanes_agree(block, sample),
    ensures
        is_picture(buf, w, h, sample),
{
}

/// Interleaving changes no pixel: where the pairs answer lane by lane what the
/// single blocks answer, the frame is the one that single blocks render.
pub proof fn law_interleaving_changes_no_pixel<
    P: Fn((usize, usize)) -> [u32; 16],
    B: Fn((usize, usize)) -> [u32; 8],
    F: Fn((usize, usize)) -> u32,
>(fractal: FractalType, pair: P, block: B, sample: F, w: int, x: int, y: int)
    requires
        0 <= x < w,
        lane(pair, x, y) == lane(block, x, y),
    ensures
        interleaved(fractal, pair, block, sample, w, x, y) == blockwise(block, sample, w, x, y),
{
    if block_fits(x, 16, w) {
        assert(block_start(x, 8) + 8 <= block_start(x, 16) + 16);
    }
}

/// In a frame of `w` by `h` pixels, `block` answers for every whole block what the
/// Mandelbrot kernel for one block shows at its points, and `pair` answers for
/// every two whole blocks what the kernel for two shows, one block behind the
/// other. The block at pixel `(x, y)` has the points `start(x, y)`, of which
/// `inside(x, y)` are known to lie inside the set.
pub open spec fn from_mandelbrot_kernels<
    S,
    R,
    Q: Fn(S) -> [R; 8],
    T: Fn(S) -> S,
    E: Fn(R) -> bool,
    V: Fn((u32, R)) -> u32,
    P: Fn((usize, usize)) -> [u32; 16],
    B: Fn((usize, usize)) -> [u32; 8],
>(
    pair: P,
    block: B,
    w: int,
    h: int,
    start: spec_fn(int, int) -> S,
    inside: spec_fn(int, int) -> [bool; 8],
    max_iter: u32,
    norms: Q,
    step: T,
    beyond: E,
    smooth: V,
) -> bool {
    &&& forall|x: int, y: int|
        0 <= x && x + 8 <= w && 0 <= y < h ==> (#[trigger] sampled(block, x, y))@ == block_shows(
            inside(x, y),
            start(x, y),
            max_iter,
            norms,
            step,
            beyond,
            smooth,
        )
    &&& forall|x: int, y: int|
        0 <= x && x + 16 <= w && 0 <= y < h ==> (#[trigger] sampled(pair, x, y))@ == block_shows(
            inside(x, y),
            start(x, y),
            max_iter,
            norms,
            step,
            beyond,
            smooth,
        ) + block_shows(
            inside(x + 8, y),
            start(x + 8, y),
            max_iter,
            norms,
            step,
            beyond,
            smooth,
        )
}

proof fn lemma_pair_answers_the_lane<
    S,
    R,
    Q: Fn(S) -> [R; 8],
    T: Fn(S) -> S,
    E: Fn(R) -> bool,
    V: Fn((u32, R)) -> u32,
    P: Fn((usize, usize)) -> [u32; 16],
    B: Fn((usize, usize)) -> [u32; 8],
>(
    pair: P,
    block: B,
    w: int,
    h: int,
    start: spec_fn(int, int) -> S,
    inside: spec_fn(int, int) -> [bool; 8],
    max_iter: u32,
    norms: Q,
    step: T,
    beyond: E,
    smooth: V,
    x: int,
    y: int,
)
    requires
        from_mandelbrot_kernels(
            pair,
            block,
            w,
            h,
            start,
            inside,
            max_iter,
            norms,
            step,
            beyond,
            smooth,
        ),
        in_frame(w, h, x, y),
        block_fits(x, 16, w),
    ensures
        lane(pair, x, y) == lane(block, x, y),
{
    let u = block_start(x, 16);
    let v = block_start(x, 8);
    assert(v == u || v == u + 8);
    let both = sampled(pair, u, y)@;
    let one = sampled(block, v, y)@;
    let first = block_shows(inside(u, y), start(u, y), max_iter, norms, step, beyond, smooth);
    assert(first.len() == 8);
    assert(one == block_shows(inside(v, y), start(v, y), max_iter, norms, step, beyond, smooth));
    if v == u {
        assert(both[x - u] == first[x - u]);
    } else {
        assert(both[x - u] == one[x - u - 8]);
    }
    assert(both[x - u] == one[x - v]);
}

/// Two blocks in flight render what one at a time renders, bit for bit and at
/// every width: the frame of `render_simd_f32_ilp` is that of `render_simd_f32`,
/// both for Julia sets and, computed by the Mandelbrot kernels for one block and
/// for two, for the Mandelbrot set.
pub proof fn law_interleaved_frame_is_the_blockwise_frame<
    S,
    R,
    Q: Fn(S) -> [R; 8],
    T: Fn(S) -> S,
    E: Fn(R) -> bool,
    V: Fn((u32, R)) -> u32,
    P: Fn((usize, usize)) -> [u32; 16],
    B: Fn((usize, usize)) -> [u32; 8],
    F: Fn((usize, usize)) -> u32,
>(
    interleaved_frame: Seq<u32>,
    blockwise_frame: Seq<u32>,
    fractal: FractalType,
    pair: P,
    block: B,
    sample: F,
    w: int,
    h: int,
    start: spec_fn(int, int) -> S,
    inside: spec_fn(int, int) -> [bool; 8],
    max_iter: u32,
    norms: Q,
    step: T,
    beyond: E,
    smooth: V,
)
    requires
        0 < w,
        interleaved_frame.len() == w * h,
        forall|x: int, y: int|
            in_frame(w, h, x, y) ==> #[trigger] at(interleaved_frame, w, x, y) == interleaved(
                fractal,
                pair,
                block,
                sample,
                w,
                x,
                y,
            ),
        blockwise_frame.len() == w * h,
        forall|x: int, y: int|
            in_frame(w, h, x, y) ==> #[trigger] at(blockwise_frame, w, x, y) == blockwise(
                block,
                sample,
                w,
                x,
                y,
            ),
        fractal == FractalType::Mandelbrot ==> from_mandelbrot_kernels(
            pair,
            block,
            w,
            h,
            start,
            inside,
            max_iter,
            norms,
            step,
            beyond,
            smooth,
        ),
    ensures
        interleaved_frame == blockwise_frame,
{
    assert forall|x: int, y: int| in_frame(w, h, x, y) implies #[trigger] at(
        interleaved_frame,
        w,
        x,
        y,
    ) == at(blockwise_frame, w, x, y) by {
        if fractal == FractalType::Mandelbrot && block_fits(x, 16, w) {
            lemma_pair_answers_the_lane(
                pair,
                block,
                w,
                h,
                start,
                inside,
                max_iter,
                norms,
                step,
                beyond,
                smooth,
                x,
                y,
            );
            law_interleaving_changes_no_pixel(fractal, pair, block, sample, w, x, y);
        }
    }
    lemma_same_frame(interleaved_frame, blockwise_frame, w, h);
}

/// Which answer a pixel shows in a row of `w` pixels that is computed in blocks of
/// `N`: with `b` whole blocks to its left, the lane that is its own in the block
/// that starts `b * N` pixels in, where that block lies in the row, and else its own
/// answer of `sample`.
pub proof fn law_blockwise_pixel_is_a_lane<
    const N: usize,
    B: Fn((usize, usize)) -> [u32; N],
    F: Fn((usize, usize)) -> u32,
>(block: B, sample: F, w: int, b: int, k: int, y: int)
    requires
        0 <= b,
        0 <= k < N,
    ensures
        b * N + N <= w ==> blockwise(block, sample, w, b * N + k, y) == value_of(
            block,
            ((b * N) as usize, y as usize),
        )[k],
        w < b * N + N ==> blockwise(block, sample, w, b * N + k, y) == value_of(
            sample,
            ((b * N + k) as usize, y as usize),
        ),
{
    vstd::arithmetic::div_mod::lemma_fundamental_div_mod_converse(b * N + k, N as int, b, k);
}

/// Which answer a pixel shows in a row whose blocks of eight are interleaved in
/// pairs for the Mandelbrot set: its lane in a pair, where both blocks of the pair
/// lie in the row, and else what it shows block by block, as for the other fractals.
pub proof fn law_interleaved_pixel_is_a_lane<
    P: Fn((usize, usize)) -> [u32; 16],
    B: Fn((usize, usize)) -> [u32; 8],
    F: Fn((usize, usize)) -> u32,
>(fractal: FractalType, pair: P, block: B, sample: F, w: int, b: int, k: int, y: int)
    requires
        0 <= b,
        0 <= k < 16,
    ensures
        fractal == FractalType::Mandelbrot && b * 16 + 16 <= w ==> interleaved(
            fractal,
            pair,
            block,
            sample,
            w,
            b * 16 + k,
            y,
        ) == value_of(pair, ((b * 16) as usize, y as usize))[k],
        fractal != FractalType::Mandelbrot || w < b * 16 + 16 ==> interleaved(
            fractal,
            pair,
            block,
            sample,
            w,
            b * 16 + k,
            y,
        ) == blockwise(block, sample, w, b * 16 + k, y),
{
    vstd::arithmetic::div_mod::lemma_fundamental_div_mod_converse(b * 16 + k, 16, b, k);
}

} // verus!
