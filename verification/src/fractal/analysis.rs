//! Measuring a finished frame: how many boxes the boundary of the set passes
//! through, how much of the frame lies inside the set, and how the iteration
//! counts are spread.

use crate::float_bits::{single_ge, single_ge_spec, single_of, u32_to_single};
use crate::func::{evaluate, evaluate_for, is_function, is_function_of, value_for, value_of};
use crate::grid::{at, lemma_index_in_frame};
use vstd::prelude::*;

verus! {

/// The pixel never escaped.
pub open spec fn is_inside(v: u32, max_iter: u32) -> bool {
    single_ge_spec(v, single_of(max_iter))
}

/// The pixels with `x0 <= x < x1` and `y0 <= y < y1` lie neither all inside nor
/// all outside the set.
pub open spec fn is_mixed(
    buf: Seq<u32>,
    w: int,
    max_iter: u32,
    x0: int,
    y0: int,
    x1: int,
    y1: int,
) -> bool {
    &&& exists|x: int, y: int|
        x0 <= x < x1 && y0 <= y < y1 && is_inside(#[trigger] at(buf, w, x, y), max_iter)
    &&& exists|x: int, y: int|
        x0 <= x < x1 && y0 <= y < y1 && !is_inside(#[trigger] at(buf, w, x, y), max_iter)
}

/// Where a box that starts at `a` ends.
pub open spec fn box_end(a: int, size: int, limit: int) -> int {
    if size < limit - a {
        a + size
    } else {
        limit
    }
}

/// How many boxes of one row of boxes, from column `bx` on, are mixed.
pub open spec fn mixed_in_row(
    buf: Seq<u32>,
    w: int,
    max_iter: u32,
    size: int,
    bx: int,
    y0: int,
    y1: int,
) -> nat
    decreases w - bx,
{
    if bx >= w || size <= 0 {
        0
    } else {
        let x1 = box_end(bx, size, w);
        (if is_mixed(buf, w, max_iter, bx, y0, x1, y1) {
            1nat
        } else {
            0nat
        }) + mixed_in_row(buf, w, max_iter, size, x1, y0, y1)
    }
}

/// How many boxes, from row `by` on, are mixed.
pub open spec fn mixed_from(
    buf: Seq<u32>,
    w: int,
    h: int,
    max_iter: u32,
    size: int,
    by: int,
) -> nat
    decreases h - by,
{
    if by >= h || size <= 0 {
        0
    } else {
        let y1 = box_end(by, size, h);
        mixed_in_row(buf, w, max_iter, size, 0, by, y1) + mixed_from(
            buf,
            w,
            h,
            max_iter,
            size,
            y1,
        )
    }
}

/// How many boxes of side `size` (smaller at the right and lower edges) the
/// boundary of the set passes through.
pub open spec fn boundary_boxes(buf: Seq<u32>, w: int, h: int, max_iter: u32, size: int) -> nat {
    mixed_from(buf, w, h, max_iter, size, 0)
}

/// Whether one box is mixed.
fn box_is_mixed(
    buf: &Vec<u32>,
    w: usize,
    h: usize,
    limit: u32,
    Ghost(max_iter): Ghost<u32>,
    x0: usize,
    y0: usize,
    x1: usize,
    y1: usize,
) -> (r: bool)
    requires
        w * h <= buf@.len(),
        limit == single_of(max_iter),
        x0 <= x1 <= w,
        y0 <= y1 <= h,
    ensures
        r == is_mixed(
            buf@,
            w as int,
            max_iter,
            x0 as int,
            y0 as int,
            x1 as int,
            y1 as int,
        ),
{
    let ghost wi = w as int;
    let len: usize = buf.len();
    let mut saw_interior: bool = false;
    let mut saw_exterior: bool = false;
    let mut y: usize = y0;
    while y < y1
        invariant
            w * h <= len,
            len == buf@.len(),
            limit == single_of(max_iter),
            wi == w,
            x0 <= x1 <= w,
            y0 <= y <= y1 <= h,
            saw_interior == exists|u: int, v: int|
                x0 <= u < x1 && y0 <= v < y && is_inside(#[trigger] at(buf@, wi, u, v), max_iter),
            saw_exterior == exists|u: int, v: int|
                x0 <= u < x1 && y0 <= v < y && !is_inside(#[trigger] at(buf@, wi, u, v), max_iter),
        decreases y1 - y,
    {
        let mut x: usize = x0;
        while x < x1
            invariant
                w * h <= len,
                len == buf@.len(),
                limit == single_of(max_iter),
                wi == w,
                x0 <= x <= x1 <= w,
                y0 <= y < y1 <= h,
                saw_interior == exists|u: int, v: int|
                    x0 <= u < x1 && y0 <= v <= y && (v < y || u < x) && is_inside(
                        #[trigger] at(buf@, wi, u, v),
                        max_iter,
                    ),
                saw_exterior == exists|u: int, v: int|
                    x0 <= u < x1 && y0 <= v <= y && (v < y || u < x) && !is_inside(
                        #[trigger] at(buf@, wi, u, v),
                        max_iter,
                    ),
            decreases x1 - x,
        {
            proof {
                lemma_index_in_frame(wi, h as int, x as int, y as int);
            }
            let inside: bool = single_ge(buf[y * w + x], limit);
            assert(inside == is_inside(at(buf@, wi, x as int, y as int), max_iter));
            if inside {
                saw_interior = true;
            } else {
                saw_exterior = true;
            }
            if saw_interior && saw_exterior {
                return true;
            }
            x = x + 1;
        }
        y = y + 1;
    }
    saw_interior && saw_exterior
}

/// Counts the boxes of side `size` that the boundary of the set passes through.
pub fn count_boundary_boxes(buf: &Vec<u32>, w: usize, h: usize, max_iter: u32, size: usize) -> (r: u64)
    requires
        0 < size,
        w * h <= buf@.len(),
    ensures
        r == boundary_boxes(buf@, w as int, h as int, max_iter, size as int),
{
    let limit: u32 = u32_to_single(max_iter);
    let len: usize = buf.len();
    let mut occupied: u64 = 0;
    let mut by: usize = 0;
    while by < h
        invariant
            0 < size,
            w * h <= len,
            len == buf@.len(),
            limit == single_of(max_iter),
            by <= h,
            occupied + mixed_from(
                buf@,
                w as int,
                h as int,
                max_iter,
                size as int,
                by as int,
            ) == boundary_boxes(buf@, w as int, h as int, max_iter, size as int),
            occupied <= by * w,
        decreases h - by,
    {
        let y1: usize = if size < h - by {
            by + size
        } else {
            h
        };
        let ghost below = mixed_from(
            buf@,
            w as int,
            h as int,
            max_iter,
            size as int,
            y1 as int,
        );
        proof {
            assert(by * w + w <= y1 * w <= w * h) by (nonlinear_arith)
                requires
                    by + 1 <= y1 <= h,
            ;
        }
        let mut bx: usize = 0;
        while bx < w
            invariant
                0 < size,
                w * h <= len,
                len == buf@.len(),
                limit == single_of(max_iter),
                by < y1 <= h,
                bx <= w,
                occupied + mixed_in_row(
                    buf@,
                    w as int,
                    max_iter,
                    size as int,
                    bx as int,
                    by as int,
                    y1 as int,
                ) + below == boundary_boxes(buf@, w as int, h as int, max_iter, size as int),
                occupied <= by * w + bx,
                by * w + w <= y1 * w <= w * h,
            decreases w - bx,
        {
            let x1: usize = if size < w - bx {
                bx + size
            } else {
                w
            };
            if box_is_mixed(buf, w, h, limit, Ghost(max_iter), bx, by, x1, y1) {
                occupied = occupied + 1;
            }
            bx = x1;
        }
        by = y1;
    }
    occupied
}

/// The boxes of each size that the boundary passes through, and the slope of the
/// count against the size on logarithmic scales with the quality of the fit
/// (bit patterns of doubles).
pub struct BoxCountResult {
    pub counts: Vec<(usize, u64)>,
    pub dimension: u64,
    pub r_squared: u64,
}

/// The sizes with a count that has a logarithm.
pub open spec fn countable(counts: Seq<(usize, u64)>) -> Seq<(usize, u64)>
    decreases counts.len(),
{
    if counts.len() == 0 {
        seq![]
    } else if counts.last().1 > 0 {
        countable(counts.drop_last()).push(counts.last())
    } else {
        countable(counts.drop_last())
    }
}

/// The slope and its quality for fewer than two points are zero; else they are
/// what `fit` answers.
pub fn linear_fit<L: Fn(&Vec<(usize, u64)>, ()) -> (u64, u64)>(
    points: &Vec<(usize, u64)>,
    fit: &L,
) -> (r: (u64, u64))
    requires
        is_function_of(*fit),
    ensures
        r == (if points@.len() < 2 {
            (0u64, 0u64)
        } else {
            value_for(*fit, *points, ())
        }),
{
    if points.len() < 2 {
        return (0, 0);
    }
    evaluate_for(fit, points, ())
}

/// Counts the boxes that the boundary of the set passes through at each of the
/// sizes. The dimension is the slope of the counts against the sizes, both taken
/// as logarithms; `fit` answers that slope and its quality.
pub fn box_count_dimension<L: Fn(&Vec<(usize, u64)>, ()) -> (u64, u64)>(
    buf: &Vec<u32>,
    w: usize,
    h: usize,
    max_iter: u32,
    box_sizes: &Vec<usize>,
    fit: &L,
) -> (r: BoxCountResult)
    requires
        w * h <= buf@.len(),
        forall|k: int| 0 <= k < box_sizes@.len() ==> #[trigger] box_sizes@[k] > 0,
        is_function_of(*fit),
    ensures
        r.counts@.len() == box_sizes@.len(),
        forall|k: int|
            0 <= k < box_sizes@.len() ==> (#[trigger] r.counts@[k]).0 == box_sizes@[k]
                && r.counts@[k].1 == boundary_boxes(
                buf@,
                w as int,
                h as int,
                max_iter,
                box_sizes@[k] as int,
            ),
        countable(r.counts@).len() < 2 ==> r.dimension == 0 && r.r_squared == 0,
        countable(r.counts@).len() >= 2 ==> exists|points: Vec<(usize, u64)>|
            points@ == countable(r.counts@) && (r.dimension, r.r_squared)
                == #[trigger] value_for(*fit, points, ()),
{
    let mut counts: Vec<(usize, u64)> = Vec::new();
    let mut points: Vec<(usize, u64)> = Vec::new();
    let mut k: usize = 0;
    while k < box_sizes.len()
        invariant
            w * h <= buf@.len(),
            forall|j: int| 0 <= j < box_sizes@.len() ==> #[trigger] box_sizes@[j] > 0,
            k <= box_sizes@.len(),
            counts@.len() == k,
            forall|j: int|
                0 <= j < k ==> (#[trigger] counts@[j]).0 == box_sizes@[j] && counts@[j].1
                    == boundary_boxes(buf@, w as int, h as int, max_iter, box_sizes@[j] as int),
            points@ == countable(counts@),
        decreases box_sizes@.len() - k,
    {
        let size: usize = box_sizes[k];
        let occupied: u64 = count_boundary_boxes(buf, w, h, max_iter, size);
        let ghost before = counts@;
        counts.push((size, occupied));
        assert(counts@.drop_last() =~= before);
        if occupied > 0 {
            points.push((size, occupied));
        }
        k = k + 1;
    }
    let (dimension, r_squared): (u64, u64) = linear_fit(&points, fit);
    BoxCountResult { counts, dimension, r_squared }
}

/// How many of the first `n` pixels lie inside the set.
pub open spec fn inside_count(buf: Seq<u32>, max_iter: u32, n: nat) -> nat
    decreases n,
{
    if n == 0 {
        0
    } else {
        inside_count(buf, max_iter, (n - 1) as nat) + (if is_inside(buf[n - 1], max_iter) {
            1nat
        } else {
            0nat
        })
    }
}

/// Estimates the area of the set in the frame. `share` answers the part of the
/// view's area that a number of pixels out of another is.
pub fn estimate_area<A: Fn((usize, usize)) -> u64>(buf: &Vec<u32>, max_iter: u32, share: &A) -> (r: u64)
    requires
        is_function(*share),
    ensures
        inside_count(buf@, max_iter, buf@.len()) <= usize::MAX,
        r == value_of(
            *share,
            (inside_count(buf@, max_iter, buf@.len()) as usize, buf@.len() as usize),
        ),
{
    let limit: u32 = u32_to_single(max_iter);
    let mut in_set: usize = 0;
    let mut i: usize = 0;
    while i < buf.len()
        invariant
            limit == single_of(max_iter),
            i <= buf@.len(),
            in_set == inside_count(buf@, max_iter, i as nat),
            in_set <= i,
        decreases buf@.len() - i,
    {
        if single_ge(buf[i], limit) {
            in_set = in_set + 1;
        }
        i = i + 1;
    }
    evaluate(share, (in_set, buf.len()))
}

/// The bin of a pixel of value `v`: the last one takes all that lies beyond.
pub open spec fn bin_index<B: Fn(u32) -> usize>(v: u32, bins: int, bin_of: B) -> int {
    if value_of(bin_of, v) < bins {
        value_of(bin_of, v) as int
    } else {
        bins - 1
    }
}

/// How many of the first `n` pixels fall into bin `k`.
pub open spec fn bin_count<B: Fn(u32) -> usize>(
    buf: Seq<u32>,
    bins: int,
    bin_of: B,
    k: int,
    n: nat,
) -> nat
    decreases n,
{
    if n == 0 {
        0
    } else {
        bin_count(buf, bins, bin_of, k, (n - 1) as nat) + (if bin_index(buf[n - 1], bins, bin_of)
            == k {
            1nat
        } else {
            0nat
        })
    }
}

proof fn lemma_bin_count_small<B: Fn(u32) -> usize>(
    buf: Seq<u32>,
    bins: int,
    bin_of: B,
    k: int,
    n: nat,
)
    ensures
        bin_count(buf, bins, bin_of, k, n) <= n,
    decreases n,
{
    if n > 0 {
        lemma_bin_count_small(buf, bins, bin_of, k, (n - 1) as nat);
    }
}

/// Sorts the pixels into `bins` bins of equal width. `bin_of` answers the bin of
/// a value, which may lie beyond the last.
pub fn iteration_histogram<B: Fn(u32) -> usize>(buf: &Vec<u32>, bins: usize, bin_of: &B) -> (hist: Vec<
    u64,
>)
    requires
        is_function(*bin_of),
        bins > 0 || buf@.len() == 0,
    ensures
        hist@.len() == bins,
        forall|k: int|
            0 <= k < bins ==> #[trigger] hist@[k] == bin_count(
                buf@,
                bins as int,
                *bin_of,
                k,
                buf@.len(),
            ),
{
    let mut hist: Vec<u64> = vec![0u64; bins];
    let mut i: usize = 0;
    while i < buf.len()
        invariant
            is_function(*bin_of),
            bins > 0 || buf@.len() == 0,
            i <= buf@.len(),
            hist@.len() == bins,
            forall|k: int|
                0 <= k < bins ==> #[trigger] hist@[k] == bin_count(
                    buf@,
                    bins as int,
                    *bin_of,
                    k,
                    i as nat,
                ),
        decreases buf@.len() - i,
    {
        let wanted: usize = evaluate(bin_of, buf[i]);
        let idx: usize = if wanted < bins {
            wanted
        } else {
            bins - 1
        };
        proof {
            lemma_bin_count_small(buf@, bins as int, *bin_of, idx as int, i as nat);
        }
        hist.set(idx, hist[idx] + 1);
        i = i + 1;
    }
    hist
}

/// The pixels in the first `k` bins.
pub open spec fn in_bins<B: Fn(u32) -> usize>(
    buf: Seq<u32>,
    bins: int,
    bin_of: B,
    k: nat,
    n: nat,
) -> nat
    decreases k,
{
    if k == 0 {
        0
    } else {
        in_bins(buf, bins, bin_of, (k - 1) as nat, n) + bin_count(
            buf,
            bins,
            bin_of,
            k - 1,
            n,
        )
    }
}

proof fn lemma_in_bins_step<B: Fn(u32) -> usize>(
    buf: Seq<u32>,
    bins: int,
    bin_of: B,
    k: nat,
    n: nat,
)
    requires
        n > 0,
        bins > 0,
    ensures
        in_bins(buf, bins, bin_of, k, n) == in_bins(buf, bins, bin_of, k, (n - 1) as nat) + (
        if bin_index(buf[n - 1], bins, bin_of) < k {
            1nat
        } else {
            0nat
        }),
    decreases k,
{
    if k > 0 {
        lemma_in_bins_step(buf, bins, bin_of, (k - 1) as nat, n);
    }
}

/// Every pixel falls into exactly one bin: the bins together hold as many pixels
/// as the frame has.
pub proof fn law_histogram_counts_every_pixel<B: Fn(u32) -> usize>(
    buf: Seq<u32>,
    bins: nat,
    bin_of: B,
    n: nat,
)
    requires
        bins > 0,
    ensures
        in_bins(buf, bins as int, bin_of, bins, n) == n,
    decreases n,
{
    if n > 0 {
        law_histogram_counts_every_pixel(buf, bins, bin_of, (n - 1) as nat);
        lemma_in_bins_step(buf, bins as int, bin_of, bins, n);
    } else {
        lemma_no_pixels(buf, bins as int, bin_of, bins);
    }
}

proof fn lemma_no_pixels<B: Fn(u32) -> usize>(buf: Seq<u32>, bins: int, bin_of: B, k: nat)
    ensures
        in_bins(buf, bins, bin_of, k, 0) == 0,
    decreases k,
{
    if k > 0 {
        lemma_no_pixels(buf, bins, bin_of, (k - 1) as nat);
    }
}

/// A frame that lies all inside or all outside the set has no boundary: no box of
/// any size is mixed.
pub proof fn law_flat_frame_has_no_boundary(
    buf: Seq<u32>,
    w: int,
    h: int,
    max_iter: u32,
    size: int,
    inside: bool,
)
    requires
        forall|x: int, y: int|
            0 <= x < w && 0 <= y < h ==> is_inside(#[trigger] at(buf, w, x, y), max_iter)
                == inside,
    ensures
        boundary_boxes(buf, w, h, max_iter, size) == 0,
{
    lemma_flat_from(buf, w, h, max_iter, size, inside, 0);
}

proof fn lemma_flat_row(
    buf: Seq<u32>,
    w: int,
    h: int,
    max_iter: u32,
    size: int,
    inside: bool,
    bx: int,
    y0: int,
    y1: int,
)
    requires
        0 <= bx,
        0 <= y0,
        y1 <= h,
        forall|x: int, y: int|
            0 <= x < w && 0 <= y < h ==> is_inside(#[trigger] at(buf, w, x, y), max_iter)
                == inside,
    ensures
        mixed_in_row(buf, w, max_iter, size, bx, y0, y1) == 0,
    decreases w - bx,
{
    if bx < w && size > 0 {
        lemma_flat_row(
            buf,
            w,
            h,
            max_iter,
            size,
            inside,
            box_end(bx, size, w),
            y0,
            y1,
        );
    }
}

proof fn lemma_flat_from(
    buf: Seq<u32>,
    w: int,
    h: int,
    max_iter: u32,
    size: int,
    inside: bool,
    by: int,
)
    requires
        0 <= by,
        forall|x: int, y: int|
            0 <= x < w && 0 <= y < h ==> is_inside(#[trigger] at(buf, w, x, y), max_iter)
                == inside,
    ensures
        mixed_from(buf, w, h, max_iter, size, by) == 0,
    decreases h - by,
{
    if by < h && size > 0 {
        let y1 = box_end(by, size, h);
        lemma_flat_row(buf, w, h, max_iter, size, inside, 0, by, y1);
        lemma_flat_from(buf, w, h, max_iter, size, inside, y1);
    }
}

/// A box is mixed exactly if it has a pixel at or above the limit and one that is not.
pub proof fn law_mixed_box_has_both_kinds_of_pixels(
    buf: Seq<u32>,
    w: int,
    max_iter: u32,
    x0: int,
    y0: int,
    x1: int,
    y1: int,
)
    ensures
        is_mixed(buf, w, max_iter, x0, y0, x1, y1) <==> {
            &&& exists|x: int, y: int|
                x0 <= x < x1 && y0 <= y < y1 && single_ge_spec(
                    #[trigger] at(buf, w, x, y),
                    single_of(max_iter),
                )
            &&& exists|x: int, y: int|
                x0 <= x < x1 && y0 <= y < y1 && !single_ge_spec(
                    #[trigger] at(buf, w, x, y),
                    single_of(max_iter),
                )
        },
{
    if exists|x: int, y: int|
        x0 <= x < x1 && y0 <= y < y1 && single_ge_spec(
            #[trigger] at(buf, w, x, y),
            single_of(max_iter),
        ) {
        let (x, y) = choose|x: int, y: int|
            x0 <= x < x1 && y0 <= y < y1 && single_ge_spec(
                #[trigger] at(buf, w, x, y),
                single_of(max_iter),
            );
        assert(is_inside(at(buf, w, x, y), max_iter));
    }
    if exists|x: int, y: int|
        x0 <= x < x1 && y0 <= y < y1 && !single_ge_spec(
            #[trigger] at(buf, w, x, y),
            single_of(max_iter),
        ) {
        let (x, y) = choose|x: int, y: int|
            x0 <= x < x1 && y0 <= y < y1 && !single_ge_spec(
                #[trigger] at(buf, w, x, y),
                single_of(max_iter),
            );
        assert(!is_inside(at(buf, w, x, y), max_iter));
    }
}

/// The smaller of two numbers.
pub open spec fn at_most(a: int, b: int) -> int {
    if a < b {
        a
    } else {
        b
    }
}

/// How many of the first `n` boxes of box row `j` are mixed. Box `i` of the row
/// starts `i * size` pixels in, box row `j` that many rows down, and none reaches
/// beyond the frame.
pub open spec fn mixed_boxes_in_row(
    buf: Seq<u32>,
    w: int,
    h: int,
    max_iter: u32,
    size: int,
    j: int,
    n: nat,
) -> nat
    decreases n,
{
    if n == 0 {
        0
    } else {
        let i = n - 1;
        mixed_boxes_in_row(buf, w, h, max_iter, size, j, (n - 1) as nat) + (if is_mixed(
            buf,
            w,
            max_iter,
            i * size,
            j * size,
            at_most(i * size + size, w),
            at_most(j * size + size, h),
        ) {
            1nat
        } else {
            0nat
        })
    }
}

/// How many of the boxes in the first `n` box rows are mixed, each of `columns` boxes.
pub open spec fn mixed_boxes(
    buf: Seq<u32>,
    w: int,
    h: int,
    max_iter: u32,
    size: int,
    columns: nat,
    n: nat,
) -> nat
    decreases n,
{
    if n == 0 {
        0
    } else {
        mixed_boxes(buf, w, h, max_iter, size, columns, (n - 1) as nat) + mixed_boxes_in_row(
            buf,
            w,
            h,
            max_iter,
            size,
            n - 1,
            columns,
        )
    }
}

proof fn lemma_row_of_boxes(
    buf: Seq<u32>,
    w: int,
    h: int,
    max_iter: u32,
    size: int,
    j: int,
    i: nat,
    columns: nat,
)
    requires
        0 < size,
        i <= columns,
        (columns - 1) * size < w <= columns * size,
    ensures
        mixed_boxes_in_row(buf, w, h, max_iter, size, j, i) + mixed_in_row(
            buf,
            w,
            max_iter,
            size,
            at_most(i * size, w),
            j * size,
            at_most(j * size + size, h),
        ) == mixed_boxes_in_row(buf, w, h, max_iter, size, j, columns),
    decreases columns - i,
{
    if i < columns {
        lemma_row_of_boxes(buf, w, h, max_iter, size, j, i + 1, columns);
        assert(i * size <= (columns - 1) * size && (i + 1) * size == i * size + size)
            by (nonlinear_arith)
            requires
                i <= columns - 1,
                size > 0,
        ;
        assert(box_end(i * size, size, w) == at_most(i * size + size, w));
    }
}

proof fn lemma_rows_of_boxes(
    buf: Seq<u32>,
    w: int,
    h: int,
    max_iter: u32,
    size: int,
    columns: nat,
    j: nat,
    rows: nat,
)
    requires
        0 < size,
        j <= rows,
        (columns - 1) * size < w <= columns * size,
        (rows - 1) * size < h <= rows * size,
    ensures
        mixed_boxes(buf, w, h, max_iter, size, columns, j) + mixed_from(
            buf,
            w,
            h,
            max_iter,
            size,
            at_most(j * size, h),
        ) == mixed_boxes(buf, w, h, max_iter, size, columns, rows),
    decreases rows - j,
{
    if j < rows {
        lemma_rows_of_boxes(buf, w, h, max_iter, size, columns, j + 1, rows);
        assert(j * size <= (rows - 1) * size && (j + 1) * size == j * size + size)
            by (nonlinear_arith)
            requires
                j <= rows - 1,
                size > 0,
        ;
        assert(box_end(j * size, size, h) == at_most(j * size + size, h));
        lemma_row_of_boxes(buf, w, h, max_iter, size, j as int, 0, columns);
        assert(0 * size == 0);
        assert(columns > 0 || w <= 0) by (nonlinear_arith)
            requires
                w <= columns * size,
                columns >= 0,
        ;
        if w < 0 {
            assert(columns * size >= 0) by (nonlinear_arith)
                requires
                    size > 0,
                    columns >= 0,
            ;
        }
    }
}

/// The boxes that are counted are those of a grid of `columns` by `rows` boxes, as
/// many as it takes to cover the frame: one for each box of the grid that is mixed.
pub proof fn law_boundary_boxes_are_the_mixed_boxes_of_a_grid(
    buf: Seq<u32>,
    w: int,
    h: int,
    max_iter: u32,
    size: int,
    columns: nat,
    rows: nat,
)
    requires
        0 < size,
        0 <= w,
        0 <= h,
        (columns - 1) * size < w <= columns * size,
        (rows - 1) * size < h <= rows * size,
    ensures
        boundary_boxes(buf, w, h, max_iter, size) == mixed_boxes(
            buf,
            w,
            h,
            max_iter,
            size,
            columns,
            rows,
        ),
{
    lemma_rows_of_boxes(buf, w, h, max_iter, size, columns, 0, rows);
    assert(0 * size == 0);
}

/// The area is estimated from the number of pixels at or above the limit.
pub proof fn law_inside_count_is_a_count(buf: Seq<u32>, max_iter: u32, n: nat)
    requires
        n <= buf.len(),
    ensures
        inside_count(buf, max_iter, n) == buf.take(n as int).filter(
            |v: u32| single_ge_spec(v, single_of(max_iter)),
        ).len(),
    decreases n,
{
    reveal(Seq::filter);
    if n > 0 {
        let m = (n - 1) as nat;
        law_inside_count_is_a_count(buf, max_iter, m);
        assert(buf.take(n as int).drop_last() =~= buf.take(m as int));
        assert(buf.take(n as int).last() == buf[m as int]);
    }
}

/// The points of the fit are the sizes with a count above zero, in their order.
pub proof fn law_countable_sizes_have_a_count(counts: Seq<(usize, u64)>)
    ensures
        countable(counts) == counts.filter(|c: (usize, u64)| c.1 > 0),
    decreases counts.len(),
{
    reveal(Seq::filter);
    if counts.len() > 0 {
        law_countable_sizes_have_a_count(counts.drop_last());
    }
}

/// A bin holds the pixels for which `bin_of` answers it; the last one also those for
/// which it answers something beyond.
pub proof fn law_bin_holds_the_pixels_answered_with_it<B: Fn(u32) -> usize>(
    buf: Seq<u32>,
    bins: int,
    bin_of: B,
    k: int,
    n: nat,
)
    requires
        n <= buf.len(),
        0 <= k < bins,
    ensures
        bin_count(buf, bins, bin_of, k, n) == buf.take(n as int).filter(
            |v: u32|
                value_of(bin_of, v) == k || (k == bins - 1 && bins <= value_of(bin_of, v)),
        ).len(),
    decreases n,
{
    reveal(Seq::filter);
    if n > 0 {
        let m = (n - 1) as nat;
        law_bin_holds_the_pixels_answered_with_it(buf, bins, bin_of, k, m);
        assert(buf.take(n as int).drop_last() =~= buf.take(m as int));
        assert(buf.take(n as int).last() == buf[m as int]);
    }
}

} // verus!
