//! Row-major frames: a frame of width `w` and height `h` is a sequence of
//! `w * h` values, and the value of pixel `(x, y)` stands at index `y * w + x`.

use crate::func::value_of;
use vstd::arithmetic::div_mod::lemma_fundamental_div_mod_converse;
use vstd::prelude::*;

verus! {

/// The value of pixel `(x, y)` in a frame of width `w`.
pub open spec fn at<T>(frame: Seq<T>, w: int, x: int, y: int) -> T {
    frame[y * w + x]
}

/// `(x, y)` is a pixel of a frame of width `w` and height `h`.
pub open spec fn in_frame(w: int, h: int, x: int, y: int) -> bool {
    0 <= x < w && 0 <= y < h
}

/// What `sample` answers for the pixel `(x, y)`.
pub open spec fn sampled<R, F: Fn((usize, usize)) -> R>(sample: F, x: int, y: int) -> R {
    value_of(sample, (x as usize, y as usize))
}

/// `frame` is the picture of `sample`: every pixel holds what `sample` answers for it.
pub open spec fn is_picture<R, F: Fn((usize, usize)) -> R>(
    frame: Seq<R>,
    w: int,
    h: int,
    sample: F,
) -> bool {
    &&& frame.len() == w * h
    &&& forall|x: int, y: int|
        in_frame(w, h, x, y) ==> #[trigger] at(frame, w, x, y) == sampled(sample, x, y)
}

/// A pixel of the frame has an index in the sequence.
pub proof fn lemma_index_in_frame(w: int, h: int, x: int, y: int)
    requires
        in_frame(w, h, x, y),
    ensures
        0 <= y * w,
        0 <= y * w + x < w * h,
        y * w + w <= w * h,
{
    assert(y * w + w <= w * h && 0 <= y * w) by (nonlinear_arith)
        requires
            0 <= y < h,
            0 <= w,
    ;
}

/// The index of a pixel leads back to its coordinates.
pub proof fn lemma_index_to_pixel(w: int, x: int, y: int)
    requires
        0 <= x < w,
    ensures
        (y * w + x) / w == y,
        (y * w + x) % w == x,
{
    lemma_fundamental_div_mod_converse(y * w + x, w, y, x);
}

/// Distinct pixels have distinct indices.
pub proof fn lemma_index_injective(w: int, x: int, y: int, u: int, v: int)
    requires
        0 <= x < w,
        0 <= u < w,
        y * w + x == v * w + u,
    ensures
        x == u,
        y == v,
{
    lemma_index_to_pixel(w, x, y);
    lemma_index_to_pixel(w, u, v);
}

/// Every index of the sequence is that of a pixel.
pub proof fn lemma_pixel_of_index(w: int, h: int, i: int)
    requires
        0 < w,
        0 <= i < w * h,
    ensures
        in_frame(w, h, i % w, i / w),
        (i / w) * w + i % w == i,
{
    vstd::arithmetic::div_mod::lemma_fundamental_div_mod(i, w);
    let q = i / w;
    let r = i % w;
    assert(w * q == q * w) by (nonlinear_arith);
    assert(0 <= q < h) by (nonlinear_arith)
        requires
            q * w + r == i,
            0 <= i < w * h,
            0 <= r < w,
    ;
}

/// Two frames that agree on every pixel are the same frame.
pub proof fn lemma_same_frame<T>(a: Seq<T>, b: Seq<T>, w: int, h: int)
    requires
        0 < w,
        a.len() == w * h,
        b.len() == w * h,
        forall|x: int, y: int|
            in_frame(w, h, x, y) ==> #[trigger] at(a, w, x, y) == at(b, w, x, y),
    ensures
        a == b,
{
    assert forall|i: int| 0 <= i < a.len() implies a[i] == b[i] by {
        lemma_pixel_of_index(w, h, i);
        assert(at(a, w, i % w, i / w) == at(b, w, i % w, i / w));
    }
    assert(a =~= b);
}

/// A sampling function has one picture at each size.
pub proof fn law_picture_is_unique<R, F: Fn((usize, usize)) -> R>(
    a: Seq<R>,
    b: Seq<R>,
    w: int,
    h: int,
    sample: F,
)
    requires
        0 < w,
        is_picture(a, w, h, sample),
        is_picture(b, w, h, sample),
    ensures
        a == b,
{
    lemma_same_frame(a, b, w, h);
}

/// Joins bands of `step` rows each (the last one may be shorter) into one frame.
pub(crate) fn join_bands(bands: &Vec<Vec<u32>>, w: usize, h: usize, step: usize) -> (frame: Vec<u32>)
    requires
        0 < w,
        0 < step,
        w * h <= usize::MAX,
        (bands@.len() - 1) * step < h <= bands@.len() * step || (bands@.len() == 0 && h == 0),
        forall|b: int|
            0 <= b < bands@.len() ==> (#[trigger] bands@[b])@.len() == band_height(
                h as int,
                step as int,
                b,
            ) * w,
    ensures
        frame@.len() == w * h,
        forall|x: int, y: int|
            in_frame(w as int, h as int, x, y) ==> #[trigger] at(frame@, w as int, x, y) == at(
                bands@[y / step as int]@,
                w as int,
                x,
                y % step as int,
            ),
{
    let n: usize = bands.len();
    let mut frame: Vec<u32> = Vec::new();
    let mut b: usize = 0;
    let ghost mut rows: int = 0;
    while b < n
        invariant
            0 < w,
            0 < step,
            n == bands@.len(),
            b <= n,
            (bands@.len() - 1) * step < h <= bands@.len() * step || (bands@.len() == 0 && h == 0),
            b == n ==> rows == h,
            b < n ==> rows == b * step,
            0 <= rows <= h,
            frame@.len() == rows * w,
            forall|k: int|
                0 <= k < bands@.len() ==> (#[trigger] bands@[k])@.len() == band_height(
                    h as int,
                    step as int,
                    k,
                ) * w,
            forall|x: int, y: int|
                in_frame(w as int, rows, x, y) ==> #[trigger] at(frame@, w as int, x, y) == at(
                    bands@[y / step as int]@,
                    w as int,
                    x,
                    y % step as int,
                ),
        decreases n - b,
    {
        let ghost before = frame@;
        let ghost bh = band_height(h as int, step as int, b as int);
        frame.extend_from_slice(bands[b].as_slice());
        proof {
            let wi = w as int;
            let band = bands@[b as int]@;
            assert(frame@ =~= before + band);
            assert((b + 1) * step == b * step + step) by (nonlinear_arith);
            if b + 1 < n {
                assert((b + 1) * step <= (n - 1) * step) by (nonlinear_arith)
                    requires
                        b + 1 <= n - 1,
                        step > 0,
                ;
            }
            assert((rows + bh) * wi == rows * wi + bh * wi) by (nonlinear_arith);
            assert forall|x: int, y: int| in_frame(wi, rows + bh, x, y) implies #[trigger] at(
                frame@,
                wi,
                x,
                y,
            ) == at(bands@[y / step as int]@, wi, x, y % step as int) by {
                if y < rows {
                    lemma_index_in_frame(wi, rows, x, y);
                    assert(at(before, wi, x, y) == before[y * wi + x]);
                } else {
                    let r = y - rows;
                    lemma_index_in_frame(wi, bh, x, r);
                    assert(y * wi == rows * wi + r * wi) by (nonlinear_arith)
                        requires
                            y == rows + r,
                    ;
                    lemma_fundamental_div_mod_converse(y, step as int, b as int, r);
                }
            }
            rows = rows + bh;
        }
        b = b + 1;
    }
    assert(h * w == w * h) by (nonlinear_arith);
    frame
}

/// The number of rows in band `b` when `h` rows are cut into bands of `step`.
pub open spec fn band_height(h: int, step: int, b: int) -> int {
    if h - b * step < step {
        h - b * step
    } else {
        step
    }
}

/// Joins rows of width `w` into one frame.
pub(crate) fn join_rows(rows: &Vec<Vec<u32>>, w: usize) -> (frame: Vec<u32>)
    requires
        0 < w,
        w * rows@.len() <= usize::MAX,
        forall|y: int| 0 <= y < rows@.len() ==> (#[trigger] rows@[y])@.len() == w,
    ensures
        frame@.len() == w * rows@.len(),
        forall|x: int, y: int|
            in_frame(w as int, rows@.len() as int, x, y) ==> #[trigger] at(frame@, w as int, x, y)
                == rows@[y]@[x],
{
    let h: usize = rows.len();
    proof {
        assert forall|b: int| 0 <= b < rows@.len() implies (#[trigger] rows@[b])@.len()
            == band_height(h as int, 1, b) * w by {
            assert(1 * w == w);
        }
        assert((h - 1) * 1 < h <= h * 1);
    }
    let frame = join_bands(rows, w, h, 1);
    proof {
        assert forall|x: int, y: int| in_frame(w as int, h as int, x, y) implies #[trigger] at(
            frame@,
            w as int,
            x,
            y,
        ) == rows@[y]@[x] by {
            assert(y / 1 == y && y % 1 == 0);
            assert(0 * w == 0);
        }
    }
    frame
}

/// What a picture is, index by index: the value at row `y` and column `x` of a
/// frame, `y` rows of `w` values further on, is what `sample` answers for the pixel,
/// and a frame of the right size for which this holds everywhere is the picture.
pub proof fn law_picture_holds_every_sample<R, F: Fn((usize, usize)) -> R>(
    frame: Seq<R>,
    w: int,
    h: int,
    sample: F,
)
    ensures
        is_picture(frame, w, h, sample) <==> {
            &&& frame.len() == w * h
            &&& forall|x: int, y: int|
                #![trigger value_of(sample, (x as usize, y as usize))]
                0 <= x < w && 0 <= y < h ==> frame[y * w + x] == value_of(
                    sample,
                    (x as usize, y as usize),
                )
        },
{
    if is_picture(frame, w, h, sample) {
        assert forall|x: int, y: int|
            #![trigger value_of(sample, (x as usize, y as usize))]
            0 <= x < w && 0 <= y < h implies frame[y * w + x] == value_of(
            sample,
            (x as usize, y as usize),
        ) by {
            assert(at(frame, w, x, y) == sampled(sample, x, y));
        }
    }
}

} // verus!
