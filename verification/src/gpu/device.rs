//! What is decided and checked around the calls of a device that keeps its own
//! frame: which kernel runs, which buffers are made anew, and whether what comes
//! back has the right size.

use crate::float_bits::{double_lt, double_lt_spec};
use crate::fractal::fractal::F32_PRECISION_THRESHOLD;
use crate::fractal::fractal_type::FractalType;
use crate::func::{evaluate, is_function, value_of};
use crate::gui::color::{equalized, escaped_at, escaped_upto, lemma_upto_bounds, lemma_upto_step};
use vstd::prelude::*;

verus! {

/// Whether the kernel in single precision computes a frame: only the first two
/// fractals have one, and only up to a zoom is it exact enough.
pub open spec fn single_kernel_runs(fractal: u32, zoom: u64) -> bool {
    (fractal == 0 || fractal == 1) && double_lt_spec(zoom, F32_PRECISION_THRESHOLD)
}

/// Whether the kernel in single precision computes a frame. `zoom` answers the
/// zoom of the frame and is asked only for the fractals that have such a kernel.
pub fn use_single_kernel<Z: Fn(()) -> u64>(fractal: u32, zoom: &Z) -> (r: bool)
    requires
        is_function(*zoom),
    ensures
        r == single_kernel_runs(fractal, value_of(*zoom, ())),
{
    let f32_capable: bool = fractal == 0 || fractal == 1;
    if f32_capable {
        return double_lt(evaluate(zoom, ()), F32_PRECISION_THRESHOLD);
    }
    false
}

/// Whether a buffer that holds `held` values, if there is one, is too small for `n`.
pub fn needs_alloc(held: Option<usize>, n: usize) -> (r: bool)
    ensures
        r == match held {
            Some(len) => len < n,
            None => true,
        },
{
    match held {
        Some(len) => len < n,
        None => true,
    }
}

/// Why a buffer cannot take what a device hands over.
#[derive(Clone, Copy, Debug, PartialEq, Eq, Structural)]
pub enum SizeError {
    /// The destination of a frame has another size than the frame.
    Destination { len: usize, wanted: usize },
    /// A batch has more pixels than the frame.
    Batch { pixels: usize, frame: usize },
    /// A palette is not made of four bytes an entry.
    Palette { len: usize },
}

/// Checks the destination of a frame.
pub fn check_destination(len: usize, width: u32, height: u32) -> (r: Result<(), SizeError>)
    requires
        width * height <= u32::MAX,
    ensures
        r == (if len == width * height {
            Ok(())
        } else {
            Err(SizeError::Destination { len, wanted: (width * height) as usize })
        }),
{
    let wanted: usize = (width * height) as usize;
    if len == wanted {
        Ok(())
    } else {
        Err(SizeError::Destination { len, wanted })
    }
}

/// Checks the size of a batch, and answers how many values the host's buffer must
/// hold to take it: it grows but never shrinks.
pub fn check_batch(total_pixels: u32, width: u32, height: u32, held: usize) -> (r: Result<
    usize,
    SizeError,
>)
    requires
        width * height <= u32::MAX,
    ensures
        r == (if total_pixels <= width * height {
            Ok(
                if held < total_pixels {
                    total_pixels as usize
                } else {
                    held
                },
            )
        } else {
            Err(
                SizeError::Batch {
                    pixels: total_pixels as usize,
                    frame: (width * height) as usize,
                },
            )
        }),
{
    let n: usize = total_pixels as usize;
    let frame: usize = (width * height) as usize;
    if n > frame {
        return Err(SizeError::Batch { pixels: n, frame });
    }
    if held < n {
        Ok(n)
    } else {
        Ok(held)
    }
}

/// Checks the palette and the destination of a coloured frame, and answers the
/// number of entries in the palette.
pub fn check_colors(out_len: usize, lut_len: usize, width: u32, height: u32) -> (r: Result<
    u32,
    SizeError,
>)
    requires
        width * height <= u32::MAX,
        width * height * 4 <= usize::MAX,
        lut_len / 4 <= u32::MAX,
    ensures
        r == (if out_len != width * height * 4 {
            Err(SizeError::Destination { len: out_len, wanted: (width * height * 4) as usize })
        } else if lut_len % 4 != 0 {
            Err(SizeError::Palette { len: lut_len })
        } else {
            Ok((lut_len / 4) as u32)
        }),
{
    let wanted: usize = (width * height) as usize * 4;
    if out_len != wanted {
        return Err(SizeError::Destination { len: out_len, wanted });
    }
    if lut_len % 4 != 0 {
        return Err(SizeError::Palette { len: lut_len });
    }
    Ok((lut_len / 4) as u32)
}

/// Whether a palette has to be uploaded: the one that is there, if any, is another.
pub fn needs_palette(cached: Option<u8>, scheme_id: u8) -> (r: bool)
    ensures
        r == (cached != Some(scheme_id)),
{
    match cached {
        Some(id) => id != scheme_id,
        None => true,
    }
}

/// The sum of the first `n` counts.
pub open spec fn sum_of(hist: Seq<u32>, n: nat) -> nat
    decreases n,
{
    if n == 0 {
        0
    } else {
        sum_of(hist, (n - 1) as nat) + hist[n - 1] as nat
    }
}

proof fn lemma_sum_bounds(hist: Seq<u32>, n: nat)
    ensures
        sum_of(hist, n) <= n * u32::MAX,
    decreases n,
{
    if n > 0 {
        lemma_sum_bounds(hist, (n - 1) as nat);
        assert(n * u32::MAX == (n - 1) * u32::MAX + u32::MAX) by (nonlinear_arith);
    }
}

/// The sum of all counts.
fn total_of(hist: &Vec<u32>) -> (r: u64)
    requires
        hist@.len() <= 0x1_0000_0000,
    ensures
        r == sum_of(hist@, hist@.len()),
{
    let mut total: u64 = 0;
    let mut i: usize = 0;
    while i < hist.len()
        invariant
            hist@.len() <= 0x1_0000_0000,
            i <= hist@.len(),
            total == sum_of(hist@, i as nat),
        decreases hist@.len() - i,
    {
        proof {
            lemma_sum_bounds(hist@, (i + 1) as nat);
            assert((i + 1) * u32::MAX <= 0x1_0000_0000 * u32::MAX) by (nonlinear_arith)
                requires
                    i + 1 <= 0x1_0000_0000,
            ;
        }
        total = total + hist[i] as u64;
        i = i + 1;
    }
    total
}

/// The equalised position of every whole iteration count, from a histogram that a
/// device computed: the part of the counted pixels up to there, or zero if none
/// were counted. `quotient` answers the quotient of two counts.
pub fn equalize_histogram<Q: Fn((u64, u64)) -> u32>(hist: &Vec<u32>, quotient: &Q) -> (cdf: Vec<u32>)
    requires
        hist@.len() <= 0x1_0000_0000,
        is_function(*quotient),
    ensures
        cdf@.len() == hist@.len(),
        forall|k: int|
            0 <= k < cdf@.len() ==> #[trigger] cdf@[k] == (if sum_of(hist@, hist@.len()) > 0 {
                value_of(
                    *quotient,
                    (sum_of(hist@, (k + 1) as nat) as u64, sum_of(hist@, hist@.len()) as u64),
                )
            } else {
                0
            }),
{
    let total: u64 = total_of(hist);
    let mut cdf: Vec<u32> = Vec::new();
    let mut running: u64 = 0;
    let mut i: usize = 0;
    while i < hist.len()
        invariant
            hist@.len() <= 0x1_0000_0000,
            is_function(*quotient),
            total == sum_of(hist@, hist@.len()),
            i <= hist@.len(),
            running == sum_of(hist@, i as nat),
            cdf@.len() == i,
            forall|k: int|
                0 <= k < i ==> #[trigger] cdf@[k] == (if total > 0 {
                    value_of(*quotient, (sum_of(hist@, (k + 1) as nat) as u64, total))
                } else {
                    0
                }),
        decreases hist@.len() - i,
    {
        proof {
            lemma_sum_bounds(hist@, (i + 1) as nat);
            assert((i + 1) * u32::MAX <= 0x1_0000_0000 * u32::MAX) by (nonlinear_arith)
                requires
                    i + 1 <= 0x1_0000_0000,
            ;
        }
        running = running + hist[i] as u64;
        if total > 0 {
            cdf.push(evaluate(quotient, (running, total)));
        } else {
            cdf.push(0);
        }
        i = i + 1;
    }
    cdf
}

/// The kernel in single precision runs exactly for the Mandelbrot set and for Julia
/// sets, at zooms below one million.
pub proof fn law_single_kernel_runs_where_it_is_exact(fractal: FractalType, zoom: u64, other: u32)
    ensures
        single_kernel_runs(fractal.code(), zoom) <==> (fractal == FractalType::Mandelbrot || fractal
            == FractalType::Julia) && double_lt_spec(zoom, 0x412e_8480_0000_0000),
        2 <= other ==> !single_kernel_runs(other, zoom),
{
}

/// Sums add up: the counts of two histograms one behind the other sum to both sums,
/// and those of a single count to that count.
pub proof fn law_sums_add_up(a: Seq<u32>, b: Seq<u32>, v: u32)
    ensures
        sum_of(a + b, (a + b).len()) == sum_of(a, a.len()) + sum_of(b, b.len()),
        sum_of(seq![v], 1) == v,
        sum_of(Seq::<u32>::empty(), 0) == 0,
    decreases b.len(),
{
    reveal_with_fuel(sum_of, 2);
    if b.len() > 0 {
        let c = b.drop_last();
        law_sums_add_up(a, c, v);
        lemma_sum_of_prefix(a + b, a + c, (a + c).len());
        lemma_sum_of_prefix(b, c, c.len());
        assert((a + b)[(a + b).len() - 1] == b[b.len() - 1]);
    } else {
        assert(a + b =~= a);
    }
}

proof fn lemma_sum_of_prefix(a: Seq<u32>, b: Seq<u32>, n: nat)
    requires
        n <= a.len(),
        n <= b.len(),
        forall|i: int| 0 <= i < n ==> a[i] == b[i],
    ensures
        sum_of(a, n) == sum_of(b, n),
    decreases n,
{
    if n > 0 {
        lemma_sum_of_prefix(a, b, (n - 1) as nat);
    }
}

proof fn lemma_sum_is_upto(hist: Seq<u32>, buf: Seq<u32>, max_iter: u32, k: nat)
    requires
        k <= hist.len(),
        forall|j: int|
            0 <= j < hist.len() ==> #[trigger] hist[j] == escaped_at(
                buf,
                max_iter,
                j,
                0,
                buf.len() as int,
            ),
    ensures
        sum_of(hist, k) == escaped_upto(buf, max_iter, k - 1, buf.len()),
    decreases k,
{
    if k > 0 {
        lemma_sum_is_upto(hist, buf, max_iter, (k - 1) as nat);
        lemma_upto_step(buf, max_iter, k - 1, buf.len());
        assert(hist[k - 1] == escaped_at(buf, max_iter, k - 1, 0, buf.len() as int));
    } else {
        lemma_upto_bounds(buf, max_iter, -1, buf.len());
    }
}

/// A device and the CPU equalise alike: from the histogram of the escaped pixels of a
/// frame the device gets the equalised positions that the CPU gets from the frame.
pub proof fn law_device_equalizes_as_the_cpu_does<Q: Fn((u64, u64)) -> u32>(
    hist: Seq<u32>,
    buf: Seq<u32>,
    max_iter: u32,
    quotient: Q,
    k: int,
)
    requires
        hist.len() == max_iter + 1,
        forall|j: int|
            0 <= j < hist.len() ==> #[trigger] hist[j] == escaped_at(
                buf,
                max_iter,
                j,
                0,
                buf.len() as int,
            ),
        0 <= k < hist.len(),
    ensures
        equalized(buf, max_iter, k, quotient) == (if sum_of(hist, hist.len()) > 0 {
            value_of(
                quotient,
                (sum_of(hist, (k + 1) as nat) as u64, sum_of(hist, hist.len()) as u64),
            )
        } else {
            0
        }),
{
    lemma_sum_is_upto(hist, buf, max_iter, (k + 1) as nat);
    lemma_sum_is_upto(hist, buf, max_iter, hist.len());
}

} // verus!
