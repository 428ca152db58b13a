//! From escape-time values to colours, with the histogram equalised: the
//! palette is spread over the iteration counts that occur in the frame, in
//! proportion to how many pixels have them.
//!
//! A colour is four bytes: red, green, blue and opacity.

use crate::float_bits::{single_floor, single_ge, single_ge_spec, single_lt, single_lt_spec, single_of, single_to_u64, u32_to_single};
use crate::func::{evaluate, is_function, par_map, value_of};
use vstd::prelude::*;

verus! {

/// Entries in a palette.
pub const LUT_SIZE: usize = 8192;

/// Frames with at least this many pixels are coloured on the thread pool.
pub const PARALLEL_PIXELS: usize = 200_000;

/// Pixels that one task of a parallel histogram looks at.
pub const HISTOGRAM_CHUNK: usize = 65_536;

/// A palette.
#[derive(Clone, Copy, Debug, PartialEq, Eq, Structural)]
pub enum ColorScheme {
    Inferno,
    Ocean,
    Plasma,
    Grayscale,
    Electric,
    Sunset,
}

impl Default for ColorScheme {
    fn default() -> (r: ColorScheme)
        ensures
            r == ColorScheme::Inferno,
    {
        ColorScheme::Inferno
    }
}

/// Every palette, in the order in which they are offered.
pub open spec fn schemes() -> Seq<ColorScheme> {
    seq![
        ColorScheme::Inferno,
        ColorScheme::Ocean,
        ColorScheme::Plasma,
        ColorScheme::Grayscale,
        ColorScheme::Electric,
        ColorScheme::Sunset,
    ]
}

impl ColorScheme {
    /// Every palette, in the order in which they are offered.
    pub fn all() -> (r: [ColorScheme; 6])
        ensures
            r@ == schemes(),
    {
        [
            ColorScheme::Inferno,
            ColorScheme::Ocean,
            ColorScheme::Plasma,
            ColorScheme::Grayscale,
            ColorScheme::Electric,
            ColorScheme::Sunset,
        ]
    }

    /// The name shown to the user.
    pub open spec fn label(self) -> Seq<char> {
        match self {
            ColorScheme::Inferno => "Inferno"@,
            ColorScheme::Ocean => "Ocean"@,
            ColorScheme::Plasma => "Plasma"@,
            ColorScheme::Grayscale => "Grayscale"@,
            ColorScheme::Electric => "Electric"@,
            ColorScheme::Sunset => "Sunset"@,
        }
    }

    /// The name shown to the user.
    pub fn name(self) -> (r: &'static str)
        ensures
            r@ == self.label(),
    {
        match self {
            ColorScheme::Inferno => "Inferno",
            ColorScheme::Ocean => "Ocean",
            ColorScheme::Plasma => "Plasma",
            ColorScheme::Grayscale => "Grayscale",
            ColorScheme::Electric => "Electric",
            ColorScheme::Sunset => "Sunset",
        }
    }

    /// The place of the palette in the order in which they are offered.
    pub open spec fn index(self) -> int {
        match self {
            ColorScheme::Inferno => 0,
            ColorScheme::Ocean => 1,
            ColorScheme::Plasma => 2,
            ColorScheme::Grayscale => 3,
            ColorScheme::Electric => 4,
            ColorScheme::Sunset => 5,
        }
    }

    /// The place of the palette in the order in which they are offered.
    pub fn palette_index(self) -> (r: usize)
        ensures
            r == self.index(),
    {
        match self {
            ColorScheme::Inferno => 0,
            ColorScheme::Ocean => 1,
            ColorScheme::Plasma => 2,
            ColorScheme::Grayscale => 3,
            ColorScheme::Electric => 4,
            ColorScheme::Sunset => 5,
        }
    }
}

/// The place of a palette in the list of all is its index, so no two share one.
pub proof fn law_palettes_are_numbered(a: ColorScheme, b: ColorScheme)
    ensures
        0 <= a.index() < schemes().len(),
        schemes()[a.index()] == a,
        a.index() == b.index() <==> a == b,
{
}

/// Samples a palette at every entry of its table.
pub fn build_lut<P: Fn(usize) -> [u8; 4]>(sample: &P) -> (lut: Vec<[u8; 4]>)
    requires
        is_function(*sample),
    ensures
        lut@.len() == LUT_SIZE,
        forall|i: int| 0 <= i < LUT_SIZE ==> #[trigger] lut@[i] == value_of(*sample, i as usize),
{
    let mut lut: Vec<[u8; 4]> = Vec::new();
    let mut i: usize = 0;
    while i < LUT_SIZE
        invariant
            is_function(*sample),
            i <= LUT_SIZE,
            lut@.len() == i,
            forall|k: int| 0 <= k < i ==> #[trigger] lut@[k] == value_of(*sample, k as usize),
        decreases LUT_SIZE - i,
    {
        lut.push(evaluate(sample, i));
        i = i + 1;
    }
    lut
}

/// The table of a palette as bytes, four per entry, for a device to index as the
/// CPU does.
pub fn lut_bytes(lut: &Vec<[u8; 4]>) -> (bytes: Vec<u8>)
    requires
        4 * lut@.len() <= usize::MAX,
    ensures
        bytes@.len() == 4 * lut@.len(),
        forall|i: int, c: int|
            #![trigger lut@[i][c]]
            0 <= i < lut@.len() && 0 <= c < 4 ==> bytes@[4 * i + c] == lut@[i][c],
{
    let mut bytes: Vec<u8> = Vec::new();
    let mut i: usize = 0;
    while i < lut.len()
        invariant
            i <= lut@.len(),
            bytes@.len() == 4 * i,
            forall|k: int, c: int|
                #![trigger lut@[k][c]]
                0 <= k < i && 0 <= c < 4 ==> bytes@[4 * k + c] == lut@[k][c],
        decreases lut@.len() - i,
    {
        let color: [u8; 4] = lut[i];
        bytes.push(color[0]);
        bytes.push(color[1]);
        bytes.push(color[2]);
        bytes.push(color[3]);
        i = i + 1;
    }
    bytes
}

/// The pixel escaped: its value is below the limit.
pub open spec fn is_escaped(v: u32, max_iter: u32) -> bool {
    single_lt_spec(v, single_of(max_iter))
}

/// The whole iterations in a value, at most the limit.
pub open spec fn bin_of(v: u32, max_iter: u32) -> int {
    if single_floor(v) <= max_iter {
        single_floor(v) as int
    } else {
        max_iter as int
    }
}

/// How many of the pixels before index `n` escaped after at most `k` whole iterations.
pub open spec fn escaped_upto(buf: Seq<u32>, max_iter: u32, k: int, n: nat) -> nat
    decreases n,
{
    if n == 0 {
        0
    } else {
        escaped_upto(buf, max_iter, k, (n - 1) as nat) + (if is_escaped(buf[n - 1], max_iter)
            && bin_of(buf[n - 1], max_iter) <= k {
            1nat
        } else {
            0nat
        })
    }
}

/// How many of the pixels from index `from` to `to` escaped after exactly `k`
/// whole iterations.
pub open spec fn escaped_at(buf: Seq<u32>, max_iter: u32, k: int, from: int, to: int) -> nat
    decreases to - from,
{
    if to <= from {
        0
    } else {
        escaped_at(buf, max_iter, k, from, to - 1) + (if is_escaped(buf[to - 1], max_iter)
            && bin_of(buf[to - 1], max_iter) == k {
            1nat
        } else {
            0nat
        })
    }
}

/// The part of the escaped pixels that escaped after at most `k` whole
/// iterations; zero if none escaped. `quotient` answers the quotient of two
/// counts as a single.
pub open spec fn equalized<Q: Fn((u64, u64)) -> u32>(
    buf: Seq<u32>,
    max_iter: u32,
    k: int,
    quotient: Q,
) -> u32 {
    let total = escaped_upto(buf, max_iter, max_iter as int, buf.len());
    if total > 0 {
        value_of(quotient, (escaped_upto(buf, max_iter, k, buf.len()) as u64, total as u64))
    } else {
        0
    }
}

/// The colour of a pixel of value `v`: black if it never escaped, else the entry
/// of the palette at its place between the equalised positions of the whole
/// iteration counts below and above it. `place` answers that entry.
pub open spec fn color_of<Q: Fn((u64, u64)) -> u32, P: Fn((u32, u32, u32)) -> usize>(
    buf: Seq<u32>,
    max_iter: u32,
    lut: Seq<[u8; 4]>,
    quotient: Q,
    place: P,
    v: u32,
) -> [u8; 4] {
    if single_ge_spec(v, single_of(max_iter)) {
        [0u8, 0u8, 0u8, 255u8]
    } else {
        let lo = bin_of(v, max_iter);
        let hi = if lo + 1 < max_iter {
            lo + 1
        } else {
            max_iter as int
        };
        let i = value_of(
            place,
            (
                v,
                equalized(buf, max_iter, lo, quotient),
                equalized(buf, max_iter, hi, quotient),
            ),
        );
        if i < LUT_SIZE {
            lut[i as int]
        } else {
            lut[LUT_SIZE - 1]
        }
    }
}

/// The colours of the pixels of a frame.
pub open spec fn colors_of<Q: Fn((u64, u64)) -> u32, P: Fn((u32, u32, u32)) -> usize>(
    buf: Seq<u32>,
    max_iter: u32,
    lut: Seq<[u8; 4]>,
    quotient: Q,
    place: P,
) -> Seq<[u8; 4]> {
    Seq::new(buf.len(), |i: int| color_of(buf, max_iter, lut, quotient, place, buf[i]))
}

/// The bin of a value.
fn bin(v: u32, max_iter: u32) -> (r: usize)
    requires
        max_iter < usize::MAX,
    ensures
        r == bin_of(v, max_iter),
        r <= max_iter,
{
    let whole: u64 = single_to_u64(v);
    if whole <= max_iter as u64 {
        whole as usize
    } else {
        max_iter as usize
    }
}

proof fn lemma_escaped_at_small(buf: Seq<u32>, max_iter: u32, k: int, from: int, to: int)
    requires
        from <= to,
    ensures
        escaped_at(buf, max_iter, k, from, to) <= to - from,
    decreases to - from,
{
    if from < to {
        lemma_escaped_at_small(buf, max_iter, k, from, to - 1);
    }
}

proof fn lemma_escaped_at_joined(buf: Seq<u32>, max_iter: u32, k: int, a: int, b: int, c: int)
    requires
        a <= b <= c,
    ensures
        escaped_at(buf, max_iter, k, a, c) == escaped_at(buf, max_iter, k, a, b) + escaped_at(
            buf,
            max_iter,
            k,
            b,
            c,
        ),
    decreases c - b,
{
    if b < c {
        lemma_escaped_at_joined(buf, max_iter, k, a, b, c - 1);
    }
}

/// The histogram of the escaped pixels from index `from` to `to`.
fn histogram(buf: &Vec<u32>, max_iter: u32, from: usize, to: usize) -> (hist: Vec<u64>)
    requires
        max_iter < usize::MAX,
        from <= to <= buf@.len(),
    ensures
        hist@.len() == max_iter + 1,
        forall|k: int|
            0 <= k <= max_iter ==> #[trigger] hist@[k] == escaped_at(
                buf@,
                max_iter,
                k,
                from as int,
                to as int,
            ),
{
    let limit: u32 = u32_to_single(max_iter);
    let mut hist: Vec<u64> = vec![0u64; max_iter as usize + 1];
    let mut i: usize = from;
    while i < to
        invariant
            max_iter < usize::MAX,
            limit == single_of(max_iter),
            from <= i <= to <= buf@.len(),
            hist@.len() == max_iter + 1,
            forall|k: int|
                0 <= k <= max_iter ==> #[trigger] hist@[k] == escaped_at(
                    buf@,
                    max_iter,
                    k,
                    from as int,
                    i as int,
                ),
        decreases to - i,
    {
        if single_lt(buf[i], limit) {
            let k: usize = bin(buf[i], max_iter);
            proof {
                lemma_escaped_at_small(buf@, max_iter, k as int, from as int, i as int);
            }
            hist.set(k, hist[k] + 1);
        }
        i = i + 1;
    }
    hist
}

/// Adds one histogram to another.
fn merge(hist: &mut Vec<u64>, more: &Vec<u64>)
    requires
        old(hist)@.len() == more@.len(),
        forall|k: int|
            0 <= k < more@.len() ==> #[trigger] old(hist)@[k] + more@[k] <= u64::MAX,
    ensures
        final(hist)@.len() == more@.len(),
        forall|k: int|
            0 <= k < more@.len() ==> #[trigger] final(hist)@[k] == old(hist)@[k] + more@[k],
{
    let mut k: usize = 0;
    while k < more.len()
        invariant
            k <= more@.len(),
            hist@.len() == more@.len(),
            old(hist)@.len() == more@.len(),
            forall|j: int|
                0 <= j < more@.len() ==> #[trigger] old(hist)@[j] + more@[j] <= u64::MAX,
            forall|j: int|
                0 <= j < more@.len() ==> #[trigger] hist@[j] == (if j < k {
                    old(hist)@[j] + more@[j]
                } else {
                    old(hist)@[j] as int
                }),
        decreases more@.len() - k,
    {
        assert(old(hist)@[k as int] + more@[k as int] <= u64::MAX);
        hist.set(k, hist[k] + more[k]);
        k = k + 1;
    }
}

/// The histogram of all escaped pixels, counted in pieces on the thread pool.
fn histogram_parallel(buf: &Vec<u32>, max_iter: u32) -> (hist: Vec<u64>)
    requires
        max_iter < usize::MAX,
    ensures
        hist@.len() == max_iter + 1,
        forall|k: int|
            0 <= k <= max_iter ==> #[trigger] hist@[k] == escaped_at(
                buf@,
                max_iter,
                k,
                0,
                buf@.len() as int,
            ),
{
    let len: usize = buf.len();
    let n: usize = len / HISTOGRAM_CHUNK;
    let piece = |c: usize| -> (r: Vec<u64>)
        requires
            c < n,
        ensures
            r@.len() == max_iter + 1,
            forall|k: int|
                0 <= k <= max_iter ==> #[trigger] r@[k] == escaped_at(
                    buf@,
                    max_iter,
                    k,
                    c * HISTOGRAM_CHUNK,
                    (c + 1) * HISTOGRAM_CHUNK,
                ),
        { histogram(buf, max_iter, c * HISTOGRAM_CHUNK, (c + 1) * HISTOGRAM_CHUNK) };
    let pieces = par_map(n, &piece);
    let mut hist: Vec<u64> = histogram(buf, max_iter, n * HISTOGRAM_CHUNK, len);
    let ghost rest = hist@;
    let mut c: usize = 0;
    while c < n
        invariant
            max_iter < usize::MAX,
            len == buf@.len(),
            n == len / HISTOGRAM_CHUNK,
            pieces@.len() == n,
            c <= n,
            hist@.len() == max_iter + 1,
            rest.len() == max_iter + 1,
            forall|j: int|
                0 <= j < n ==> call_ensures(piece, (j as usize,), #[trigger] pieces@[j]),
            forall|k: int|
                0 <= k <= max_iter ==> #[trigger] rest[k] == escaped_at(
                    buf@,
                    max_iter,
                    k,
                    n * HISTOGRAM_CHUNK,
                    len as int,
                ),
            forall|k: int|
                0 <= k <= max_iter ==> #[trigger] hist@[k] == escaped_at(
                    buf@,
                    max_iter,
                    k,
                    0,
                    c * HISTOGRAM_CHUNK,
                ) + rest[k],
            forall|j: usize, r: Vec<u64>|
                j < n && #[trigger] call_ensures(piece, (j,), r) ==> r@.len() == max_iter + 1
                    && forall|k: int|
                    0 <= k <= max_iter ==> #[trigger] r@[k] == escaped_at(
                        buf@,
                        max_iter,
                        k,
                        j * HISTOGRAM_CHUNK,
                        (j + 1) * HISTOGRAM_CHUNK,
                    ),
        decreases n - c,
    {
        assert(call_ensures(piece, (c,), pieces@[c as int]));
        proof {
            assert forall|k: int| 0 <= k <= max_iter implies #[trigger] hist@[k]
                + pieces@[c as int]@[k] == escaped_at(buf@, max_iter, k, 0, (c + 1) * HISTOGRAM_CHUNK)
                + rest[k] && hist@[k] + pieces@[c as int]@[k] <= u64::MAX by {
                lemma_escaped_at_joined(
                    buf@,
                    max_iter,
                    k,
                    0,
                    c * HISTOGRAM_CHUNK,
                    (c + 1) * HISTOGRAM_CHUNK,
                );
                lemma_escaped_at_small(buf@, max_iter, k, 0, (c + 1) * HISTOGRAM_CHUNK);
                lemma_escaped_at_small(buf@, max_iter, k, n * HISTOGRAM_CHUNK, len as int);
                assert(rest[k] <= len - n * HISTOGRAM_CHUNK);
            }
        }
        merge(&mut hist, &pieces[c]);
        c = c + 1;
    }
    proof {
        assert forall|k: int| 0 <= k <= max_iter implies #[trigger] hist@[k] == escaped_at(
            buf@,
            max_iter,
            k,
            0,
            buf@.len() as int,
        ) by {
            lemma_escaped_at_joined(buf@, max_iter, k, 0, n * HISTOGRAM_CHUNK, len as int);
            assert(rest[k] == rest[k]);
        }
    }
    hist
}

pub proof fn lemma_upto_step(buf: Seq<u32>, max_iter: u32, k: int, n: nat)
    ensures
        escaped_upto(buf, max_iter, k, n) == escaped_upto(buf, max_iter, k - 1, n) + escaped_at(
            buf,
            max_iter,
            k,
            0,
            n as int,
        ),
    decreases n,
{
    if n > 0 {
        lemma_upto_step(buf, max_iter, k, (n - 1) as nat);
    }
}

pub proof fn lemma_upto_bounds(buf: Seq<u32>, max_iter: u32, k: int, n: nat)
    ensures
        escaped_upto(buf, max_iter, k, n) <= n,
        k < 0 ==> escaped_upto(buf, max_iter, k, n) == 0,
    decreases n,
{
    if n > 0 {
        lemma_upto_bounds(buf, max_iter, k, (n - 1) as nat);
    }
}

/// Running totals of the histogram.
fn running_totals(buf: &Vec<u32>, max_iter: u32, hist: &Vec<u64>) -> (upto: Vec<u64>)
    requires
        max_iter < usize::MAX,
        hist@.len() == max_iter + 1,
        forall|k: int|
            0 <= k <= max_iter ==> #[trigger] hist@[k] == escaped_at(
                buf@,
                max_iter,
                k,
                0,
                buf@.len() as int,
            ),
    ensures
        upto@.len() == max_iter + 1,
        forall|k: int|
            0 <= k <= max_iter ==> #[trigger] upto@[k] == escaped_upto(
                buf@,
                max_iter,
                k,
                buf@.len(),
            ),
{
    let len: usize = buf.len();
    let bins: usize = hist.len();
    let mut upto: Vec<u64> = Vec::new();
    let mut running: u64 = 0;
    let mut k: usize = 0;
    proof {
        lemma_upto_bounds(buf@, max_iter, -1, buf@.len());
    }
    while k < bins
        invariant
            len == buf@.len(),
            bins == max_iter + 1,
            hist@.len() == bins,
            k <= bins,
            upto@.len() == k,
            running == escaped_upto(buf@, max_iter, k - 1, buf@.len()),
            forall|j: int|
                0 <= j <= max_iter ==> #[trigger] hist@[j] == escaped_at(
                    buf@,
                    max_iter,
                    j,
                    0,
                    buf@.len() as int,
                ),
            forall|j: int|
                0 <= j < k ==> #[trigger] upto@[j] == escaped_upto(
                    buf@,
                    max_iter,
                    j,
                    buf@.len(),
                ),
        decreases bins - k,
    {
        proof {
            lemma_upto_step(buf@, max_iter, k as int, buf@.len());
            lemma_upto_bounds(buf@, max_iter, k as int, buf@.len());
        }
        running = running + hist[k];
        upto.push(running);
        k = k + 1;
    }
    upto
}

/// The equalised position of every whole iteration count.
fn equalize<Q: Fn((u64, u64)) -> u32>(buf: &Vec<u32>, max_iter: u32, quotient: &Q) -> (cdf: Vec<u32>)
    requires
        max_iter < usize::MAX,
        is_function(*quotient),
    ensures
        cdf@.len() == max_iter + 1,
        forall|k: int|
            0 <= k <= max_iter ==> #[trigger] cdf@[k] == equalized(buf@, max_iter, k, *quotient),
{
    let hist: Vec<u64> = if buf.len() >= PARALLEL_PIXELS {
        histogram_parallel(buf, max_iter)
    } else {
        histogram(buf, max_iter, 0, buf.len())
    };
    let upto: Vec<u64> = running_totals(buf, max_iter, &hist);
    let total: u64 = upto[max_iter as usize];
    let mut cdf: Vec<u32> = Vec::new();
    let mut k: usize = 0;
    while k < upto.len()
        invariant
            is_function(*quotient),
            upto@.len() == max_iter + 1,
            total == escaped_upto(buf@, max_iter, max_iter as int, buf@.len()),
            forall|j: int|
                0 <= j <= max_iter ==> #[trigger] upto@[j] == escaped_upto(
                    buf@,
                    max_iter,
                    j,
                    buf@.len(),
                ),
            k <= upto@.len(),
            cdf@.len() == k,
            forall|j: int|
                0 <= j < k ==> #[trigger] cdf@[j] == equalized(buf@, max_iter, j, *quotient),
        decreases upto@.len() - k,
    {
        if total > 0 {
            cdf.push(evaluate(quotient, (upto[k], total)));
        } else {
            cdf.push(0);
        }
        k = k + 1;
    }
    cdf
}

/// The colour of one value, given the equalised positions.
fn color_value<Q: Fn((u64, u64)) -> u32, P: Fn((u32, u32, u32)) -> usize>(
    buf: &Vec<u32>,
    max_iter: u32,
    limit: u32,
    lut: &Vec<[u8; 4]>,
    cdf: &Vec<u32>,
    quotient: &Q,
    place: &P,
    v: u32,
) -> (r: [u8; 4])
    requires
        max_iter < usize::MAX,
        limit == single_of(max_iter),
        lut@.len() == LUT_SIZE,
        is_function(*place),
        cdf@.len() == max_iter + 1,
        forall|k: int|
            0 <= k <= max_iter ==> #[trigger] cdf@[k] == equalized(buf@, max_iter, k, *quotient),
    ensures
        r == color_of(buf@, max_iter, lut@, *quotient, *place, v),
{
    if single_ge(v, limit) {
        return [0, 0, 0, 255];
    }
    let lo: usize = bin(v, max_iter);
    let hi: usize = if lo + 1 < max_iter as usize {
        lo + 1
    } else {
        max_iter as usize
    };
    let i: usize = evaluate(place, (v, cdf[lo], cdf[hi]));
    if i < LUT_SIZE {
        lut[i]
    } else {
        lut[LUT_SIZE - 1]
    }
}

/// Colours a frame. `quotient` answers the quotient of two counts; `place`
/// answers which entry of the palette lies between two equalised positions, at
/// the fraction that a value has beyond its whole iterations.
pub fn colorize<
    Q: Fn((u64, u64)) -> u32 + Sync,
    P: Fn((u32, u32, u32)) -> usize + Sync,
>(buf: &Vec<u32>, max_iter: u32, lut: &Vec<[u8; 4]>, quotient: &Q, place: &P) -> (out: Vec<[u8; 4]>)
    requires
        max_iter < usize::MAX,
        lut@.len() == LUT_SIZE,
        is_function(*quotient),
        is_function(*place),
    ensures
        out@ == colors_of(buf@, max_iter, lut@, *quotient, *place),
{
    let limit: u32 = u32_to_single(max_iter);
    let cdf: Vec<u32> = equalize(buf, max_iter, quotient);
    let n: usize = buf.len();
    if n >= PARALLEL_PIXELS {
        let one = |i: usize| -> (r: [u8; 4])
            requires
                i < n,
            ensures
                r == color_of(buf@, max_iter, lut@, *quotient, *place, buf@[i as int]),
            { color_value(buf, max_iter, limit, lut, &cdf, quotient, place, buf[i]) };
        let out = par_map(n, &one);
        proof {
            assert forall|i: int| 0 <= i < buf@.len() implies #[trigger] out@[i] == color_of(
                buf@,
                max_iter,
                lut@,
                *quotient,
                *place,
                buf@[i],
            ) by {
                assert(call_ensures(one, (i as usize,), out@[i]));
            }
            assert(out@ =~= colors_of(buf@, max_iter, lut@, *quotient, *place));
        }
        return out;
    }
    let mut out: Vec<[u8; 4]> = Vec::new();
    let mut i: usize = 0;
    while i < n
        invariant
            n == buf@.len(),
            max_iter < usize::MAX,
            limit == single_of(max_iter),
            lut@.len() == LUT_SIZE,
            is_function(*place),
            cdf@.len() == max_iter + 1,
            forall|k: int|
                0 <= k <= max_iter ==> #[trigger] cdf@[k] == equalized(
                    buf@,
                    max_iter,
                    k,
                    *quotient,
                ),
            i <= n,
            out@.len() == i,
            forall|j: int|
                0 <= j < i ==> #[trigger] out@[j] == color_of(
                    buf@,
                    max_iter,
                    lut@,
                    *quotient,
                    *place,
                    buf@[j],
                ),
        decreases n - i,
    {
        out.push(color_value(buf, max_iter, limit, lut, &cdf, quotient, place, buf[i]));
        i = i + 1;
    }
    assert(out@ =~= colors_of(buf@, max_iter, lut@, *quotient, *place));
    out
}

/// A pixel inside the set is black, whatever the palette.
pub proof fn law_interior_is_black<Q: Fn((u64, u64)) -> u32, P: Fn((u32, u32, u32)) -> usize>(
    buf: Seq<u32>,
    max_iter: u32,
    lut: Seq<[u8; 4]>,
    quotient: Q,
    place: P,
    v: u32,
)
    requires
        single_ge_spec(v, single_of(max_iter)),
    ensures
        color_of(buf, max_iter, lut, quotient, place, v) == [0u8, 0u8, 0u8, 255u8],
{
}

/// The counts behind the equalised positions never go down as the iterations go
/// up, and none exceeds the last.
pub proof fn law_equalization_is_monotone(buf: Seq<u32>, max_iter: u32, j: int, k: int, n: nat)
    requires
        j <= k,
    ensures
        escaped_upto(buf, max_iter, j, n) <= escaped_upto(buf, max_iter, k, n),
        escaped_upto(buf, max_iter, k, n) <= escaped_upto(buf, max_iter, max_iter as int, n),
    decreases n,
{
    if n > 0 {
        law_equalization_is_monotone(buf, max_iter, j, k, (n - 1) as nat);
    }
}

/// Pixels inside the set do not take part in the equalisation: a frame with one
/// more of them has the same counts.
pub proof fn law_interior_does_not_shift_colors(buf: Seq<u32>, max_iter: u32, k: int, v: u32)
    requires
        single_ge_spec(v, single_of(max_iter)),
    ensures
        escaped_upto(buf.push(v), max_iter, k, (buf.len() + 1) as nat) == escaped_upto(
            buf,
            max_iter,
            k,
            buf.len(),
        ),
{
    lemma_upto_prefix(buf, buf.push(v), max_iter, k, buf.len());
}

proof fn lemma_upto_prefix(a: Seq<u32>, b: Seq<u32>, max_iter: u32, k: int, n: nat)
    requires
        n <= a.len(),
        n <= b.len(),
        forall|i: int| 0 <= i < n ==> a[i] == b[i],
    ensures
        escaped_upto(a, max_iter, k, n) == escaped_upto(b, max_iter, k, n),
    decreases n,
{
    if n > 0 {
        lemma_upto_prefix(a, b, max_iter, k, (n - 1) as nat);
    }
}

proof fn lemma_upto_doubled(buf: Seq<u32>, max_iter: u32, k: int, n: nat)
    requires
        n <= buf.len(),
    ensures
        escaped_upto(buf + buf, max_iter, k, (buf.len() + n) as nat) == escaped_upto(
            buf,
            max_iter,
            k,
            buf.len(),
        ) + escaped_upto(buf, max_iter, k, n),
    decreases n,
{
    if n > 0 {
        lemma_upto_doubled(buf, max_iter, k, (n - 1) as nat);
    } else {
        lemma_upto_prefix(buf, buf + buf, max_iter, k, buf.len());
    }
}

/// Only the proportions of the counts matter: a frame followed by itself has the
/// colours of the frame, twice, where the quotient of two counts does not change
/// when both are doubled.
pub proof fn law_repeated_frame_repeats_its_colors<
    Q: Fn((u64, u64)) -> u32,
    P: Fn((u32, u32, u32)) -> usize,
>(buf: Seq<u32>, max_iter: u32, lut: Seq<[u8; 4]>, quotient: Q, place: P)
    requires
        2 * buf.len() <= u64::MAX,
        forall|a: u64, b: u64|
            a <= b <= buf.len() && 0 < b ==> #[trigger] value_of(quotient, (a, b)) == value_of(
                quotient,
                ((2 * a) as u64, (2 * b) as u64),
            ),
    ensures
        colors_of(buf + buf, max_iter, lut, quotient, place) == colors_of(
            buf,
            max_iter,
            lut,
            quotient,
            place,
        ) + colors_of(buf, max_iter, lut, quotient, place),
{
    let n = buf.len();
    assert forall|k: int| equalized(buf + buf, max_iter, k, quotient) == #[trigger] equalized(
        buf,
        max_iter,
        k,
        quotient,
    ) by {
        lemma_upto_doubled(buf, max_iter, k, n);
        lemma_upto_doubled(buf, max_iter, max_iter as int, n);
        lemma_upto_bounds(buf, max_iter, max_iter as int, n);
        law_equalization_is_monotone(buf, max_iter, k, k, n);
        let a = escaped_upto(buf, max_iter, k, n) as u64;
        let b = escaped_upto(buf, max_iter, max_iter as int, n) as u64;
        assert((buf + buf).len() == n + n);
        assert(b > 0 ==> value_of(quotient, (a, b)) == value_of(
            quotient,
            ((2 * a) as u64, (2 * b) as u64),
        ));
    }
    assert forall|v: u32|
        color_of(buf + buf, max_iter, lut, quotient, place, v) == #[trigger] color_of(
            buf,
            max_iter,
            lut,
            quotient,
            place,
            v,
        ) by {
        let lo = bin_of(v, max_iter);
        assert(equalized(buf + buf, max_iter, lo, quotient) == equalized(buf, max_iter, lo, quotient));
    }
    assert(colors_of(buf + buf, max_iter, lut, quotient, place) =~= colors_of(
        buf,
        max_iter,
        lut,
        quotient,
        place,
    ) + colors_of(buf, max_iter, lut, quotient, place));
}

/// The pixel is below the limit, and its whole iterations are at most `k`; at the
/// limit itself all pixels below it count.
pub open spec fn counts_upto(max_iter: u32, k: int) -> spec_fn(u32) -> bool {
    |v: u32|
        single_lt_spec(v, single_of(max_iter)) && (single_floor(v) <= k || max_iter <= k)
}

proof fn lemma_upto_is_a_count(buf: Seq<u32>, max_iter: u32, k: int, n: nat)
    requires
        n <= buf.len(),
    ensures
        escaped_upto(buf, max_iter, k, n) == buf.take(n as int).filter(
            counts_upto(max_iter, k),
        ).len(),
    decreases n,
{
    reveal(Seq::filter);
    if n > 0 {
        let m = (n - 1) as nat;
        lemma_upto_is_a_count(buf, max_iter, k, m);
        assert(buf.take(n as int).drop_last() =~= buf.take(m as int));
        assert(buf.take(n as int).last() == buf[m as int]);
    }
}

/// The equalised position of a whole iteration count is the quotient of two counts
/// of pixels of the frame: of those below the limit with at most so many whole
/// iterations, and of all below the limit. It is zero if there are none.
pub proof fn law_equalized_position_is_a_share_of_the_escaped<Q: Fn((u64, u64)) -> u32>(
    buf: Seq<u32>,
    max_iter: u32,
    k: int,
    quotient: Q,
)
    ensures
        ({
            let upto = buf.filter(counts_upto(max_iter, k)).len();
            let all = buf.filter(|v: u32| single_lt_spec(v, single_of(max_iter))).len();
            equalized(buf, max_iter, k, quotient) == (if all > 0 {
                value_of(quotient, (upto as u64, all as u64))
            } else {
                0
            })
        }),
{
    let n = buf.len();
    assert(buf.take(n as int) =~= buf);
    lemma_upto_is_a_count(buf, max_iter, k, n);
    lemma_upto_is_a_count(buf, max_iter, max_iter as int, n);
    let below = |v: u32| single_lt_spec(v, single_of(max_iter));
    assert(counts_upto(max_iter, max_iter as int) =~= below);
}

/// Only pixels at or above the limit are black for that: any other pixel, one that
/// escaped or has no value, gets an entry of the palette. It is the entry that
/// `place` answers between the equalised positions of the pixel's whole iterations
/// and of one more, neither beyond the limit; the last entry where that is beyond
/// the palette.
pub proof fn law_escaped_pixel_gets_its_palette_entry<
    Q: Fn((u64, u64)) -> u32,
    P: Fn((u32, u32, u32)) -> usize,
>(buf: Seq<u32>, max_iter: u32, lut: Seq<[u8; 4]>, quotient: Q, place: P, v: u32, lo: int, hi: int)
    requires
        !single_ge_spec(v, single_of(max_iter)),
        lo == single_floor(v) || (lo == max_iter && max_iter < single_floor(v)),
        lo <= max_iter,
        hi == lo + 1 || (hi == max_iter && lo == max_iter),
        hi <= max_iter,
    ensures
        ({
            let i = value_of(
                place,
                (
                    v,
                    equalized(buf, max_iter, lo, quotient),
                    equalized(buf, max_iter, hi, quotient),
                ),
            );
            &&& i < 8192 ==> color_of(buf, max_iter, lut, quotient, place, v) == lut[i as int]
            &&& 8192 <= i ==> color_of(buf, max_iter, lut, quotient, place, v) == lut[8191]
        }),
{
}

/// Every pixel of a coloured frame has the colour of its own value: two pixels of
/// equal value have one colour, wherever they lie.
pub proof fn law_frame_is_colored_pixel_by_pixel<
    Q: Fn((u64, u64)) -> u32,
    P: Fn((u32, u32, u32)) -> usize,
>(buf: Seq<u32>, max_iter: u32, lut: Seq<[u8; 4]>, quotient: Q, place: P, i: int, j: int)
    requires
        0 <= i < buf.len(),
        0 <= j < buf.len(),
    ensures
        colors_of(buf, max_iter, lut, quotient, place).len() == buf.len(),
        colors_of(buf, max_iter, lut, quotient, place)[i] == color_of(
            buf,
            max_iter,
            lut,
            quotient,
            place,
            buf[i],
        ),
        buf[i] == buf[j] ==> colors_of(buf, max_iter, lut, quotient, place)[i] == colors_of(
            buf,
            max_iter,
            lut,
            quotient,
            place,
        )[j],
{
}

/// What the palettes are called.
pub proof fn law_palettes_have_their_names(s: ColorScheme)
    ensures
        s == ColorScheme::Inferno ==> s.label() == seq!['I', 'n', 'f', 'e', 'r', 'n', 'o'],
        s == ColorScheme::Ocean ==> s.label() == seq!['O', 'c', 'e', 'a', 'n'],
        s == ColorScheme::Plasma ==> s.label() == seq!['P', 'l', 'a', 's', 'm', 'a'],
        s == ColorScheme::Grayscale ==> s.label() == seq!['G', 'r', 'a', 'y', 's', 'c', 'a', 'l', 'e'],
        s == ColorScheme::Electric ==> s.label() == seq!['E', 'l', 'e', 'c', 't', 'r', 'i', 'c'],
        s == ColorScheme::Sunset ==> s.label() == seq!['S', 'u', 'n', 's', 'e', 't'],
{
    reveal_strlit("Inferno");
    assert("Inferno"@ =~= seq!['I', 'n', 'f', 'e', 'r', 'n', 'o']);
    reveal_strlit("Ocean");
    assert("Ocean"@ =~= seq!['O', 'c', 'e', 'a', 'n']);
    reveal_strlit("Plasma");
    assert("Plasma"@ =~= seq!['P', 'l', 'a', 's', 'm', 'a']);
    reveal_strlit("Grayscale");
    assert("Grayscale"@ =~= seq!['G', 'r', 'a', 'y', 's', 'c', 'a', 'l', 'e']);
    reveal_strlit("Electric");
    assert("Electric"@ =~= seq!['E', 'l', 'e', 'c', 't', 'r', 'i', 'c']);
    reveal_strlit("Sunset");
    assert("Sunset"@ =~= seq!['S', 'u', 'n', 's', 'e', 't']);
}

} // verus!
