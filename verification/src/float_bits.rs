//! Comparisons and conversions on the bit patterns of IEEE 754 binary32
//! ("single") and binary64 ("double") numbers.
//!
//! An iteration value is carried through this library as the 32-bit pattern of
//! a single, a coordinate or a zoom as the 64-bit pattern of a double. Only
//! their order, their integer part and the conversion from a count are needed.

use vstd::arithmetic::power2::{lemma_pow2_adds, lemma_pow2_pos, lemma_pow2_strictly_increases, lemma_pow2_unfold, pow2};
use vstd::prelude::*;

verus! {

/// The quiet NaN that marks a pixel nobody has computed yet.
pub const SINGLE_NAN: u32 = 0x7fc0_0000;

/// Positive infinity as a single.
pub const SINGLE_INFINITY: u32 = 0x7f80_0000;

/// Negative infinity as a single.
pub const SINGLE_NEG_INFINITY: u32 = 0xff80_0000;

/// Zero as a double.
pub const DOUBLE_ZERO: u64 = 0;

/// One as a double.
pub const DOUBLE_ONE: u64 = 0x3ff0_0000_0000_0000;

/// Minus one half as a double.
pub const DOUBLE_MINUS_HALF: u64 = 0xbfe0_0000_0000_0000;

/// The pattern without its sign bit.
pub open spec fn single_magnitude(b: u32) -> nat {
    b as nat % 0x8000_0000
}

/// The pattern encodes no number.
pub open spec fn single_is_nan_spec(b: u32) -> bool {
    single_magnitude(b) > 0x7f80_0000
}

/// Position of the pattern on the number line: patterns of numbers compare as
/// their keys do, and both zeros have key zero.
pub open spec fn single_key(b: u32) -> int {
    if b < 0x8000_0000 {
        b as int
    } else {
        0x8000_0000 - b
    }
}

/// `a < b` as numbers.
pub open spec fn single_lt_spec(a: u32, b: u32) -> bool {
    !single_is_nan_spec(a) && !single_is_nan_spec(b) && single_key(a) < single_key(b)
}

/// `a >= b` as numbers.
pub open spec fn single_ge_spec(a: u32, b: u32) -> bool {
    !single_is_nan_spec(a) && !single_is_nan_spec(b) && single_key(a) >= single_key(b)
}

/// `a == b` as numbers.
pub open spec fn single_eq_spec(a: u32, b: u32) -> bool {
    !single_is_nan_spec(a) && !single_is_nan_spec(b) && single_key(a) == single_key(b)
}

/// Whether the pattern is a NaN.
pub fn single_is_nan(b: u32) -> (r: bool)
    ensures
        r == single_is_nan_spec(b),
{
    b % 0x8000_0000 > 0x7f80_0000
}

/// `a < b` on the numbers the patterns encode; false if either is a NaN.
pub fn single_lt(a: u32, b: u32) -> (r: bool)
    ensures
        r == single_lt_spec(a, b),
{
    if single_is_nan(a) || single_is_nan(b) {
        false
    } else if a < 0x8000_0000 {
        b < 0x8000_0000 && a < b
    } else if b < 0x8000_0000 {
        a != 0x8000_0000 || b != 0
    } else {
        b < a
    }
}

/// `a == b` on the numbers the patterns encode; false if either is a NaN.
pub fn single_eq(a: u32, b: u32) -> (r: bool)
    ensures
        r == single_eq_spec(a, b),
{
    if single_is_nan(a) || single_is_nan(b) {
        false
    } else {
        a == b || (a % 0x8000_0000 == 0 && b % 0x8000_0000 == 0)
    }
}

/// `a >= b` on the numbers the patterns encode; false if either is a NaN.
pub fn single_ge(a: u32, b: u32) -> (r: bool)
    ensures
        r == single_ge_spec(a, b),
{
    single_lt(b, a) || single_eq(a, b)
}

/// The exponent field of the pattern.
pub open spec fn single_exponent(b: u32) -> nat {
    single_magnitude(b) / 0x80_0000
}

/// The fraction field of the pattern.
pub open spec fn single_fraction(b: u32) -> nat {
    single_magnitude(b) % 0x80_0000
}

/// The size of the encoded number in units of the smallest positive single,
/// the 2^149th part of one.
pub open spec fn single_units(b: u32) -> nat {
    if single_exponent(b) == 0 {
        single_fraction(b)
    } else {
        (0x80_0000 + single_fraction(b)) * pow2((single_exponent(b) - 1) as nat)
    }
}

/// The encoded number, sign included, in those units.
pub open spec fn single_value(b: u32) -> int {
    if b < 0x8000_0000 {
        single_units(b) as int
    } else {
        -(single_units(b) as int)
    }
}

/// The integer part of the encoded number; zero for a negative number or a NaN.
pub open spec fn single_floor(b: u32) -> nat {
    if single_is_nan_spec(b) || single_key(b) <= 0 || single_exponent(b) < 127 {
        0
    } else if single_exponent(b) <= 150 {
        (0x80_0000 + single_fraction(b)) / pow2((150 - single_exponent(b)) as nat)
    } else {
        (0x80_0000 + single_fraction(b)) * pow2((single_exponent(b) - 150) as nat)
    }
}

/// The integer part of the number `b` encodes, at most `u64::MAX`.
pub fn single_to_u64(b: u32) -> (r: u64)
    ensures
        r == if single_floor(b) <= u64::MAX {
            single_floor(b)
        } else {
            u64::MAX as nat
        },
{
    if b >= 0x8000_0000 || single_is_nan(b) {
        return 0;
    }
    let ex: u64 = b as u64 / 0x80_0000;
    let mant: u64 = 0x80_0000 + b as u64 % 0x80_0000;
    if ex < 127 {
        0
    } else if ex <= 150 {
        let s: u64 = 150 - ex;
        proof {
            vstd::bits::lemma_u64_shr_is_div(mant, s);
            lemma_pow2_pos(s as nat);
        }
        let r: u64 = mant >> s;
        proof {
            assert(r <= mant) by (nonlinear_arith)
                requires
                    r == mant as nat / pow2(s as nat),
                    pow2(s as nat) > 0,
            ;
        }
        r
    } else if ex <= 190 {
        let s: u64 = ex - 150;
        proof {
            vstd::arithmetic::power2::lemma2_to64();
            vstd::arithmetic::power2::lemma2_to64_rest();
            if s < 40 {
                lemma_pow2_strictly_increases(s as nat, 40);
            }
            assert(mant * pow2(s as nat) <= u64::MAX) by (nonlinear_arith)
                requires
                    mant < 0x100_0000,
                    pow2(s as nat) <= 0x100_0000_0000,
            ;
            vstd::bits::lemma_u64_shl_is_mul(mant, s);
        }
        mant << s
    } else {
        proof {
            vstd::arithmetic::power2::lemma2_to64();
            vstd::arithmetic::power2::lemma2_to64_rest();
            let k = (ex - 150) as nat;
            if 41 < k {
                lemma_pow2_strictly_increases(41, k);
            }
            assert(mant * pow2(k) > u64::MAX) by (nonlinear_arith)
                requires
                    mant >= 0x80_0000,
                    pow2(k) >= 0x200_0000_0000,
            ;
        }
        u64::MAX
    }
}

/// The integer part of the number `b` encodes, at most `u32::MAX`.
pub fn single_to_u32(b: u32) -> (r: u32)
    ensures
        r == single_to_u32_spec(b),
{
    let v: u64 = single_to_u64(b);
    if v < 0xffff_ffff {
        v as u32
    } else {
        0xffff_ffff
    }
}

/// What `single_to_u32` returns.
pub open spec fn single_to_u32_spec(b: u32) -> nat {
    if single_floor(b) <= u32::MAX {
        single_floor(b)
    } else {
        u32::MAX as nat
    }
}

/// The largest `e` with `2^e <= n`, for a positive `n`.
pub open spec fn floor_log2(n: nat) -> nat
    decreases n,
{
    if n <= 1 {
        0
    } else {
        1 + floor_log2(n / 2)
    }
}

/// The single nearest to the count `n`, ties going to the even fraction.
pub open spec fn single_of_count(n: u32) -> nat {
    let e = floor_log2(n as nat);
    if n == 0 {
        0
    } else if e <= 23 {
        (e + 127) * 0x80_0000 + (n * pow2((23 - e) as nat) - 0x80_0000) as nat
    } else {
        let unit = pow2((e - 23) as nat);
        let kept = n as nat / unit;
        let dropped = n as nat % unit;
        let up: nat = if 2 * dropped > unit || (2 * dropped == unit && kept % 2 == 1) {
            1
        } else {
            0
        };
        (e + 127) * 0x80_0000 + (kept - 0x80_0000) as nat + up
    }
}

/// The pattern of the single nearest to the count `n`.
pub open spec fn single_of(n: u32) -> u32 {
    single_of_count(n) as u32
}

proof fn lemma_floor_log2(n: nat)
    requires
        n >= 1,
    ensures
        pow2(floor_log2(n)) <= n < pow2(floor_log2(n) + 1),
    decreases n,
{
    if n <= 1 {
        vstd::arithmetic::power2::lemma2_to64();
    } else {
        lemma_floor_log2(n / 2);
        lemma_pow2_unfold(floor_log2(n));
        lemma_pow2_unfold(floor_log2(n) + 1);
    }
}

proof fn lemma_log2_of_u32(n: u32)
    requires
        n >= 1,
    ensures
        floor_log2(n as nat) < 32,
{
    lemma_floor_log2(n as nat);
    vstd::arithmetic::power2::lemma2_to64();
    if floor_log2(n as nat) > 32 {
        lemma_pow2_strictly_increases(32, floor_log2(n as nat));
    }
}

/// Every count is converted to a finite number.
pub proof fn law_counts_are_finite(n: u32)
    ensures
        single_of_count(n) < 0x7f80_0000,
        !single_is_nan_spec(single_of(n)),
{
    if n > 0 {
        let e = floor_log2(n as nat);
        lemma_log2_of_u32(n);
        lemma_floor_log2(n as nat);
        vstd::arithmetic::power2::lemma2_to64();
        if e <= 23 {
            let p = pow2((23 - e) as nat) as int;
            lemma_pow2_adds(e, (23 - e) as nat);
            lemma_pow2_adds(e + 1, (23 - e) as nat);
            lemma_pow2_pos((23 - e) as nat);
            assert(0x80_0000 <= n * p < 0x100_0000) by (nonlinear_arith)
                requires
                    pow2(e) <= n < pow2(e + 1),
                    pow2(e) * p == 0x80_0000,
                    pow2(e + 1) * p == 0x100_0000,
                    p > 0,
            ;
        } else {
            let unit = pow2((e - 23) as nat);
            lemma_pow2_adds(23, (e - 23) as nat);
            lemma_pow2_adds(24, (e - 23) as nat);
            lemma_pow2_pos((e - 23) as nat);
            assert(0x80_0000 <= n as nat / unit < 0x100_0000) by (nonlinear_arith)
                requires
                    0x80_0000 * unit <= n < 0x100_0000 * unit,
                    unit > 0,
            ;
        }
    }
}

/// The larger of two numbers; a NaN gives way to the other argument.
pub open spec fn single_max_spec(a: u32, b: u32) -> u32 {
    if single_is_nan_spec(a) || single_lt_spec(a, b) {
        b
    } else {
        a
    }
}

/// The smaller of two numbers; a NaN gives way to the other argument.
pub open spec fn single_min_spec(a: u32, b: u32) -> u32 {
    if single_is_nan_spec(a) || single_lt_spec(b, a) {
        b
    } else {
        a
    }
}

/// The larger of two numbers; a NaN gives way to the other argument.
pub fn single_max(a: u32, b: u32) -> (r: u32)
    ensures
        r == single_max_spec(a, b),
{
    if single_is_nan(a) || single_lt(a, b) {
        b
    } else {
        a
    }
}

/// The smaller of two numbers; a NaN gives way to the other argument.
pub fn single_min(a: u32, b: u32) -> (r: u32)
    ensures
        r == single_min_spec(a, b),
{
    if single_is_nan(a) || single_lt(b, a) {
        b
    } else {
        a
    }
}

/// The larger and the smaller of two numbers are those two, the smaller first.
pub proof fn law_extremes_enclose(a: u32, b: u32)
    requires
        !single_is_nan_spec(a),
        !single_is_nan_spec(b),
    ensures
        single_ge_spec(single_max_spec(a, b), a),
        single_ge_spec(single_max_spec(a, b), b),
        single_ge_spec(a, single_min_spec(a, b)),
        single_ge_spec(b, single_min_spec(a, b)),
        single_max_spec(a, b) == a || single_max_spec(a, b) == b,
        single_min_spec(a, b) == a || single_min_spec(a, b) == b,
{
}

/// The pattern of the single nearest to the count `n`.
pub fn u32_to_single(n: u32) -> (r: u32)
    ensures
        r == single_of_count(n),
        r == single_of(n),
{
    if n == 0 {
        return 0;
    }
    let mut e: u64 = 0;
    let mut rest: u32 = n;
    proof {
        lemma_log2_of_u32(n);
    }
    while rest > 1
        invariant
            n >= 1,
            rest >= 1,
            floor_log2(n as nat) == e + floor_log2(rest as nat),
            floor_log2(n as nat) < 32,
        decreases rest,
    {
        rest = rest / 2;
        e = e + 1;
    }
    let wide: u64 = n as u64;
    proof {
        lemma_floor_log2(n as nat);
        vstd::arithmetic::power2::lemma2_to64();
        if e < 32 {
            lemma_pow2_strictly_increases(e as nat, 32);
        }
    }
    if e <= 23 {
        let s: u64 = 23 - e;
        proof {
            lemma_pow2_adds(e as nat, s as nat);
            lemma_pow2_adds(e as nat + 1, s as nat);
            let p = pow2(s as nat) as int;
            assert(0x80_0000 <= n * p < 0x100_0000) by (nonlinear_arith)
                requires
                    pow2(e as nat) <= n < pow2(e as nat + 1),
                    pow2(e as nat) * p == 0x80_0000,
                    pow2(e as nat + 1) * p == 0x100_0000,
                    p > 0,
            ;
            vstd::bits::lemma_u64_shl_is_mul(wide, s);
        }
        ((e + 127) * 0x80_0000 + ((wide << s) - 0x80_0000)) as u32
    } else {
        let s: u64 = e - 23;
        proof {
            lemma_pow2_adds(23, s as nat);
            lemma_pow2_adds(24, s as nat);
            if s < 9 {
                lemma_pow2_strictly_increases(s as nat, 9);
            }
            vstd::bits::lemma_u64_shl_is_mul(1, s);
            vstd::bits::lemma_u64_shr_is_div(wide, s);
        }
        let unit: u64 = 1u64 << s;
        let kept: u64 = wide / unit;
        let dropped: u64 = wide % unit;
        proof {
            assert(0x80_0000 <= kept < 0x100_0000) by (nonlinear_arith)
                requires
                    0x80_0000 * unit <= wide < 0x100_0000 * unit,
                    kept == wide / unit,
                    unit > 0,
            ;
        }
        let up: u64 = if 2 * dropped > unit || (2 * dropped == unit && kept % 2 == 1) {
            1
        } else {
            0
        };
        ((e + 127) * 0x80_0000 + (kept - 0x80_0000) + up) as u32
    }
}

proof fn lemma_units_increase(a: u32, b: u32)
    requires
        single_magnitude(a) < single_magnitude(b),
    ensures
        single_units(a) < single_units(b),
{
    let ea = single_exponent(a);
    let eb = single_exponent(b);
    let fa = single_fraction(a);
    let fb = single_fraction(b);
    vstd::arithmetic::power2::lemma2_to64();
    if ea == eb {
        if ea > 0 {
            let p = pow2((ea - 1) as nat);
            lemma_pow2_pos((ea - 1) as nat);
            assert((0x80_0000 + fa) * p < (0x80_0000 + fb) * p) by (nonlinear_arith)
                requires
                    fa < fb,
                    p > 0,
            ;
        }
    } else {
        let q = pow2((eb - 1) as nat);
        lemma_pow2_pos((eb - 1) as nat);
        assert(0x80_0000 * q <= single_units(b)) by (nonlinear_arith)
            requires
                single_units(b) == (0x80_0000 + fb) * q,
                q > 0,
        ;
        if ea == 0 {
            assert(0x80_0000 <= 0x80_0000 * q) by (nonlinear_arith)
                requires
                    q > 0,
            ;
        } else {
            let p = pow2((ea - 1) as nat);
            lemma_pow2_unfold(ea);
            if ea < eb - 1 {
                lemma_pow2_strictly_increases(ea, (eb - 1) as nat);
            }
            lemma_pow2_pos((ea - 1) as nat);
            assert((0x80_0000 + fa) * p < 0x80_0000 * q) by (nonlinear_arith)
                requires
                    fa < 0x80_0000,
                    2 * p <= q,
                    p > 0,
            ;
        }
    }
}

/// The comparisons on patterns are the comparisons of the encoded numbers.
pub proof fn law_order_is_numeric(a: u32, b: u32)
    requires
        !single_is_nan_spec(a),
        !single_is_nan_spec(b),
    ensures
        single_lt_spec(a, b) <==> single_value(a) < single_value(b),
        single_ge_spec(a, b) <==> single_value(a) >= single_value(b),
        single_eq_spec(a, b) <==> single_value(a) == single_value(b),
{
    if single_magnitude(a) < single_magnitude(b) {
        lemma_units_increase(a, b);
    } else if single_magnitude(b) < single_magnitude(a) {
        lemma_units_increase(b, a);
    }
    if single_magnitude(a) > 0 {
        assert(single_magnitude(0) == 0);
        lemma_units_increase(0, a);
    }
    if single_magnitude(b) > 0 {
        assert(single_magnitude(0) == 0);
        lemma_units_increase(0, b);
    }
    assert(single_units(0) == 0);
}

/// `single_floor` is the integer part: a number that is not negative lies
/// between its floor and the next integer.
pub proof fn law_floor_is_integer_part(b: u32)
    requires
        !single_is_nan_spec(b),
        single_key(b) >= 0,
    ensures
        single_floor(b) * pow2(149) <= single_value(b) < (single_floor(b) + 1) * pow2(149),
{
    let ex = single_exponent(b);
    let mant = 0x80_0000 + single_fraction(b);
    vstd::arithmetic::power2::lemma2_to64();
    lemma_pow2_pos(149);
    assert(0 * pow2(149) == 0);
    assert((0 + 1) * pow2(149) == pow2(149)) by (nonlinear_arith);
    if single_key(b) == 0 {
        assert(single_magnitude(b) == 0);
    } else if ex < 127 {
        lemma_pow2_adds(24, 125);
        if ex == 0 {
            lemma_pow2_strictly_increases(23, 149);
        } else {
            let p = pow2((ex - 1) as nat);
            if ex < 126 {
                lemma_pow2_strictly_increases((ex - 1) as nat, 125);
            }
            lemma_pow2_pos((ex - 1) as nat);
            assert(mant * p < 0x100_0000 * pow2(125)) by (nonlinear_arith)
                requires
                    mant < 0x100_0000,
                    0 < p <= pow2(125),
            ;
        }
    } else if ex <= 150 {
        let d = pow2((150 - ex) as nat);
        let p = pow2((ex - 1) as nat);
        let q = mant / d;
        lemma_pow2_adds((150 - ex) as nat, (ex - 1) as nat);
        lemma_pow2_pos((150 - ex) as nat);
        lemma_pow2_pos((ex - 1) as nat);
        assert(q * d <= mant < (q + 1) * d) by (nonlinear_arith)
            requires
                q == mant / d,
                d > 0,
        ;
        assert(q * (d * p) <= mant * p < (q + 1) * (d * p)) by (nonlinear_arith)
            requires
                q * d <= mant < (q + 1) * d,
                p > 0,
        ;
        assert(single_floor(b) == q);
        assert(single_value(b) == mant * p);
    } else {
        let d = pow2((ex - 150) as nat);
        lemma_pow2_adds((ex - 150) as nat, 149);
        let f = mant * d;
        assert(single_floor(b) == f);
        assert(f * pow2(149) == mant * (d * pow2(149))) by (nonlinear_arith)
            requires
                f == mant * d,
        ;
        assert((f + 1) * pow2(149) == f * pow2(149) + pow2(149)) by (nonlinear_arith);
    }
}

/// A count below 2^24 is converted exactly.
pub proof fn law_small_counts_are_exact(n: u32)
    requires
        n < 0x100_0000,
    ensures
        single_of_count(n) < 0x7f80_0000,
        single_value(single_of_count(n) as u32) == n * pow2(149),
        single_floor(single_of_count(n) as u32) == n,
{
    vstd::arithmetic::power2::lemma2_to64();
    lemma_pow2_pos(149);
    if n > 0 {
        lemma_floor_log2(n as nat);
        let e = floor_log2(n as nat);
        if e >= 24 {
            if e > 24 {
                lemma_pow2_strictly_increases(24, e);
            }
        }
        let s = (23 - e) as nat;
        let p = pow2(s);
        lemma_pow2_adds(e, s);
        lemma_pow2_adds(e + 1, s);
        lemma_pow2_pos(s);
        assert(0x80_0000 <= n * p < 0x100_0000) by (nonlinear_arith)
            requires
                pow2(e) <= n < pow2(e + 1),
                pow2(e) * p == 0x80_0000,
                pow2(e + 1) * p == 0x100_0000,
                p > 0,
        ;
        let b = single_of_count(n) as u32;
        assert(single_exponent(b) == e + 127);
        assert(single_fraction(b) == n * p - 0x80_0000);
        lemma_pow2_adds(s, e + 126);
        assert((n * p) * pow2(e + 126) == n * (p * pow2(e + 126))) by (nonlinear_arith);
        law_floor_is_integer_part(b);
        let f = single_floor(b);
        assert(f == n) by (nonlinear_arith)
            requires
                f * pow2(149) <= n * pow2(149) < (f + 1) * pow2(149),
                pow2(149) > 0,
        ;
    } else {
        assert(single_magnitude(0) == 0);
    }
}

/// A number below the conversion of a count below 2^24 has a floor below the
/// count.
pub proof fn law_floor_below_count(b: u32, n: u32)
    requires
        n < 0x100_0000,
        single_lt_spec(b, single_of_count(n) as u32),
    ensures
        single_floor(b) < n || single_floor(b) == 0,
        n == 0 ==> single_key(b) < 0,
{
    law_small_counts_are_exact(n);
    law_order_is_numeric(b, single_of_count(n) as u32);
    if single_key(b) >= 0 {
        law_floor_is_integer_part(b);
        lemma_pow2_pos(149);
        let f = single_floor(b);
        assert(f < n || f == 0) by (nonlinear_arith)
            requires
                f * pow2(149) <= single_value(b),
                single_value(b) < n * pow2(149),
                pow2(149) > 0,
        ;
    }
}

/// The pattern of a double without its sign bit.
pub open spec fn double_magnitude(b: u64) -> nat {
    b as nat % 0x8000_0000_0000_0000
}

/// The pattern encodes no number.
pub open spec fn double_is_nan_spec(b: u64) -> bool {
    double_magnitude(b) > 0x7ff0_0000_0000_0000
}

/// Position of the pattern on the number line.
pub open spec fn double_key(b: u64) -> int {
    if b < 0x8000_0000_0000_0000 {
        b as int
    } else {
        0x8000_0000_0000_0000 - b
    }
}

/// `a < b` as numbers.
pub open spec fn double_lt_spec(a: u64, b: u64) -> bool {
    !double_is_nan_spec(a) && !double_is_nan_spec(b) && double_key(a) < double_key(b)
}

/// `a == b` as numbers.
pub open spec fn double_eq_spec(a: u64, b: u64) -> bool {
    !double_is_nan_spec(a) && !double_is_nan_spec(b) && double_key(a) == double_key(b)
}

/// Whether the pattern of a double is a NaN.
pub fn double_is_nan(b: u64) -> (r: bool)
    ensures
        r == double_is_nan_spec(b),
{
    b % 0x8000_0000_0000_0000 > 0x7ff0_0000_0000_0000
}

/// The pattern encodes a number that is not infinite.
pub open spec fn double_is_finite_spec(b: u64) -> bool {
    double_magnitude(b) < 0x7ff0_0000_0000_0000
}

/// Whether the pattern of a double is a number that is not infinite.
pub fn double_is_finite(b: u64) -> (r: bool)
    ensures
        r == double_is_finite_spec(b),
{
    b % 0x8000_0000_0000_0000 < 0x7ff0_0000_0000_0000
}

/// `a < b` on the numbers the patterns encode; false if either is a NaN.
pub fn double_lt(a: u64, b: u64) -> (r: bool)
    ensures
        r == double_lt_spec(a, b),
{
    if double_is_nan(a) || double_is_nan(b) {
        false
    } else if a < 0x8000_0000_0000_0000 {
        b < 0x8000_0000_0000_0000 && a < b
    } else if b < 0x8000_0000_0000_0000 {
        a != 0x8000_0000_0000_0000 || b != 0
    } else {
        b < a
    }
}

/// `a == b` on the numbers the patterns encode; false if either is a NaN.
pub fn double_eq(a: u64, b: u64) -> (r: bool)
    ensures
        r == double_eq_spec(a, b),
{
    if double_is_nan(a) || double_is_nan(b) {
        false
    } else {
        a == b || (a % 0x8000_0000_0000_0000 == 0 && b % 0x8000_0000_0000_0000 == 0)
    }
}

/// What a pattern encodes, read off its three fields: a sign bit, eight bits of
/// exponent and twenty-three of fraction. All exponent bits set and a fraction that
/// is not zero is no number. A number with no exponent bit set is its fraction, in
/// units of the smallest positive single; any other has a one put before its fraction
/// and is doubled for each step of the exponent beyond the first.
pub proof fn law_pattern_encodes_a_number(b: u32)
    ensures
        ({
            let sign = b as nat / 0x8000_0000;
            let exponent = b as nat / 0x80_0000 % 256;
            let fraction = b as nat % 0x80_0000;
            let size = if exponent == 0 {
                fraction
            } else {
                (0x80_0000 + fraction) * pow2((exponent - 1) as nat)
            };
            &&& single_is_nan_spec(b) <==> exponent == 255 && fraction != 0
            &&& sign == 0 ==> single_value(b) == size
            &&& sign == 1 ==> single_value(b) == -size
            &&& sign < 2
        }),
{
    assert(b as nat % 0x8000_0000 / 0x80_0000 == b as nat / 0x80_0000 % 256);
    assert(b as nat % 0x8000_0000 % 0x80_0000 == b as nat % 0x80_0000);
}

/// A NaN compares with nothing, not even with itself, and everything else is below,
/// equal or above.
pub proof fn law_only_numbers_compare(a: u32, b: u32)
    ensures
        single_is_nan_spec(a) || single_is_nan_spec(b) ==> !single_lt_spec(a, b)
            && !single_ge_spec(a, b) && !single_eq_spec(a, b),
        !single_is_nan_spec(a) && !single_is_nan_spec(b) ==> (single_lt_spec(a, b)
            <==> !single_ge_spec(a, b)) && (single_eq_spec(a, b) <==> single_ge_spec(a, b)
            && single_ge_spec(b, a)),
{
}

/// The larger and the smaller of two: of a number and a NaN the number, and of two
/// numbers the one that is on that side.
pub proof fn law_extremes_pass_over_missing_numbers(a: u32, b: u32)
    ensures
        single_is_nan_spec(a) ==> single_max_spec(a, b) == b && single_min_spec(a, b) == b,
        !single_is_nan_spec(a) && single_is_nan_spec(b) ==> single_max_spec(a, b) == a
            && single_min_spec(a, b) == a,
        single_lt_spec(a, b) ==> single_max_spec(a, b) == b && single_min_spec(a, b) == a,
        single_lt_spec(b, a) ==> single_max_spec(a, b) == a && single_min_spec(a, b) == b,
        single_eq_spec(a, b) ==> single_max_spec(a, b) == a && single_min_spec(a, b) == a,
{
}

/// A number below zero, like no number, has no whole part.
pub proof fn law_nothing_below_zero_has_a_floor(b: u32)
    requires
        single_is_nan_spec(b) || single_value(b) <= 0,
    ensures
        single_floor(b) == 0,
        single_to_u32_spec(b) == 0,
{
    if !single_is_nan_spec(b) {
        assert(single_magnitude(0) == 0);
        assert(single_exponent(0) == 0);
        law_order_is_numeric(0, b);
        assert(single_value(0) == 0);
        assert(single_key(b) <= 0);
    }
}

/// The whole part is handed on as it is up to the largest 32-bit number.
pub proof fn law_large_floors_saturate(b: u32)
    ensures
        single_floor(b) <= 0xffff_ffff ==> single_to_u32_spec(b) == single_floor(b),
        0xffff_ffff <= single_floor(b) ==> single_to_u32_spec(b) == 0xffff_ffff,
{
}

/// How far two numbers are apart.
pub open spec fn apart(a: int, b: int) -> int {
    if a < b {
        b - a
    } else {
        a - b
    }
}

proof fn lemma_pattern_value(p: u32, ex: nat, mant: nat)
    requires
        1 <= ex < 255,
        0x80_0000 <= mant <= 0x100_0000,
        p == ex * 0x80_0000 + (mant - 0x80_0000),
    ensures
        single_value(p) == mant * pow2((ex - 1) as nat),
        p < 0x8000_0000,
        !single_is_nan_spec(p),
{
    if mant < 0x100_0000 {
        assert(single_exponent(p) == ex);
        assert(single_fraction(p) == mant - 0x80_0000);
    } else {
        assert(single_exponent(p) == ex + 1);
        assert(single_fraction(p) == 0);
        lemma_pow2_unfold(ex);
        assert(0x80_0000 * (2 * pow2((ex - 1) as nat)) == 0x100_0000 * pow2((ex - 1) as nat))
            by (nonlinear_arith);
    }
}

proof fn lemma_neighbors_enclose(c: u32, p: u32)
    requires
        !single_is_nan_spec(c),
        p < 0x7f80_0000,
    ensures
        c >= 0x8000_0000 || c <= p ==> single_value(c) <= single_value(p),
        c < 0x8000_0000 && p < c ==> single_value((p + 1) as u32) <= single_value(c),
        c < p ==> single_value(c) < single_value(p),
        c < 0x8000_0000 && p + 1 < c ==> single_value((p + 1) as u32) < single_value(c),
        0 <= single_value(p),
        0x8000_0000 <= c ==> single_value(c) <= 0,
{
    let q = (p + 1) as u32;
    if c < 0x8000_0000 {
        if single_magnitude(c) < single_magnitude(p) {
            lemma_units_increase(c, p);
        }
        if single_magnitude(q) < single_magnitude(c) {
            lemma_units_increase(q, c);
        }
    }
}

/// A count is converted to the nearest of all singles: no other number is nearer,
/// and where another is as near, the one with the even pattern is taken.
pub proof fn law_counts_go_to_the_nearest_number(n: u32, c: u32)
    requires
        !single_is_nan_spec(c),
    ensures
        apart(single_value(single_of(n)), n * pow2(149)) <= apart(single_value(c), n * pow2(149)),
        c != single_of(n) && apart(single_value(single_of(n)), n * pow2(149)) == apart(
            single_value(c),
            n * pow2(149),
        ) ==> single_of(n) % 2 == 0,
{
    let r = single_of(n);
    let u = pow2(149) as int;
    lemma_pow2_pos(149);
    law_counts_are_finite(n);
    if n < 0x100_0000 {
        law_small_counts_are_exact(n);
        law_order_is_numeric(c, r);
        if single_value(c) == single_value(r) {
            assert(single_key(c) == single_key(r));
        }
    } else {
        vstd::arithmetic::power2::lemma2_to64();
        let e = floor_log2(n as nat);
        lemma_log2_of_u32(n);
        lemma_floor_log2(n as nat);
        if e < 24 {
            if e < 23 {
                lemma_pow2_strictly_increases((e + 1) as nat, 24);
            }
        }
        let s = (e - 23) as nat;
        let unit = pow2(s) as int;
        lemma_pow2_pos(s);
        lemma_pow2_adds(23, s);
        lemma_pow2_adds(24, s);
        let kept = n as int / unit;
        let dropped = n as int % unit;
        vstd::arithmetic::div_mod::lemma_fundamental_div_mod(n as int, unit);
        assert(0x80_0000 <= kept < 0x100_0000) by (nonlinear_arith)
            requires
                0x80_0000 * unit <= n < 0x100_0000 * unit,
                kept == n as int / unit,
                unit > 0,
        ;
        let p = ((e + 127) * 0x80_0000 + (kept - 0x80_0000)) as u32;
        let q = (p + 1) as u32;
        lemma_pattern_value(p, (e + 127) as nat, kept as nat);
        lemma_pattern_value(q, (e + 127) as nat, (kept + 1) as nat);
        lemma_pow2_adds(s, 149);
        let v = unit * u;
        assert(pow2((e + 126) as nat) == v);
        assert(n * u == kept * v + dropped * u) by (nonlinear_arith)
            requires
                n == unit * kept + dropped,
                v == unit * u,
        ;
        assert((kept + 1) * v == kept * v + v) by (nonlinear_arith);
        assert(v - dropped * u == (unit - dropped) * u) by (nonlinear_arith)
            requires
                v == unit * u,
        ;
        let below = dropped * u;
        let above = (unit - dropped) * u;
        assert(0 <= below && 0 < above) by (nonlinear_arith)
            requires
                below == dropped * u,
                above == (unit - dropped) * u,
                0 <= dropped < unit,
                u > 0,
        ;
        assert(2 * dropped > unit ==> above < below) by (nonlinear_arith)
            requires
                below == dropped * u,
                above == (unit - dropped) * u,
                u > 0,
        ;
        assert(2 * dropped < unit ==> below < above) by (nonlinear_arith)
            requires
                below == dropped * u,
                above == (unit - dropped) * u,
                u > 0,
        ;
        assert(2 * dropped == unit ==> below == above) by (nonlinear_arith)
            requires
                below == dropped * u,
                above == (unit - dropped) * u,
        ;
        assert(r == p || r == q);
        assert(0 < kept * v) by (nonlinear_arith)
            requires
                kept > 0,
                v == unit * u,
                unit > 0,
                u > 0,
        ;
        assert(p as int % 2 == kept % 2);
        lemma_neighbors_enclose(c, p);
    }
}

/// The number that a pattern of a double encodes, in units of the smallest positive
/// double, the 2^1074th part of one.
pub open spec fn double_value(b: u64) -> int {
    let exponent = b as nat / 0x10_0000_0000_0000 % 2048;
    let fraction = b as nat % 0x10_0000_0000_0000;
    let size = if exponent == 0 {
        fraction
    } else {
        (0x10_0000_0000_0000 + fraction) * pow2((exponent - 1) as nat)
    };
    if b < 0x8000_0000_0000_0000 {
        size as int
    } else {
        -(size as int)
    }
}

proof fn lemma_double_grows(a: u64, b: u64)
    requires
        a < b < 0x8000_0000_0000_0000,
    ensures
        0 <= double_value(a) < double_value(b),
{
    let ea = a as nat / 0x10_0000_0000_0000;
    let eb = b as nat / 0x10_0000_0000_0000;
    let fa = a as nat % 0x10_0000_0000_0000;
    let fb = b as nat % 0x10_0000_0000_0000;
    assert(ea < 2048 && eb < 2048 && ea <= eb);
    assert(ea % 2048 == ea && eb % 2048 == eb);
    vstd::arithmetic::power2::lemma2_to64();
    if ea == eb {
        if ea > 0 {
            let p = pow2((ea - 1) as nat);
            lemma_pow2_pos((ea - 1) as nat);
            assert((0x10_0000_0000_0000 + fa) * p < (0x10_0000_0000_0000 + fb) * p)
                by (nonlinear_arith)
                requires
                    fa < fb,
                    p > 0,
            ;
            assert(0 <= (0x10_0000_0000_0000 + fa) * p) by (nonlinear_arith);
        }
    } else {
        let q = pow2((eb - 1) as nat);
        lemma_pow2_pos((eb - 1) as nat);
        assert(0x10_0000_0000_0000 * q <= (0x10_0000_0000_0000 + fb) * q) by (nonlinear_arith);
        if ea == 0 {
            assert(0x10_0000_0000_0000 <= 0x10_0000_0000_0000 * q) by (nonlinear_arith)
                requires
                    q > 0,
            ;
        } else {
            let p = pow2((ea - 1) as nat);
            lemma_pow2_unfold(ea);
            if ea < eb - 1 {
                lemma_pow2_strictly_increases(ea, (eb - 1) as nat);
            }
            lemma_pow2_pos((ea - 1) as nat);
            assert((0x10_0000_0000_0000 + fa) * p < 0x10_0000_0000_0000 * q) by (nonlinear_arith)
                requires
                    fa < 0x10_0000_0000_0000,
                    2 * p <= q,
                    p > 0,
            ;
            assert(0 <= (0x10_0000_0000_0000 + fa) * p) by (nonlinear_arith);
        }
    }
}

/// Doubles compare as the numbers that their fields encode: with all eleven exponent
/// bits set a pattern is infinite, or no number if a bit of the fraction is set too,
/// and then it compares with nothing.
pub proof fn law_doubles_compare_as_numbers(a: u64, b: u64)
    ensures
        double_is_nan_spec(a) <==> a as nat / 0x10_0000_0000_0000 % 2048 == 2047 && a as nat
            % 0x10_0000_0000_0000 != 0,
        double_is_finite_spec(a) <==> a as nat / 0x10_0000_0000_0000 % 2048 != 2047,
        double_is_nan_spec(a) || double_is_nan_spec(b) ==> !double_lt_spec(a, b)
            && !double_eq_spec(a, b),
        !double_is_nan_spec(a) && !double_is_nan_spec(b) ==> {
            &&& double_lt_spec(a, b) <==> double_value(a) < double_value(b)
            &&& double_eq_spec(a, b) <==> double_value(a) == double_value(b)
        },
{
    let m: nat = 0x10_0000_0000_0000;
    let ra = (a as nat % 0x8000_0000_0000_0000) as u64;
    let rb = (b as nat % 0x8000_0000_0000_0000) as u64;
    assert(ra as nat / m == a as nat / m % 2048);
    assert(rb as nat / m == b as nat / m % 2048);
    assert(ra as nat % m == a as nat % m);
    assert(rb as nat % m == b as nat % m);
    assert(ra as nat / m % 2048 == ra as nat / m);
    assert(rb as nat / m % 2048 == rb as nat / m);
    assert(double_value(0) == 0);
    if ra < rb {
        lemma_double_grows(ra, rb);
    } else if rb < ra {
        lemma_double_grows(rb, ra);
    }
    if 0 < ra {
        lemma_double_grows(0, ra);
    }
    if 0 < rb {
        lemma_double_grows(0, rb);
    }
}

} // verus!
