use novafractal::float_bits::{
    double_eq, double_is_finite, double_is_nan, double_lt, single_eq, single_ge, single_is_nan, single_lt, single_max,
    single_min, single_to_u32, single_to_u64, u32_to_single, DOUBLE_MINUS_HALF, DOUBLE_ONE,
    DOUBLE_ZERO, SINGLE_INFINITY, SINGLE_NAN, SINGLE_NEG_INFINITY,
};

fn singles() -> Vec<f32> {
    vec![
        0.0, -0.0, 1.0, -1.0, 0.5, -0.5, 1.5, 2.0, 255.99, 256.0, 1e-45, -1e-45, 1e-38, 3.4e38,
        -3.4e38, 16777215.0, 16777216.0, 16777218.0, 4294967000.0, 4294967296.0, 1.8e19, 2e19,
        f32::INFINITY, f32::NEG_INFINITY, f32::NAN, f32::MIN_POSITIVE, 123.456, 0.99999994,
    ]
}

#[test]
fn singles_compare_as_numbers() {
    for a in singles() {
        for b in singles() {
            assert_eq!(single_lt(a.to_bits(), b.to_bits()), a < b);
            assert_eq!(single_ge(a.to_bits(), b.to_bits()), a >= b);
            assert_eq!(single_eq(a.to_bits(), b.to_bits()), a == b);
        }
    }
}

#[test]
fn singles_that_are_no_numbers() {
    for a in singles() {
        assert_eq!(single_is_nan(a.to_bits()), a.is_nan());
    }
    assert!(single_is_nan(0xffff_ffff));
    assert!(single_is_nan(0x7f80_0001));
    assert_eq!(SINGLE_NAN, f32::NAN.to_bits());
    assert_eq!(SINGLE_INFINITY, f32::INFINITY.to_bits());
    assert_eq!(SINGLE_NEG_INFINITY, f32::NEG_INFINITY.to_bits());
}

#[test]
fn singles_convert_to_integers() {
    for a in singles() {
        assert_eq!(single_to_u32(a.to_bits()), a as u32);
        assert_eq!(single_to_u64(a.to_bits()), a as u64);
    }
}

#[test]
fn every_exponent_converts_to_integers() {
    for e in 0..=255u32 {
        for f in [0u32, 1, 0x40_0000, 0x7f_ffff, 0x12_3456] {
            for s in [0u32, 1] {
                let bits = (s << 31) | (e << 23) | f;
                assert_eq!(single_to_u32(bits), f32::from_bits(bits) as u32);
                assert_eq!(single_to_u64(bits), f32::from_bits(bits) as u64);
            }
        }
    }
}

#[test]
fn counts_convert_to_singles() {
    for n in [
        0u32, 1, 2, 3, 64, 255, 256, 1000, 16777215, 16777216, 16777217, 16777218, 16777219,
        33554433, 33554434, 33554435, 33554438, 2147483647, 2147483648, 2147483776, 4294967295,
        4294967040, 4294967167, 4294967168,
    ] {
        assert_eq!(u32_to_single(n), (n as f32).to_bits());
    }
    for k in 0..20_000u32 {
        let n = k.wrapping_mul(2_654_435_761);
        assert_eq!(u32_to_single(n), (n as f32).to_bits());
    }
}

#[test]
fn extremes_ignore_what_is_no_number() {
    let one = 1.0f32.to_bits();
    let two = 2.0f32.to_bits();
    assert_eq!(single_max(one, two), two);
    assert_eq!(single_max(two, one), two);
    assert_eq!(single_min(one, two), one);
    assert_eq!(single_min(two, one), one);
    assert_eq!(single_max(SINGLE_NAN, one), one);
    assert_eq!(single_max(one, SINGLE_NAN), one);
    assert_eq!(single_min(SINGLE_NAN, one), one);
    assert_eq!(single_min(one, SINGLE_NAN), one);
    assert!(single_is_nan(single_max(SINGLE_NAN, SINGLE_NAN)));
}

#[test]
fn doubles_compare_as_numbers() {
    let values = [
        0.0f64, -0.0, 1.0, -1.0, 1e6, 1e12, -1e12, 5e-324, -5e-324, f64::INFINITY,
        f64::NEG_INFINITY, f64::NAN, 0.1, 1e300,
    ];
    for a in values {
        assert_eq!(double_is_nan(a.to_bits()), a.is_nan());
        for b in values {
            assert_eq!(double_lt(a.to_bits(), b.to_bits()), a < b);
            assert_eq!(double_eq(a.to_bits(), b.to_bits()), a == b);
        }
    }
}

#[test]
fn named_doubles() {
    assert_eq!(f64::from_bits(DOUBLE_ZERO), 0.0);
    assert_eq!(f64::from_bits(DOUBLE_ONE), 1.0);
    assert_eq!(f64::from_bits(DOUBLE_MINUS_HALF), -0.5);
}

#[test]
fn counts_are_finite() {
    for n in [0, 1, 0xff_ffff, 0x100_0001, u32::MAX] {
        assert!(f32::from_bits(u32_to_single(n)).is_finite());
    }
    for v in [0.0, -1.5, f64::MAX, f64::MIN_POSITIVE, f64::NAN, f64::INFINITY, f64::NEG_INFINITY] {
        assert_eq!(double_is_finite(v.to_bits()), v.is_finite());
    }
}
