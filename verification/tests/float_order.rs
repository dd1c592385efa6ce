use reductos::float_order::{f32_eq, f32_ge, f32_gt, f32_is_nan, f32_le, f32_lt, ONE_BITS, ZERO_BITS, F32_MAX_BITS};

fn samples() -> Vec<f32> {
    vec![
        0.0,
        -0.0,
        1.0,
        -1.0,
        0.1,
        0.15,
        -0.1,
        2.5,
        1e-45,
        -1e-45,
        1.17549435e-38,
        f32::MAX,
        f32::MIN,
        f32::INFINITY,
        f32::NEG_INFINITY,
        f32::NAN,
        -f32::NAN,
        f32::from_bits(0x7fc0_0001),
        f32::from_bits(0xff80_0001),
        3.0,
        3.0000002,
        -3.0,
        123456.78,
    ]
}

#[test]
fn comparisons_match_f32() {
    for &a in samples().iter() {
        for &b in samples().iter() {
            let (x, y) = (a.to_bits(), b.to_bits());
            assert_eq!(f32_lt(x, y), a < b, "{} < {}", a, b);
            assert_eq!(f32_le(x, y), a <= b, "{} <= {}", a, b);
            assert_eq!(f32_gt(x, y), a > b, "{} > {}", a, b);
            assert_eq!(f32_ge(x, y), a >= b, "{} >= {}", a, b);
            assert_eq!(f32_eq(x, y), a == b, "{} == {}", a, b);
        }
        assert_eq!(f32_is_nan(a.to_bits()), a.is_nan());
    }
}

#[test]
fn constants_are_their_values() {
    assert_eq!(ZERO_BITS, 0.0f32.to_bits());
    assert_eq!(ONE_BITS, 1.0f32.to_bits());
    assert_eq!(F32_MAX_BITS, f32::MAX.to_bits());
}

#[test]
fn zeros_compare_equal() {
    assert!(f32_eq(0.0f32.to_bits(), (-0.0f32).to_bits()));
    assert!(!f32_lt((-0.0f32).to_bits(), 0.0f32.to_bits()));
}
