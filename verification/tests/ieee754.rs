use chonk::ieee754::{
    at_least, clamp, is_nan, is_on, less_than, round_to_i32, trunc_to_i32, HALF, ONE, ZERO,
};

const SAMPLES: [f32; 40] = [
    0.0,
    -0.0,
    1e-45,
    -1e-45,
    1e-39,
    1.1754944e-38,
    0.05,
    0.25,
    0.49999997,
    0.5,
    0.50000006,
    0.7,
    0.99999994,
    1.0,
    1.4999999,
    1.5,
    2.5,
    -0.5,
    -0.49999997,
    -1.5,
    -2.5,
    3.5,
    4.0,
    13.49,
    13.5,
    100.25,
    8388607.5,
    8388608.0,
    16777215.0,
    16777216.0,
    -16777217.0,
    2147483500.0,
    2147483600.0,
    2147483648.0,
    -2147483648.0,
    -2147483900.0,
    1e30,
    f32::INFINITY,
    f32::NEG_INFINITY,
    f32::NAN,
];

#[test]
fn constants_are_the_numbers_they_name() {
    assert_eq!(f32::from_bits(ZERO), 0.0);
    assert_eq!(f32::from_bits(HALF), 0.5);
    assert_eq!(f32::from_bits(ONE), 1.0);
}

#[test]
fn comparison_agrees_with_the_machine() {
    for a in SAMPLES {
        for b in SAMPLES {
            assert_eq!(less_than(a.to_bits(), b.to_bits()), a < b, "{} < {}", a, b);
        }
        assert_eq!(is_nan(a.to_bits()), a.is_nan());
        assert_eq!(is_on(a.to_bits()), a > 0.5);
    }
}

#[test]
fn rounding_agrees_with_the_machine() {
    for a in SAMPLES {
        assert_eq!(round_to_i32(a.to_bits()), a.round() as i32, "round {}", a);
        assert_eq!(trunc_to_i32(a.to_bits()), a as i32, "trunc {}", a);
    }
    let mut x: u32 = 12345;
    for _ in 0..200000 {
        x = x.wrapping_mul(1664525).wrapping_add(1013904223);
        let f = f32::from_bits(x);
        assert_eq!(round_to_i32(x), f.round() as i32, "round {}", f);
        assert_eq!(trunc_to_i32(x), f as i32, "trunc {}", f);
        assert_eq!(is_on(x), f > 0.5);
    }
}

#[test]
fn bounds_agree_with_the_machine() {
    for a in SAMPLES {
        let floored = at_least(a.to_bits(), 0.1f32.to_bits());
        assert_eq!(floored, a.max(0.1).to_bits());
        let clamped = clamp(a.to_bits(), 0.05f32.to_bits(), 0.95f32.to_bits());
        assert_eq!(clamped, a.clamp(0.05, 0.95).to_bits());
    }
}
