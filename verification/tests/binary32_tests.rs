use soft_raster::binary32::{
    at_least, at_most, rank_of, to_i32, to_u8, to_usize, INFINITY, LARGEST, NEGATIVE_ZERO, ONE, ZERO,
};

fn numbers() -> Vec<f32> {
    vec![
        0.0,
        -0.0,
        1.0,
        -1.0,
        0.5,
        -0.5,
        1.0e-45,
        -1.0e-45,
        1.17549435e-38,
        3.0,
        -3.0,
        0.999_999_94,
        1.000_000_1,
        123456.79,
        -123456.79,
        f32::MAX,
        f32::MIN,
        f32::MIN_POSITIVE,
        f32::EPSILON,
        f32::INFINITY,
        f32::NEG_INFINITY,
        f32::NAN,
        -f32::NAN,
        f32::from_bits(0x7fc0_0001),
        f32::from_bits(0xff80_0001),
    ]
}

#[test]
fn constants_are_the_patterns_of_their_numbers() {
    assert_eq!(ZERO, 0f32.to_bits());
    assert_eq!(NEGATIVE_ZERO, (-0f32).to_bits());
    assert_eq!(ONE, 1f32.to_bits());
    assert_eq!(LARGEST, f32::MAX.to_bits());
    assert_eq!(INFINITY, f32::INFINITY.to_bits());
}

#[test]
fn order_of_patterns_is_order_of_numbers() {
    let all = numbers();
    for &a in all.iter() {
        for &b in all.iter() {
            assert_eq!(at_most(a.to_bits(), b.to_bits()), a <= b, "{} <= {}", a, b);
            assert_eq!(at_least(a.to_bits(), b.to_bits()), a >= b, "{} >= {}", a, b);
        }
    }
}

#[test]
fn order_holds_on_a_sweep_of_patterns() {
    // a stride that is odd walks through every exponent and both signs
    let mut bits: u32 = 0;
    let mut previous: u32 = 0x9e37_79b9;
    for _ in 0..20000 {
        let (a, b) = (f32::from_bits(bits), f32::from_bits(previous));
        assert_eq!(at_most(bits, previous), a <= b);
        assert_eq!(at_least(bits, previous), a >= b);
        previous = bits;
        bits = bits.wrapping_add(0x0003_4f1b).wrapping_mul(3);
    }
}

#[test]
fn rank_grows_with_the_number() {
    assert_eq!(rank_of(ZERO), Some(0));
    assert_eq!(rank_of(NEGATIVE_ZERO), Some(0));
    assert_eq!(rank_of(ONE), Some(0x3f80_0000));
    assert_eq!(rank_of((-1f32).to_bits()), Some(-0x3f80_0000));
    assert_eq!(rank_of(INFINITY), Some(0x7f80_0000));
    assert_eq!(rank_of(f32::NEG_INFINITY.to_bits()), Some(-0x7f80_0000));
    assert_eq!(rank_of(f32::NAN.to_bits()), None);
    assert_eq!(rank_of(0x7f80_0001), None);
    assert_eq!(rank_of(0xffff_ffff), None);
    let mut sorted = numbers();
    sorted.retain(|v| !v.is_nan());
    sorted.sort_by(|a, b| a.partial_cmp(b).unwrap());
    for pair in sorted.windows(2) {
        let (lo, hi) = (rank_of(pair[0].to_bits()).unwrap(), rank_of(pair[1].to_bits()).unwrap());
        assert_eq!(lo < hi, pair[0] < pair[1]);
        assert_eq!(lo == hi, pair[0] == pair[1]);
    }
}

fn assert_converts_as_a_cast(v: f32) {
    assert_eq!(to_i32(v.to_bits()), v as i32, "{} ({:#x}) to i32", v, v.to_bits());
    assert_eq!(to_u8(v.to_bits()), v as u8, "{} ({:#x}) to u8", v, v.to_bits());
    assert_eq!(to_usize(v.to_bits()), v as usize, "{} ({:#x}) to usize", v, v.to_bits());
}

#[test]
fn conversions_round_toward_zero() {
    assert_eq!(to_i32(2.9f32.to_bits()), 2);
    assert_eq!(to_i32((-2.9f32).to_bits()), -2);
    assert_eq!(to_i32(0.999f32.to_bits()), 0);
    assert_eq!(to_i32((-0.999f32).to_bits()), 0);
    assert_eq!(to_i32(457.14285f32.to_bits()), 457);
    assert_eq!(to_u8(254.99f32.to_bits()), 254);
    assert_eq!(to_u8(255.0f32.to_bits()), 255);
    assert_eq!(to_u8(446.25f32.to_bits()), 255);
    assert_eq!(to_u8((-1.0f32).to_bits()), 0);
    assert_eq!(to_usize(79.999f32.to_bits()), 79);
    assert_eq!(to_usize((-79.999f32).to_bits()), 0);
}

#[test]
fn conversions_saturate_and_take_no_number_for_zero() {
    assert_eq!(to_i32(f32::INFINITY.to_bits()), i32::MAX);
    assert_eq!(to_i32(f32::NEG_INFINITY.to_bits()), i32::MIN);
    assert_eq!(to_i32(2147483648f32.to_bits()), i32::MAX);
    assert_eq!(to_i32(2147483520f32.to_bits()), 2147483520);
    assert_eq!(to_i32((-2147483648f32).to_bits()), i32::MIN);
    assert_eq!(to_i32((-2147483904f32).to_bits()), i32::MIN);
    assert_eq!(to_i32(f32::MAX.to_bits()), i32::MAX);
    assert_eq!(to_i32(f32::NAN.to_bits()), 0);
    assert_eq!(to_u8(f32::NAN.to_bits()), 0);
    assert_eq!(to_usize(f32::NAN.to_bits()), 0);
    assert_eq!(to_usize(f32::INFINITY.to_bits()), usize::MAX);
    assert_eq!(to_usize(f32::MAX.to_bits()), usize::MAX);
    assert_eq!(to_usize(1.0e10f32.to_bits()), 1.0e10f32 as usize);
}

#[test]
fn conversions_agree_with_casts() {
    for v in numbers() {
        assert_converts_as_a_cast(v);
    }
    // every exponent, with three fractions each, in both signs
    for exponent in 0..=255u32 {
        for &fraction in [0u32, 1, 0x2a_aaaa, 0x40_0000, 0x7f_ffff].iter() {
            for &sign in [0u32, 0x8000_0000].iter() {
                assert_converts_as_a_cast(f32::from_bits(sign | (exponent << 23) | fraction));
            }
        }
    }
    // the whole numbers and the halves about the limits of the types
    for k in -600..600 {
        assert_converts_as_a_cast(k as f32 * 0.5);
        assert_converts_as_a_cast(255. + k as f32 * 0.125);
        assert_converts_as_a_cast(2147483648. + k as f32 * 128.);
        assert_converts_as_a_cast(-2147483648. + k as f32 * 128.);
        assert_converts_as_a_cast(18446744073709551616. + k as f32 * 1099511627776.);
    }
    let mut bits: u32 = 0x1234_5678;
    for _ in 0..20000 {
        assert_converts_as_a_cast(f32::from_bits(bits));
        bits = bits.wrapping_mul(1664525).wrapping_add(1013904223);
    }
}
