use core::cmp::Ordering;
use float16::bf16;

fn from_f32(v: f32) -> bf16 {
    bf16::from_f32_bits(v.to_bits())
}

fn from_f64(v: f64) -> bf16 {
    bf16::from_f64_bits(v.to_bits())
}

fn to_f32(h: bf16) -> f32 {
    f32::from_bits(h.to_f32_bits())
}

fn to_f64(h: bf16) -> f64 {
    f64::from_bits(h.to_f64_bits())
}

#[test]
fn test_bf16_consts_from_f32() {
    let one = from_f32(1.0);
    let zero = from_f32(0.0);
    let neg_zero = from_f32(-0.0);
    let neg_one = from_f32(-1.0);
    let inf = from_f32(f32::INFINITY);
    let neg_inf = from_f32(f32::NEG_INFINITY);
    let nan = from_f32(f32::NAN);

    assert_eq!(bf16::one(), one);
    assert_eq!(bf16::zero(), zero);
    assert!(zero.is_sign_positive());
    assert_eq!(bf16::neg_zero(), neg_zero);
    assert!(neg_zero.is_sign_negative());
    assert_eq!(bf16::neg_one(), neg_one);
    assert!(neg_one.is_sign_negative());
    assert_eq!(bf16::infinity(), inf);
    assert_eq!(bf16::neg_infinity(), neg_inf);
    assert!(nan.is_nan());
    assert!(bf16::nan().is_nan());

    let e = from_f32(core::f32::consts::E);
    let pi = from_f32(core::f32::consts::PI);
    let frac_1_pi = from_f32(core::f32::consts::FRAC_1_PI);
    let frac_1_sqrt_2 = from_f32(core::f32::consts::FRAC_1_SQRT_2);
    let frac_2_pi = from_f32(core::f32::consts::FRAC_2_PI);
    let frac_2_sqrt_pi = from_f32(core::f32::consts::FRAC_2_SQRT_PI);
    let frac_pi_2 = from_f32(core::f32::consts::FRAC_PI_2);
    let frac_pi_3 = from_f32(core::f32::consts::FRAC_PI_3);
    let frac_pi_4 = from_f32(core::f32::consts::FRAC_PI_4);
    let frac_pi_6 = from_f32(core::f32::consts::FRAC_PI_6);
    let frac_pi_8 = from_f32(core::f32::consts::FRAC_PI_8);
    let ln_10 = from_f32(core::f32::consts::LN_10);
    let ln_2 = from_f32(core::f32::consts::LN_2);
    let log10_e = from_f32(core::f32::consts::LOG10_E);
    let log10_2 = from_f32(2f32.log10());
    let log2_e = from_f32(core::f32::consts::LOG2_E);
    let log2_10 = from_f32(10f32.log2());
    let sqrt_2 = from_f32(core::f32::consts::SQRT_2);

    assert_eq!(bf16::e(), e);
    assert_eq!(bf16::pi(), pi);
    assert_eq!(bf16::frac_1_pi(), frac_1_pi);
    assert_eq!(bf16::frac_1_sqrt_2(), frac_1_sqrt_2);
    assert_eq!(bf16::frac_2_pi(), frac_2_pi);
    assert_eq!(bf16::frac_2_sqrt_pi(), frac_2_sqrt_pi);
    assert_eq!(bf16::frac_pi_2(), frac_pi_2);
    assert_eq!(bf16::frac_pi_3(), frac_pi_3);
    assert_eq!(bf16::frac_pi_4(), frac_pi_4);
    assert_eq!(bf16::frac_pi_6(), frac_pi_6);
    assert_eq!(bf16::frac_pi_8(), frac_pi_8);
    assert_eq!(bf16::ln_10(), ln_10);
    assert_eq!(bf16::ln_2(), ln_2);
    assert_eq!(bf16::log10_e(), log10_e);
    assert_eq!(bf16::log10_2(), log10_2);
    assert_eq!(bf16::log2_e(), log2_e);
    assert_eq!(bf16::log2_10(), log2_10);
    assert_eq!(bf16::sqrt_2(), sqrt_2);
}

#[test]
fn test_bf16_consts_from_f64() {
    let one = from_f64(1.0);
    let zero = from_f64(0.0);
    let neg_zero = from_f64(-0.0);
    let inf = from_f64(f64::INFINITY);
    let neg_inf = from_f64(f64::NEG_INFINITY);
    let nan = from_f64(f64::NAN);

    assert_eq!(bf16::one(), one);
    assert_eq!(bf16::zero(), zero);
    assert_eq!(bf16::neg_zero(), neg_zero);
    assert_eq!(bf16::infinity(), inf);
    assert_eq!(bf16::neg_infinity(), neg_inf);
    assert!(nan.is_nan());
    assert!(bf16::nan().is_nan());

    let e = from_f64(core::f64::consts::E);
    let pi = from_f64(core::f64::consts::PI);
    let frac_1_pi = from_f64(core::f64::consts::FRAC_1_PI);
    let frac_1_sqrt_2 = from_f64(core::f64::consts::FRAC_1_SQRT_2);
    let frac_2_pi = from_f64(core::f64::consts::FRAC_2_PI);
    let frac_2_sqrt_pi = from_f64(core::f64::consts::FRAC_2_SQRT_PI);
    let frac_pi_2 = from_f64(core::f64::consts::FRAC_PI_2);
    let frac_pi_3 = from_f64(core::f64::consts::FRAC_PI_3);
    let frac_pi_4 = from_f64(core::f64::consts::FRAC_PI_4);
    let frac_pi_6 = from_f64(core::f64::consts::FRAC_PI_6);
    let frac_pi_8 = from_f64(core::f64::consts::FRAC_PI_8);
    let ln_10 = from_f64(core::f64::consts::LN_10);
    let ln_2 = from_f64(core::f64::consts::LN_2);
    let log10_e = from_f64(core::f64::consts::LOG10_E);
    let log10_2 = from_f64(2f64.log10());
    let log2_e = from_f64(core::f64::consts::LOG2_E);
    let log2_10 = from_f64(10f64.log2());
    let sqrt_2 = from_f64(core::f64::consts::SQRT_2);

    assert_eq!(bf16::e(), e);
    assert_eq!(bf16::pi(), pi);
    assert_eq!(bf16::frac_1_pi(), frac_1_pi);
    assert_eq!(bf16::frac_1_sqrt_2(), frac_1_sqrt_2);
    assert_eq!(bf16::frac_2_pi(), frac_2_pi);
    assert_eq!(bf16::frac_2_sqrt_pi(), frac_2_sqrt_pi);
    assert_eq!(bf16::frac_pi_2(), frac_pi_2);
    assert_eq!(bf16::frac_pi_3(), frac_pi_3);
    assert_eq!(bf16::frac_pi_4(), frac_pi_4);
    assert_eq!(bf16::frac_pi_6(), frac_pi_6);
    assert_eq!(bf16::frac_pi_8(), frac_pi_8);
    assert_eq!(bf16::ln_10(), ln_10);
    assert_eq!(bf16::ln_2(), ln_2);
    assert_eq!(bf16::log10_e(), log10_e);
    assert_eq!(bf16::log10_2(), log10_2);
    assert_eq!(bf16::log2_e(), log2_e);
    assert_eq!(bf16::log2_10(), log2_10);
    assert_eq!(bf16::sqrt_2(), sqrt_2);
}

#[test]
fn bfloat_test_nan_conversion_to_smaller() {
    let nan64 = f64::from_bits(0x7FF0_0000_0000_0001u64);
    let neg_nan64 = f64::from_bits(0xFFF0_0000_0000_0001u64);
    let nan32 = f32::from_bits(0x7F80_0001u32);
    let neg_nan32 = f32::from_bits(0xFF80_0001u32);
    let nan32_from_64 = nan64 as f32;
    let neg_nan32_from_64 = neg_nan64 as f32;
    let nan16_from_64 = from_f64(nan64);
    let neg_nan16_from_64 = from_f64(neg_nan64);
    let nan16_from_32 = from_f32(nan32);
    let neg_nan16_from_32 = from_f32(neg_nan32);

    assert!(nan64.is_nan() && nan64.is_sign_positive());
    assert!(neg_nan64.is_nan() && neg_nan64.is_sign_negative());
    assert!(nan32.is_nan() && nan32.is_sign_positive());
    assert!(neg_nan32.is_nan() && neg_nan32.is_sign_negative());

    assert!(neg_nan32_from_64.is_nan());
    assert!(nan32_from_64.is_nan());
    assert!(nan16_from_64.is_nan());
    assert!(neg_nan16_from_64.is_nan());
    assert!(nan16_from_32.is_nan());
    assert!(neg_nan16_from_32.is_nan());
}

#[test]
fn bfloat_test_nan_conversion_to_larger() {
    let nan16 = bf16::from_bits(0x7F81u16);
    let neg_nan16 = bf16::from_bits(0xFF81u16);
    let nan32 = f32::from_bits(0x7F80_0001u32);
    let neg_nan32 = f32::from_bits(0xFF80_0001u32);
    let nan32_from_16 = to_f32(nan16);
    let neg_nan32_from_16 = to_f32(neg_nan16);
    let nan64_from_16 = to_f64(nan16);
    let neg_nan64_from_16 = to_f64(neg_nan16);
    let nan64_from_32 = f64::from(nan32);
    let neg_nan64_from_32 = f64::from(neg_nan32);

    assert!(nan16.is_nan() && nan16.is_sign_positive());
    assert!(neg_nan16.is_nan() && neg_nan16.is_sign_negative());
    assert!(nan32.is_nan() && nan32.is_sign_positive());
    assert!(neg_nan32.is_nan() && neg_nan32.is_sign_negative());

    assert!(nan32_from_16.is_nan());
    assert!(neg_nan32_from_16.is_nan());
    assert!(nan64_from_16.is_nan());
    assert!(neg_nan64_from_16.is_nan());
    assert!(nan64_from_32.is_nan());
    assert!(neg_nan64_from_32.is_nan());
}

#[test]
fn test_bf16_to_f32() {
    let f = from_f32(7.0);
    assert_eq!(to_f32(f), 7.0f32);

    // 7.1 is NOT exactly representable in 16-bit, it's rounded
    let f = from_f32(7.1);
    let diff = (to_f32(f) - 7.1f32).abs();
    // diff must be <= 4 * EPSILON, as 7 has two more significant bits than 1
    assert!(diff <= 4.0 * to_f32(bf16::epsilon()));

    let tiny32 = f32::from_bits(0x0001_0000u32);
    assert_eq!(to_f32(bf16::from_bits(0x0001)), tiny32);
    assert_eq!(to_f32(bf16::from_bits(0x0005)), 5.0 * tiny32);

    assert_eq!(bf16::from_bits(0x0001), from_f32(tiny32));
    assert_eq!(bf16::from_bits(0x0005), from_f32(5.0 * tiny32));
}

#[test]
fn test_bf16_to_f64() {
    let f = from_f64(7.0);
    assert_eq!(to_f64(f), 7.0f64);

    // 7.1 is NOT exactly representable in 16-bit, it's rounded
    let f = from_f64(7.1);
    let diff = (to_f64(f) - 7.1f64).abs();
    // diff must be <= 4 * EPSILON, as 7 has two more significant bits than 1
    assert!(diff <= 4.0 * to_f64(bf16::epsilon()));

    let tiny64 = 2.0f64.powi(-133);
    assert_eq!(to_f64(bf16::from_bits(0x0001)), tiny64);
    assert_eq!(to_f64(bf16::from_bits(0x0005)), 5.0 * tiny64);

    assert_eq!(bf16::from_bits(0x0001), from_f64(tiny64));
    assert_eq!(bf16::from_bits(0x0005), from_f64(5.0 * tiny64));
}

#[test]
fn bfloat_test_comparisons() {
    let zero = from_f64(0.0);
    let one = from_f64(1.0);
    let neg_zero = from_f64(-0.0);
    let neg_one = from_f64(-1.0);

    assert_eq!(zero.partial_cmp(&neg_zero), Some(Ordering::Equal));
    assert_eq!(neg_zero.partial_cmp(&zero), Some(Ordering::Equal));
    assert!(zero == neg_zero);
    assert!(neg_zero == zero);
    assert!(!(zero != neg_zero));
    assert!(!(neg_zero != zero));
    assert!(!(zero < neg_zero));
    assert!(!(neg_zero < zero));
    assert!(zero <= neg_zero);
    assert!(neg_zero <= zero);
    assert!(!(zero > neg_zero));
    assert!(!(neg_zero > zero));
    assert!(zero >= neg_zero);
    assert!(neg_zero >= zero);

    assert_eq!(one.partial_cmp(&neg_zero), Some(Ordering::Greater));
    assert_eq!(neg_zero.partial_cmp(&one), Some(Ordering::Less));
    assert!(!(one == neg_zero));
    assert!(!(neg_zero == one));
    assert!(one != neg_zero);
    assert!(neg_zero != one);
    assert!(!(one < neg_zero));
    assert!(neg_zero < one);
    assert!(!(one <= neg_zero));
    assert!(neg_zero <= one);
    assert!(one > neg_zero);
    assert!(!(neg_zero > one));
    assert!(one >= neg_zero);
    assert!(!(neg_zero >= one));

    assert_eq!(one.partial_cmp(&neg_one), Some(Ordering::Greater));
    assert_eq!(neg_one.partial_cmp(&one), Some(Ordering::Less));
    assert!(!(one == neg_one));
    assert!(!(neg_one == one));
    assert!(one != neg_one);
    assert!(neg_one != one);
    assert!(!(one < neg_one));
    assert!(neg_one < one);
    assert!(!(one <= neg_one));
    assert!(neg_one <= one);
    assert!(one > neg_one);
    assert!(!(neg_one > one));
    assert!(one >= neg_one);
    assert!(!(neg_one >= one));
}

#[test]
fn bfloat_round_to_even_f32() {
    // smallest positive subnormal = 0b0.0000_001 * 2^-126 = 2^-133
    let min_sub = bf16::from_bits(1);
    let min_sub_f = (-133f32).exp2();
    assert_eq!(from_f32(min_sub_f).to_bits(), min_sub.to_bits());
    assert_eq!(to_f32(min_sub).to_bits(), min_sub_f.to_bits());

    // 0.0000000_011111 rounded to 0.0000000 (< tie, no rounding)
    // 0.0000000_100000 rounded to 0.0000000 (tie and even, remains at even)
    // 0.0000000_100001 rounded to 0.0000001 (> tie, rounds up)
    assert_eq!(from_f32(min_sub_f * 0.49).to_bits(), min_sub.to_bits() * 0);
    assert_eq!(from_f32(min_sub_f * 0.50).to_bits(), min_sub.to_bits() * 0);
    assert_eq!(from_f32(min_sub_f * 0.51).to_bits(), min_sub.to_bits() * 1);

    // 0.0000001_011111 rounded to 0.0000001 (< tie, no rounding)
    // 0.0000001_100000 rounded to 0.0000010 (tie and odd, rounds up to even)
    // 0.0000001_100001 rounded to 0.0000010 (> tie, rounds up)
    assert_eq!(from_f32(min_sub_f * 1.49).to_bits(), min_sub.to_bits() * 1);
    assert_eq!(from_f32(min_sub_f * 1.50).to_bits(), min_sub.to_bits() * 2);
    assert_eq!(from_f32(min_sub_f * 1.51).to_bits(), min_sub.to_bits() * 2);

    // 0.0000010_011111 rounded to 0.0000010 (< tie, no rounding)
    // 0.0000010_100000 rounded to 0.0000010 (tie and even, remains at even)
    // 0.0000010_100001 rounded to 0.0000011 (> tie, rounds up)
    assert_eq!(from_f32(min_sub_f * 2.49).to_bits(), min_sub.to_bits() * 2);
    assert_eq!(from_f32(min_sub_f * 2.50).to_bits(), min_sub.to_bits() * 2);
    assert_eq!(from_f32(min_sub_f * 2.51).to_bits(), min_sub.to_bits() * 3);

    assert_eq!(from_f32(250.49f32).to_bits(), from_f32(250.0).to_bits());
    assert_eq!(from_f32(250.50f32).to_bits(), from_f32(250.0).to_bits());
    assert_eq!(from_f32(250.51f32).to_bits(), from_f32(251.0).to_bits());
    assert_eq!(from_f32(251.49f32).to_bits(), from_f32(251.0).to_bits());
    assert_eq!(from_f32(251.50f32).to_bits(), from_f32(252.0).to_bits());
    assert_eq!(from_f32(251.51f32).to_bits(), from_f32(252.0).to_bits());
    assert_eq!(from_f32(252.49f32).to_bits(), from_f32(252.0).to_bits());
    assert_eq!(from_f32(252.50f32).to_bits(), from_f32(252.0).to_bits());
    assert_eq!(from_f32(252.51f32).to_bits(), from_f32(253.0).to_bits());
}

#[test]
fn bfloat_round_to_even_f64() {
    // smallest positive subnormal = 0b0.0000_001 * 2^-126 = 2^-133
    let min_sub = bf16::from_bits(1);
    let min_sub_f = (-133f64).exp2();
    assert_eq!(from_f64(min_sub_f).to_bits(), min_sub.to_bits());
    assert_eq!(to_f64(min_sub).to_bits(), min_sub_f.to_bits());

    // 0.0000000_011111 rounded to 0.0000000 (< tie, no rounding)
    // 0.0000000_100000 rounded to 0.0000000 (tie and even, remains at even)
    // 0.0000000_100001 rounded to 0.0000001 (> tie, rounds up)
    assert_eq!(from_f64(min_sub_f * 0.49).to_bits(), min_sub.to_bits() * 0);
    assert_eq!(from_f64(min_sub_f * 0.50).to_bits(), min_sub.to_bits() * 0);
    assert_eq!(from_f64(min_sub_f * 0.51).to_bits(), min_sub.to_bits() * 1);

    // 0.0000001_011111 rounded to 0.0000001 (< tie, no rounding)
    // 0.0000001_100000 rounded to 0.0000010 (tie and odd, rounds up to even)
    // 0.0000001_100001 rounded to 0.0000010 (> tie, rounds up)
    assert_eq!(from_f64(min_sub_f * 1.49).to_bits(), min_sub.to_bits() * 1);
    assert_eq!(from_f64(min_sub_f * 1.50).to_bits(), min_sub.to_bits() * 2);
    assert_eq!(from_f64(min_sub_f * 1.51).to_bits(), min_sub.to_bits() * 2);

    // 0.0000010_011111 rounded to 0.0000010 (< tie, no rounding)
    // 0.0000010_100000 rounded to 0.0000010 (tie and even, remains at even)
    // 0.0000010_100001 rounded to 0.0000011 (> tie, rounds up)
    assert_eq!(from_f64(min_sub_f * 2.49).to_bits(), min_sub.to_bits() * 2);
    assert_eq!(from_f64(min_sub_f * 2.50).to_bits(), min_sub.to_bits() * 2);
    assert_eq!(from_f64(min_sub_f * 2.51).to_bits(), min_sub.to_bits() * 3);

    assert_eq!(from_f64(250.49f64).to_bits(), from_f64(250.0).to_bits());
    assert_eq!(from_f64(250.50f64).to_bits(), from_f64(250.0).to_bits());
    assert_eq!(from_f64(250.51f64).to_bits(), from_f64(251.0).to_bits());
    assert_eq!(from_f64(251.49f64).to_bits(), from_f64(251.0).to_bits());
    assert_eq!(from_f64(251.50f64).to_bits(), from_f64(252.0).to_bits());
    assert_eq!(from_f64(251.51f64).to_bits(), from_f64(252.0).to_bits());
    assert_eq!(from_f64(252.49f64).to_bits(), from_f64(252.0).to_bits());
    assert_eq!(from_f64(252.50f64).to_bits(), from_f64(252.0).to_bits());
    assert_eq!(from_f64(252.51f64).to_bits(), from_f64(253.0).to_bits());
}

#[test]
fn bfloat_from_f32_lossless() {
    let from_f32_lossless = |v: f32| bf16::from_f32_bits_lossless(v.to_bits());
    let roundtrip = |v: f32, expected: Option<bf16>| {
        let half = from_f32_lossless(v);
        assert_eq!(half, expected);
        if !expected.is_none() {
            let as_f32 = to_f32(expected.unwrap());
            assert_eq!(v, as_f32);
        }
    };

    assert_eq!(from_f32_lossless(f32::NAN).map(bf16::is_nan), Some(true));
    roundtrip(f32::INFINITY, Some(bf16::infinity()));
    roundtrip(f32::NEG_INFINITY, Some(bf16::neg_infinity()));
    roundtrip(f32::from_bits(0b0_00000000_00000000000000000000000), Some(bf16::from_bits(0)));
    roundtrip(
        f32::from_bits(0b1_00000000_00000000000000000000000),
        Some(bf16::from_bits(bf16::SIGN_MASK)),
    );
    roundtrip(f32::from_bits(1), None);
    roundtrip(f32::from_bits(0b0_00001010_10101001010110100101110), None);
    roundtrip(f32::from_bits(0b0_00001010_10101001010110100101110), None);
    roundtrip(f32::from_bits(0b0_00001010_10101011000000000000000), None);
    roundtrip(
        f32::from_bits(0b0_00001010_10101010000000000000000),
        Some(bf16::from_bits(0b0_00001010_1010101)),
    );
    roundtrip(f32::from_bits(0b0_00000000_10000000000000000000000), Some(bf16::from_bits(0x40)));
    // special truncation with denormals, etc.
    roundtrip(f32::from_bits(0b0_00000000_00000001000000000000000), None);
    roundtrip(f32::from_bits(0b0_00000000_00000010000000000000000), Some(bf16::from_bits(1)));
    roundtrip(f32::from_bits(0b0_00000000_00000100000000000000000), Some(bf16::from_bits(2)));
    roundtrip(f32::from_bits(0b0_00000000_00000110000000000000000), Some(bf16::from_bits(3)));
    roundtrip(f32::from_bits(0b0_00000000_00000111000000000000000), None);
    roundtrip(f32::from_bits(0b0_00001011_10100111101101101001001), None);
    // 1.99170198e-35 and has bits until 16 to the end, so truncated 2
    roundtrip(f32::from_bits(0b0_00001011_10100111100000000000000), None);
    // 1.99170198e-35 and has bits until 15 to the end, so truncated 1
    roundtrip(f32::from_bits(0b0_00001011_10100111000000000000000), None);
    // 1.99170198e-35 and has bits until 15 to the end, so truncated 1
    roundtrip(f32::from_bits(0b0_00001011_10100110000000000000000), Some(bf16::from_bits(0x05d3)));
}

#[test]
fn bfloat_from_f64_lossless() {
    let from_f64_lossless = |v: f64| bf16::from_f64_bits_lossless(v.to_bits());
    let roundtrip = |v: f64, expected: Option<bf16>| {
        let half = from_f64_lossless(v);
        assert_eq!(half, expected);
        if !expected.is_none() {
            let as_f64 = to_f64(expected.unwrap());
            assert_eq!(v, as_f64);
        }
    };

    assert_eq!(from_f64_lossless(f64::NAN).map(bf16::is_nan), Some(true));
    roundtrip(f64::INFINITY, Some(bf16::infinity()));
    roundtrip(f64::NEG_INFINITY, Some(bf16::neg_infinity()));
    roundtrip(
        f64::from_bits(0b0_00000000000_0000000000000000000000000000000000000000000000000000),
        Some(bf16::from_bits(0)),
    );
    roundtrip(
        f64::from_bits(0b1_00000000000_0000000000000000000000000000000000000000000000000000),
        Some(bf16::from_bits(bf16::SIGN_MASK)),
    );
    roundtrip(
        f64::from_bits(0b0_01110001010_1010100101011010010110110111111110000111101000001111),
        None,
    );
    // 1.99170198e-35 and has bits until 44 to the end, so truncated 1
    roundtrip(
        f64::from_bits(0b0_01110001010_1010100100000000000000000000000000000000000000000000),
        None,
    );
    roundtrip(
        f64::from_bits(0b0_01110001010_1010100000000000000000000000000000000000000000000000),
        Some(bf16::from_bits(0x0554)),
    );
    roundtrip(
        f64::from_bits(0b0_01110001010_1010101000000000000000000000000000000000000000000000),
        Some(bf16::from_bits(0x0555)),
    );
    roundtrip(
        f64::from_bits(0b0_01110001010_1010110000000000000000000000000000000000000000000000),
        Some(bf16::from_bits(0x0556)),
    );
    roundtrip(
        f64::from_bits(0b0_01110001010_1010111000000000000000000000000000000000000000000000),
        Some(bf16::from_bits(0x0557)),
    );
    roundtrip(
        f64::from_bits(0b0_01110001010_1010101100000000000000000000000000000000000000000000),
        None,
    );
    roundtrip(
        f64::from_bits(0b0_01110001010_1010100110000000000000000000000000000000000000000000),
        None,
    );
    roundtrip(
        f64::from_bits(0b1_01110001010_1010100000000000000000000000000000000000000000000000),
        Some(bf16::from_bits(0x8554)),
    );
    roundtrip(
        f64::from_bits(0b1_01110001010_1010101000000000000000000000000000000000000000000000),
        Some(bf16::from_bits(0x8555)),
    );
    // exp out of range but finite
    roundtrip(
        f64::from_bits(0b1_11110001010_1010101000000000000000000000000000000000000000000000),
        None,
    );
    // explicitly check denormals
    roundtrip(
        f64::from_bits(0b0_01101111010_0000000000000000000000000000000000000000000000000000),
        Some(bf16::from_bits(1)),
    );
    roundtrip(
        f64::from_bits(0b0_01101111011_1000000000000000000000000000000000000000000000000000),
        Some(bf16::from_bits(3)),
    );
    roundtrip(
        f64::from_bits(0b0_01101111011_1100000000000000000000000000000000000000000000000000),
        None,
    );
    // Due to being denormal, this is truncated out
    roundtrip(
        f64::from_bits(0b0_01101111010_0001000000000000000000000000000000000000000000000000),
        None,
    );
    roundtrip(
        f64::from_bits(0b0_01101111010_1000000000000000000000000000000000000000000000000000),
        None,
    );
}

#[test]
fn test_max() {
    let a = from_f32(0.0);
    let b = from_f32(42.0);
    assert_eq!(a.max(b), b);

    let a = from_f32(42.0);
    let b = from_f32(0.0);
    assert_eq!(a.max(b), a);

    let a = bf16::nan();
    let b = from_f32(42.0);
    assert_eq!(a.max(b), b);

    let a = from_f32(42.0);
    let b = bf16::nan();
    assert_eq!(a.max(b), a);

    let a = bf16::nan();
    let b = bf16::nan();
    assert!(a.max(b).is_nan());
}

#[test]
fn test_min() {
    let a = from_f32(0.0);
    let b = from_f32(42.0);
    assert_eq!(a.min(b), a);

    let a = from_f32(42.0);
    let b = from_f32(0.0);
    assert_eq!(a.min(b), b);

    let a = bf16::nan();
    let b = from_f32(42.0);
    assert_eq!(a.min(b), b);

    let a = from_f32(42.0);
    let b = bf16::nan();
    assert_eq!(a.min(b), a);

    let a = bf16::nan();
    let b = bf16::nan();
    assert!(a.min(b).is_nan());
}
