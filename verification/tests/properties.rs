use core::cmp::Ordering;
use float16::{bf16, F16, FpCategory};

fn from_f32(v: f32) -> F16 {
    F16::from_f32_bits(v.to_bits())
}

fn to_f32(h: F16) -> f32 {
    f32::from_bits(h.to_f32_bits())
}

fn bfrom_f32(v: f32) -> bf16 {
    bf16::from_f32_bits(v.to_bits())
}

#[test]
fn roundtrip_all_f16_patterns() {
    for bits in 0..=u16::MAX {
        let n = F16::from_bits(bits);
        let back32 = F16::from_f32_bits(n.to_f32_bits());
        let back64 = F16::from_f64_bits(n.to_f64_bits());
        if n.is_nan() {
            assert!(back32.is_nan());
            assert!(back64.is_nan());
            assert_eq!(back32.is_sign_negative(), n.is_sign_negative());
            assert_eq!(back64.is_sign_negative(), n.is_sign_negative());
        } else {
            assert_eq!(back32.to_bits(), bits);
            assert_eq!(back64.to_bits(), bits);
        }
    }
}

#[test]
fn roundtrip_all_bf16_patterns() {
    for bits in 0..=u16::MAX {
        let n = bf16::from_bits(bits);
        let back32 = bf16::from_f32_bits(n.to_f32_bits());
        let back64 = bf16::from_f64_bits(n.to_f64_bits());
        if n.is_nan() {
            assert!(back32.is_nan());
            assert!(back64.is_nan());
            assert_eq!(back32.is_sign_negative(), n.is_sign_negative());
            assert_eq!(back64.is_sign_negative(), n.is_sign_negative());
        } else {
            assert_eq!(back32.to_bits(), bits);
            assert_eq!(back64.to_bits(), bits);
        }
    }
}

#[test]
fn widening_agrees_with_native_promotion() {
    for bits in 0..=u16::MAX {
        let h = F16::from_bits(bits);
        let b = bf16::from_bits(bits);
        if !h.is_nan() {
            let via32 = f32::from_bits(h.to_f32_bits()) as f64;
            assert_eq!(via32.to_bits(), h.to_f64_bits());
        }
        if !b.is_nan() {
            let via32 = f32::from_bits(b.to_f32_bits()) as f64;
            assert_eq!(via32.to_bits(), b.to_f64_bits());
        }
    }
}

#[test]
fn narrowing_from_f32_agrees_with_narrowing_from_f64() {
    // An f64 that holds an exact f32 value narrows in one rounding step to
    // the same place the f32 does, NaN payloads included.
    let mut w: u32 = 0;
    loop {
        let v = f32::from_bits(w);
        let d = (v as f64).to_bits();
        assert_eq!(F16::from_f32_bits(w).to_bits(), F16::from_f64_bits(d).to_bits());
        assert_eq!(bf16::from_f32_bits(w).to_bits(), bf16::from_f64_bits(d).to_bits());
        match w.checked_add(0x3FB) {
            Some(next) => w = next,
            None => break,
        }
    }
}

#[test]
fn narrowing_known_double_rounding_hazards() {
    // Values whose 64→32→16 double rounding would differ from the single
    // correctly-rounded step.
    let x = f64::from_bits(0x3F0F_FBFF_FFFF_FFFC);
    assert_eq!(F16::from_f64_bits(x.to_bits()).to_bits(), 0x03FF);
    let x = f64::from_bits(0x409F_FDFF_FFFF_0000);
    assert_eq!(F16::from_f64_bits(x.to_bits()).to_bits(), 0x67FF);
}

#[test]
fn total_cmp_sorts_into_total_order() {
    let mut v: Vec<F16> = vec![
        F16::one(),
        F16::infinity(),
        F16::neg_infinity(),
        F16::nan(),
        F16::max_subnormal(),
        -F16::max_subnormal(),
        F16::zero(),
        F16::neg_zero(),
        F16::neg_one(),
        F16::min_positive(),
    ];
    v.sort_by(|a, b| a.total_cmp(b));
    let expected = [
        F16::neg_infinity(),
        F16::neg_one(),
        -F16::max_subnormal(),
        F16::neg_zero(),
        F16::zero(),
        F16::max_subnormal(),
        F16::min_positive(),
        F16::one(),
        F16::infinity(),
        F16::nan(),
    ];
    for (a, b) in v.iter().zip(expected.iter()) {
        assert_eq!(a.to_bits(), b.to_bits());
    }
}

#[test]
fn total_cmp_sorts_into_total_order_bf16() {
    let mut v: Vec<bf16> = vec![
        bf16::one(),
        bf16::infinity(),
        bf16::neg_infinity(),
        bf16::nan(),
        bf16::max_subnormal(),
        -bf16::max_subnormal(),
        bf16::zero(),
        bf16::neg_zero(),
        bf16::neg_one(),
        bf16::min_positive(),
    ];
    v.sort_by(|a, b| a.total_cmp(b));
    let expected = [
        bf16::neg_infinity(),
        bf16::neg_one(),
        -bf16::max_subnormal(),
        bf16::neg_zero(),
        bf16::zero(),
        bf16::max_subnormal(),
        bf16::min_positive(),
        bf16::one(),
        bf16::infinity(),
        bf16::nan(),
    ];
    for (a, b) in v.iter().zip(expected.iter()) {
        assert_eq!(a.to_bits(), b.to_bits());
    }
}

#[test]
fn signed_zero_and_nan_comparisons() {
    let zero = F16::zero();
    let neg_zero = F16::neg_zero();
    let nan = F16::nan();
    let one = F16::one();

    assert!(zero == neg_zero);
    assert_eq!(zero.partial_cmp(&neg_zero), Some(Ordering::Equal));
    assert_eq!(neg_zero.partial_cmp(&zero), Some(Ordering::Equal));

    assert!(!(nan == nan));
    assert!(nan != nan);
    assert!(!(nan < one));
    assert!(!(nan <= one));
    assert!(!(nan > one));
    assert!(!(nan >= one));
    assert!(!(one < nan));
    assert!(!(one == nan));
    assert_eq!(nan.partial_cmp(&one), None);
    assert_eq!(one.partial_cmp(&nan), None);
    assert_eq!(nan.partial_cmp(&nan), None);
}

#[test]
fn overflow_saturates_to_infinity() {
    // 65520 is the first f32 that rounds past the largest finite f16.
    assert_eq!(from_f32(65520.0).to_bits(), F16::infinity().to_bits());
    assert_eq!(from_f32(-65520.0).to_bits(), F16::neg_infinity().to_bits());
    assert_eq!(from_f32(1.0e30).to_bits(), F16::infinity().to_bits());
    assert_eq!(from_f32(f32::MAX).to_bits(), F16::infinity().to_bits());
    // Just below the boundary the value still rounds down to the max finite.
    assert_eq!(from_f32(65519.996).to_bits(), F16::max_value().to_bits());
    // The bfloat16 boundary sits above the largest finite f32 midpoint, so
    // f32::MAX itself rounds up to infinity.
    assert_eq!(bfrom_f32(f32::MAX).to_bits(), bf16::infinity().to_bits());
    assert_eq!(bfrom_f32(f32::MIN).to_bits(), bf16::neg_infinity().to_bits());
    assert_eq!(
        bf16::from_f64_bits(1.0e39f64.to_bits()).to_bits(),
        bf16::infinity().to_bits()
    );
}

#[test]
fn underflow_saturates_to_signed_zero() {
    // Half of the smallest f16 subnormal ties back to zero, and anything
    // smaller dies to zero outright, keeping its sign.
    let half_tiny = 2.0f32.powi(-25);
    assert_eq!(from_f32(half_tiny).to_bits(), F16::zero().to_bits());
    assert_eq!(from_f32(-half_tiny).to_bits(), F16::neg_zero().to_bits());
    assert_eq!(from_f32(1.0e-30).to_bits(), F16::zero().to_bits());
    assert_eq!(from_f32(-1.0e-30).to_bits(), F16::neg_zero().to_bits());
    let bhalf_tiny = 2.0f64.powi(-134);
    assert_eq!(bf16::from_f64_bits(bhalf_tiny.to_bits()).to_bits(), 0);
    assert_eq!(
        bf16::from_f64_bits((-bhalf_tiny).to_bits()).to_bits(),
        bf16::neg_zero().to_bits()
    );
}

#[test]
fn arithmetic_bf16() {
    let add16 = |a: bf16, b: bf16| {
        bf16::from_f32_bits((f32::from_bits(a.to_f32_bits()) + f32::from_bits(b.to_f32_bits())).to_bits())
    };
    let div16 = |a: bf16, b: bf16| {
        bf16::from_f32_bits((f32::from_bits(a.to_f32_bits()) / f32::from_bits(b.to_f32_bits())).to_bits())
    };
    let rem16 = |a: bf16, b: bf16| {
        bf16::from_f32_bits((f32::from_bits(a.to_f32_bits()) % f32::from_bits(b.to_f32_bits())).to_bits())
    };
    assert_eq!(add16(bf16::one(), bf16::one()).to_bits(), bfrom_f32(2.0).to_bits());
    assert_eq!(div16(bfrom_f32(4.0), bfrom_f32(2.0)).to_bits(), bfrom_f32(2.0).to_bits());
    assert_eq!(rem16(bfrom_f32(4.0), bfrom_f32(3.0)).to_bits(), bfrom_f32(1.0).to_bits());
}

#[test]
fn classify_and_predicates() {
    assert_eq!(F16::zero().classify(), FpCategory::Zero);
    assert_eq!(F16::neg_zero().classify(), FpCategory::Zero);
    assert_eq!(F16::from_bits(1).classify(), FpCategory::Subnormal);
    assert_eq!(F16::max_subnormal().classify(), FpCategory::Subnormal);
    assert_eq!(F16::one().classify(), FpCategory::Normal);
    assert_eq!(F16::infinity().classify(), FpCategory::Infinite);
    assert_eq!(F16::neg_infinity().classify(), FpCategory::Infinite);
    assert_eq!(F16::nan().classify(), FpCategory::Nan);

    assert!(F16::min_positive().is_normal());
    assert!(F16::max_value().is_normal());
    assert!(!F16::zero().is_normal());
    assert!(!F16::nan().is_normal());
    assert!(!F16::infinity().is_normal());
    assert!(from_f32(1.0e-10).is_subnormal() || from_f32(1.0e-10).to_bits() == 0);
    assert!(F16::from_bits(1).is_subnormal());
    assert!(F16::infinity().is_infinite());
    assert!(!F16::infinity().is_finite());
    assert!(F16::one().is_finite());
    assert!(!F16::nan().is_finite());

    assert_eq!(bf16::zero().classify(), FpCategory::Zero);
    assert_eq!(bf16::from_bits(1).classify(), FpCategory::Subnormal);
    assert_eq!(bf16::one().classify(), FpCategory::Normal);
    assert_eq!(bf16::infinity().classify(), FpCategory::Infinite);
    assert_eq!(bf16::nan().classify(), FpCategory::Nan);
}

#[test]
fn sign_operations() {
    assert_eq!(from_f32(3.5).signum().to_bits(), F16::one().to_bits());
    assert_eq!(F16::neg_infinity().signum().to_bits(), F16::neg_one().to_bits());
    assert!(F16::nan().signum().is_nan());

    let f = from_f32(3.5);
    assert_eq!(f.copysign(from_f32(0.42)).to_bits(), from_f32(3.5).to_bits());
    assert_eq!(f.copysign(from_f32(-0.42)).to_bits(), from_f32(-3.5).to_bits());
    assert_eq!((-f).copysign(from_f32(0.42)).to_bits(), from_f32(3.5).to_bits());
    assert_eq!((-f).copysign(from_f32(-0.42)).to_bits(), from_f32(-3.5).to_bits());
    assert!(F16::nan().copysign(F16::one()).is_nan());

    assert_eq!(from_f32(-7.25).abs().to_bits(), from_f32(7.25).to_bits());
    assert_eq!(F16::neg_zero().abs().to_bits(), 0);
    assert_eq!((-F16::one()).to_bits(), F16::neg_one().to_bits());
    assert_eq!((-F16::neg_zero()).to_bits(), 0);
}

#[test]
fn clamp_behaviour() {
    let lo = from_f32(-2.0);
    let hi = from_f32(1.0);
    assert!(from_f32(-3.0).clamp(lo, hi) == lo);
    assert!(from_f32(0.0).clamp(lo, hi) == from_f32(0.0));
    assert!(from_f32(2.0).clamp(lo, hi) == hi);
    assert!(F16::nan().clamp(lo, hi).is_nan());

    let blo = bfrom_f32(-2.0);
    let bhi = bfrom_f32(1.0);
    assert!(bfrom_f32(-3.0).clamp(blo, bhi) == blo);
    assert!(bfrom_f32(2.0).clamp(blo, bhi) == bhi);
    assert!(bf16::nan().clamp(blo, bhi).is_nan());
}

#[test]
fn byte_representations() {
    let h = from_f32(12.5);
    assert_eq!(h.to_le_bytes(), [0x40, 0x4A]);
    assert_eq!(h.to_be_bytes(), [0x4A, 0x40]);
    assert_eq!(h.to_ne_bytes(), [0x40, 0x4A]);
    assert_eq!(F16::from_le_bytes([0x40, 0x4A]).to_bits(), h.to_bits());
    assert_eq!(F16::from_be_bytes([0x4A, 0x40]).to_bits(), h.to_bits());
    assert_eq!(F16::from_ne_bytes([0x40, 0x4A]).to_bits(), h.to_bits());

    for bits in [0u16, 1, 0x7C00, 0x8000, 0xFFFF, 0x1234] {
        assert_eq!(F16::from_le_bytes(F16::from_bits(bits).to_le_bytes()).to_bits(), bits);
        assert_eq!(F16::from_be_bytes(F16::from_bits(bits).to_be_bytes()).to_bits(), bits);
        assert_eq!(bf16::from_le_bytes(bf16::from_bits(bits).to_le_bytes()).to_bits(), bits);
        assert_eq!(bf16::from_be_bytes(bf16::from_bits(bits).to_be_bytes()).to_bits(), bits);
    }
}

#[test]
fn lossless_rejects_and_accepts() {
    // A value that fits exactly comes back unchanged.
    assert_eq!(
        F16::from_f32_bits_lossless(2.5f32.to_bits()),
        Some(from_f32(2.5))
    );
    // A value needing rounding is refused.
    assert_eq!(F16::from_f32_bits_lossless(2.5000005f32.to_bits()), None);
    assert_eq!(F16::from_f64_bits_lossless(0.1f64.to_bits()), None);
    assert_eq!(bf16::from_f32_bits_lossless(0.1f32.to_bits()), None);
    assert_eq!(bf16::from_f64_bits_lossless(0.1f64.to_bits()), None);
    // Overflowing values are refused rather than saturated.
    assert_eq!(F16::from_f32_bits_lossless(1.0e30f32.to_bits()), None);
    assert_eq!(bf16::from_f64_bits_lossless(1.0e39f64.to_bits()), None);
    // Non-finite values are always accepted.
    assert_eq!(
        bf16::from_f64_bits_lossless(f64::INFINITY.to_bits()),
        Some(bf16::infinity())
    );
    assert_eq!(
        bf16::from_f32_bits_lossless(f32::NEG_INFINITY.to_bits()),
        Some(bf16::neg_infinity())
    );
    assert!(F16::from_f64_bits_lossless(f64::NAN.to_bits()).unwrap().is_nan());
}

#[test]
fn recip_matches_wide_division() {
    for bits in 0..=u16::MAX {
        let x = bf16::from_bits(bits);
        let r = x.recip();
        let expected = bf16::from_f32_bits((1.0f32 / f32::from_bits(x.to_f32_bits())).to_bits());
        if expected.is_nan() {
            assert!(r.is_nan());
        } else {
            assert_eq!(r.to_bits(), expected.to_bits());
        }
    }
}

#[test]
fn f16_recip_matches_wide_division() {
    for bits in 0..=u16::MAX {
        let x = F16::from_bits(bits);
        let r = x.recip();
        let expected = F16::from_f32_bits((1.0f32 / f32::from_bits(x.to_f32_bits())).to_bits());
        if expected.is_nan() {
            assert!(r.is_nan());
        } else {
            assert_eq!(r.to_bits(), expected.to_bits());
        }
    }
}

#[test]
fn f16_degrees_radians_match_wide_operator_chain() {
    let deg180 = from_f32(180.0);
    assert_eq!(deg180.to_bits(), 0x59A0);
    assert_eq!(F16::pi().to_bits(), 0x4248);
    for bits in 0..=u16::MAX {
        let x = F16::from_bits(bits);
        let xf = f32::from_bits(x.to_f32_bits());

        let scaled = F16::from_f32_bits((xf * 180.0f32).to_bits());
        let sf = f32::from_bits(scaled.to_f32_bits());
        let expected = F16::from_f32_bits((sf / f32::from_bits(F16::pi().to_f32_bits())).to_bits());
        let r = x.to_degrees();
        if expected.is_nan() {
            assert!(r.is_nan());
        } else {
            assert_eq!(r.to_bits(), expected.to_bits());
        }

        let scaled = F16::from_f32_bits((xf * f32::from_bits(F16::pi().to_f32_bits())).to_bits());
        let sf = f32::from_bits(scaled.to_f32_bits());
        let expected = F16::from_f32_bits((sf / 180.0f32).to_bits());
        let r = x.to_radians();
        if expected.is_nan() {
            assert!(r.is_nan());
        } else {
            assert_eq!(r.to_bits(), expected.to_bits());
        }
    }
}

#[test]
fn degrees_radians_match_wide_operator_chain() {
    let deg180 = bfrom_f32(180.0);
    assert_eq!(deg180.to_bits(), 0x4334);
    assert_eq!(bf16::pi().to_bits(), 0x4049);
    for bits in 0..=u16::MAX {
        let x = bf16::from_bits(bits);
        let xf = f32::from_bits(x.to_f32_bits());

        let scaled = bf16::from_f32_bits((xf * 180.0f32).to_bits());
        let sf = f32::from_bits(scaled.to_f32_bits());
        let expected = bf16::from_f32_bits((sf / f32::from_bits(bf16::pi().to_f32_bits())).to_bits());
        let r = x.to_degrees();
        if expected.is_nan() {
            assert!(r.is_nan());
        } else {
            assert_eq!(r.to_bits(), expected.to_bits());
        }

        let scaled = bf16::from_f32_bits((xf * f32::from_bits(bf16::pi().to_f32_bits())).to_bits());
        let sf = f32::from_bits(scaled.to_f32_bits());
        let expected = bf16::from_f32_bits((sf / 180.0f32).to_bits());
        let r = x.to_radians();
        if expected.is_nan() {
            assert!(r.is_nan());
        } else {
            assert_eq!(r.to_bits(), expected.to_bits());
        }
    }
}

#[test]
fn integer_constructors_match_casts() {
    for v in [0u32, 1, 2, 7, 180, 255, 1024, 2047, 2048, 2049, 65519, 65520, 100_000, u32::MAX] {
        assert_eq!(F16::from_u32(v).to_bits(), from_f32(v as f32).to_bits());
        assert_eq!(bf16::from_u32(v).to_bits(), bfrom_f32(v as f32).to_bits());
    }
    for v in [0i32, 1, -1, -180, 33_000, -33_000, i32::MIN, i32::MAX] {
        assert_eq!(F16::from_i32(v).to_bits(), from_f32(v as f32).to_bits());
        assert_eq!(bf16::from_i32(v).to_bits(), bfrom_f32(v as f32).to_bits());
    }
    for v in [0u64, 1, u64::MAX, 0x0010_0000_0100_0001] {
        assert_eq!(F16::from_u64(v).to_bits(), from_f32(v as f32).to_bits());
        assert_eq!(bf16::from_u64(v).to_bits(), bfrom_f32(v as f32).to_bits());
    }
    for v in [0u128, 1, u128::MAX, 1 << 100] {
        assert_eq!(F16::from_u128(v).to_bits(), from_f32(v as f32).to_bits());
        assert_eq!(bf16::from_u128(v).to_bits(), bfrom_f32(v as f32).to_bits());
    }
    for v in [0i128, -1, i128::MIN, i128::MAX, -(1i128 << 99)] {
        assert_eq!(F16::from_i128(v).to_bits(), from_f32(v as f32).to_bits());
        assert_eq!(bf16::from_i128(v).to_bits(), bfrom_f32(v as f32).to_bits());
    }
    for v in [0u8, 1, 180, 255] {
        assert_eq!(F16::from_u8(v).to_bits(), from_f32(v as f32).to_bits());
        assert_eq!(bf16::from_u8(v).to_bits(), bfrom_f32(v as f32).to_bits());
    }
    for v in [0i8, -1, -128, 127] {
        assert_eq!(F16::from_i8(v).to_bits(), from_f32(v as f32).to_bits());
        assert_eq!(bf16::from_i8(v).to_bits(), bfrom_f32(v as f32).to_bits());
    }
    for v in [0u16, 1, 65535] {
        assert_eq!(F16::from_u16(v).to_bits(), from_f32(v as f32).to_bits());
        assert_eq!(bf16::from_u16(v).to_bits(), bfrom_f32(v as f32).to_bits());
    }
    for v in [0i16, -1, i16::MIN, i16::MAX] {
        assert_eq!(F16::from_i16(v).to_bits(), from_f32(v as f32).to_bits());
        assert_eq!(bf16::from_i16(v).to_bits(), bfrom_f32(v as f32).to_bits());
    }
    let mut v: u32 = 1;
    while v < u32::MAX / 3 {
        assert_eq!(F16::from_u32(v).to_bits(), from_f32(v as f32).to_bits());
        assert_eq!(bf16::from_u32(v).to_bits(), bfrom_f32(v as f32).to_bits());
        v = v.wrapping_mul(3).wrapping_add(1);
    }
}

#[test]
fn operators_match_wide_compute() {
    // every pairing of a fixed set of patterns, for all three verified
    // operators, against the promote–compute–demote oracle
    let mut samples: Vec<u16> = vec![
        0, 1, 2, 0x0080, 0x007F, 0x0400, 0x03FF, 0x3C00, 0x3F80, 0x4049, 0x4248, 0x59A0, 0x4334,
        0x7BFF, 0x7C00, 0x7E00, 0x7F7F, 0x7F80, 0x7FC0, 0x8000, 0x8001, 0xBC00, 0xFC01, 0xFFFF,
        0x0554, 0x8554, 0x7001, 0xF001,
    ];
    let mut x: u16 = 12345;
    for _ in 0..200 {
        x = x.wrapping_mul(31421).wrapping_add(6927);
        samples.push(x);
    }
    for &a in &samples {
        for &b in &samples {
            let ha = F16::from_bits(a);
            let hb = F16::from_bits(b);
            let fa = f32::from_bits(ha.to_f32_bits());
            let fb = f32::from_bits(hb.to_f32_bits());
            for (got, want) in [
                (ha + hb, F16::from_f32_bits((fa + fb).to_bits())),
                (ha - hb, F16::from_f32_bits((fa - fb).to_bits())),
                (ha * hb, F16::from_f32_bits((fa * fb).to_bits())),
                (ha / hb, F16::from_f32_bits((fa / fb).to_bits())),
                (ha % hb, F16::from_f32_bits((fa % fb).to_bits())),
            ] {
                if want.is_nan() {
                    assert!(got.is_nan());
                } else {
                    assert_eq!(got.to_bits(), want.to_bits());
                }
            }

            let ba = bf16::from_bits(a);
            let bb = bf16::from_bits(b);
            let fa = f32::from_bits(ba.to_f32_bits());
            let fb = f32::from_bits(bb.to_f32_bits());
            for (got, want) in [
                (ba + bb, bf16::from_f32_bits((fa + fb).to_bits())),
                (ba - bb, bf16::from_f32_bits((fa - fb).to_bits())),
                (ba * bb, bf16::from_f32_bits((fa * fb).to_bits())),
                (ba / bb, bf16::from_f32_bits((fa / fb).to_bits())),
                (ba % bb, bf16::from_f32_bits((fa % fb).to_bits())),
            ] {
                if want.is_nan() {
                    assert!(got.is_nan());
                } else {
                    assert_eq!(got.to_bits(), want.to_bits());
                }
            }
        }
    }
}

#[test]
fn min_max_avoid_nan() {
    let one = F16::one();
    let two = from_f32(2.0);
    assert_eq!(one.max(two).to_bits(), two.to_bits());
    assert_eq!(one.min(two).to_bits(), one.to_bits());
    assert_eq!(F16::nan().max(one).to_bits(), one.to_bits());
    assert_eq!(one.max(F16::nan()).to_bits(), one.to_bits());
    assert_eq!(F16::nan().min(one).to_bits(), one.to_bits());
    assert_eq!(one.min(F16::nan()).to_bits(), one.to_bits());
    assert!(F16::nan().max(F16::nan()).is_nan());
}
