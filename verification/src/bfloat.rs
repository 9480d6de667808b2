//! The bfloat16 format: a truncated IEEE 754 `binary32` with 1 sign bit,
//! 8 exponent bits and 7 mantissa bits.

use vstd::arithmetic::power2::{
    lemma2_to64, lemma2_to64_rest, lemma_pow2_adds, lemma_pow2_pos, lemma_pow2_strictly_increases,
    pow2,
};
use core::cmp::Ordering;
use vstd::prelude::*;
use vstd::std_specs::cmp::PartialOrdSpec;

use crate::FpCategory;
use crate::rounding::{
    lemma_norm_shift, lemma_norm_shift_unique, lemma_rne_bound, lemma_rne_exact,
    lemma_rne_frac_bound, lemma_rne_frac_low, lemma_rne_frac_zero, lemma_rne_low, lemma_rne_zero,
    norm_shift, rne, rne_frac, rne_frac_u64, rne_u64,
};
use crate::wide::{
    exp32, exp64, f32_of_u128, frac32, frac64, lemma_fields32, lemma_fields64, sign32, sign64,
    with_high_bit,
};

verus! {

/// A 16-bit floating point value in the bfloat16 format, stored as its raw
/// bit pattern.
#[allow(non_camel_case_types)]
#[derive(Clone, Copy, Debug)]
pub struct bf16(pub u16);

/// The sign bit, as 0 or 1.
pub open spec fn bsign16(b: u16) -> int {
    b as int / 0x8000
}

/// The 8-bit exponent field.
pub open spec fn bexp16(b: u16) -> int {
    (b as int / 0x80) % 0x100
}

/// The 7-bit mantissa field.
pub open spec fn bman16(b: u16) -> int {
    b as int % 0x80
}

/// The magnitude bits: everything but the sign.
pub open spec fn bmag16(b: u16) -> int {
    b as int % 0x8000
}

/// A pattern is NaN when the exponent field is all ones and the mantissa is
/// not zero, i.e. the magnitude lies strictly above the infinity encoding.
pub open spec fn is_bnan16(b: u16) -> bool {
    bmag16(b) > 0x7F80
}

/// Every bfloat16 pattern is exactly its fields put side by side.
pub proof fn lemma_bparts16(b: u16)
    ensures
        0 <= bsign16(b) < 2,
        0 <= bexp16(b) < 0x100,
        0 <= bman16(b) < 0x80,
        0 <= bmag16(b) < 0x8000,
        bmag16(b) == bexp16(b) * 0x80 + bman16(b),
        b == bsign16(b) * 0x8000 + bmag16(b),
{
    vstd::arithmetic::div_mod::lemma_fundamental_div_mod(b as int, 0x8000);
    vstd::arithmetic::div_mod::lemma_fundamental_div_mod(b as int, 0x80);
    vstd::arithmetic::div_mod::lemma_fundamental_div_mod(b as int / 0x80, 0x100);
    vstd::arithmetic::div_mod::lemma_div_denominator(b as int, 0x80, 0x100);
    vstd::arithmetic::div_mod::lemma_fundamental_div_mod_converse(
        b as int,
        0x8000,
        bsign16(b),
        bexp16(b) * 0x80 + bman16(b),
    );
}

/// The signed magnitude a pattern compares as: NaN aside, IEEE ordering is
/// the ordering of this key, and both zeros land on 0.
pub open spec fn bcmp_key16(b: u16) -> int {
    if bsign16(b) == 1 {
        -bmag16(b)
    } else {
        bmag16(b)
    }
}

/// The key whose ordering is IEEE 754 `totalOrder`: negatives reversed and
/// pushed just below the positives, so −0 falls under +0 and a negative NaN
/// under everything.
pub open spec fn btotal_key16(b: u16) -> int {
    if bsign16(b) == 1 {
        -bmag16(b) - 1
    } else {
        bmag16(b)
    }
}

/// IEEE equality: false on NaN, true for +0 and −0, bit equality otherwise.
pub open spec fn beq16(a: u16, b: u16) -> bool {
    !is_bnan16(a) && !is_bnan16(b) && bcmp_key16(a) == bcmp_key16(b)
}

/// IEEE `<`: false whenever NaN is involved.
pub open spec fn blt16(a: u16, b: u16) -> bool {
    !is_bnan16(a) && !is_bnan16(b) && bcmp_key16(a) < bcmp_key16(b)
}

/// IEEE `<=`: false whenever NaN is involved.
pub open spec fn ble16(a: u16, b: u16) -> bool {
    !is_bnan16(a) && !is_bnan16(b) && bcmp_key16(a) <= bcmp_key16(b)
}

/// The category of a pattern, read off its exponent and mantissa fields.
pub open spec fn bclassify16(b: u16) -> FpCategory {
    if bexp16(b) == 0 && bman16(b) == 0 {
        FpCategory::Zero
    } else if bexp16(b) == 0 {
        FpCategory::Subnormal
    } else if bexp16(b) == 0xFF && bman16(b) == 0 {
        FpCategory::Infinite
    } else if bexp16(b) == 0xFF {
        FpCategory::Nan
    } else {
        FpCategory::Normal
    }
}

/// The magnitude bits of the bfloat16 value that a `binary32` pattern
/// narrows to under round-to-nearest-even.
///
/// The two formats share their exponent width and bias, so apart from the
/// all-ones exponent (infinity or a quieted NaN) the conversion is one
/// uniform case: the low 16 mantissa bits are dropped and the kept bits
/// rounded, a carry walking from the mantissa through the exponent and, at
/// the very top, into infinity.
pub open spec fn bf16_of_f32_mag(w: u32) -> int {
    let e = exp32(w);
    let f = frac32(w);
    if e == 0xFF {
        if f == 0 {
            0x7F80
        } else {
            0x7F80 + with_high_bit(f / 0x1_0000, 0x40)
        }
    } else {
        e * 0x80 + rne(f as nat, 16)
    }
}

/// The full bfloat16 pattern that a `binary32` pattern narrows to.
pub open spec fn bf16_of_f32(w: u32) -> int {
    sign32(w) * 0x8000 + bf16_of_f32_mag(w)
}

/// The magnitude bits of the bfloat16 value that a `binary64` pattern
/// narrows to under round-to-nearest-even: an all-ones wide exponent maps to
/// infinity or a quieted NaN; a rebiased exponent at or above 255 saturates
/// to infinity; a rebiased exponent in 1..=254 keeps its mantissa rounded to
/// 7 bits; a 64-bit subnormal dies to zero; anything else becomes a bfloat16
/// subnormal, the hidden bit restored and the whole mantissa rounded by the
/// exponent deficit.
pub open spec fn bf16_of_f64_mag(w: u64) -> int {
    let e = exp64(w);
    let f = frac64(w);
    if e == 0x7FF {
        if f == 0 {
            0x7F80
        } else {
            0x7F80 + with_high_bit(f / 0x2000_0000_0000, 0x40)
        }
    } else if e >= 1151 {
        0x7F80
    } else if e >= 897 {
        (e - 896) * 0x80 + rne(f as nat, 45)
    } else if e == 0 {
        0
    } else {
        rne((0x10_0000_0000_0000 + f) as nat, (942 - e) as nat) as int
    }
}

/// The full bfloat16 pattern that a `binary64` pattern narrows to.
pub open spec fn bf16_of_f64(w: u64) -> int {
    sign64(w) * 0x8000 + bf16_of_f64_mag(w)
}

/// The `binary32` pattern that a bfloat16 value widens to: exactly its bits
/// moved to the top half, since bfloat16 is `binary32` truncated. Zeros,
/// subnormals, normals, infinities and NaNs all fall to the same shift.
pub open spec fn f32_of_bf16(b: u16) -> int {
    b as int * 0x1_0000
}

/// The magnitude bits of the `binary64` pattern that a bfloat16 value widens
/// to, always exactly: infinity and NaN keep an all-ones exponent with the
/// mantissa moved to the top of the wide field; a normal rebases its
/// exponent and pads the mantissa; a subnormal is normalized by shifting
/// until the hidden bit appears, the exponent dropping once per shift.
pub open spec fn f64_of_bf16_mag(b: u16) -> int {
    let e = bexp16(b);
    let f = bman16(b);
    if e == 0xFF {
        if f == 0 {
            0x7FF0_0000_0000_0000
        } else {
            0x7FF0_0000_0000_0000 + f * 0x2000_0000_0000
        }
    } else if e > 0 {
        (e + 896) * 0x10_0000_0000_0000 + f * 0x2000_0000_0000
    } else if f == 0 {
        0
    } else {
        let c = norm_shift(f as nat, 0x80);
        (897 - c) * 0x10_0000_0000_0000 + (f * pow2(c) - 0x80) * 0x2000_0000_0000
    }
}

/// The full `binary64` pattern that a bfloat16 value widens to.
pub open spec fn f64_of_bf16(b: u16) -> int {
    bsign16(b) * 0x8000_0000_0000_0000 + f64_of_bf16_mag(b)
}

/// The full significand of a finite nonzero pattern, normalized into
/// `[2^7, 2^8)`: a normal gets its hidden bit back, a subnormal is shifted
/// up until the hidden position fills.
pub open spec fn bsig(b: u16) -> int {
    if bexp16(b) > 0 {
        0x80 + bman16(b)
    } else {
        bman16(b) * pow2(norm_shift(bman16(b) as nat, 0x80))
    }
}

/// The power of two scaling [`bsig`]: a finite nonzero value denotes
/// `±bsig · 2^bsig_exp`.
pub open spec fn bsig_exp(b: u16) -> int {
    if bexp16(b) > 0 {
        bexp16(b) - 134
    } else {
        -133 - norm_shift(bman16(b) as nat, 0x80)
    }
}

/// The `binary32` pattern of the product of two finite nonzero bfloat16
/// values. The 8-bit significands multiply exactly into at most 16 bits, far
/// inside the 24-bit wide significand, so the wide product rounds only when
/// it falls below the wide subnormal range.
pub open spec fn f32_mul_bf16(a: u16, b: u16) -> int {
    let s: int = if bsign16(a) == bsign16(b) {
        0
    } else {
        1
    };
    let p = bsig(a) * bsig(b);
    let sig = if p >= 0x8000 {
        p * 0x100
    } else {
        p * 0x200
    };
    let e32 = if p >= 0x8000 {
        bsig_exp(a) + bsig_exp(b) + 142
    } else {
        bsig_exp(a) + bsig_exp(b) + 141
    };
    if e32 >= 255 {
        s * 0x8000_0000 + 0x7F80_0000
    } else if e32 >= 1 {
        s * 0x8000_0000 + e32 * 0x80_0000 + (sig - 0x80_0000)
    } else {
        s * 0x8000_0000 + rne(sig as nat, (1 - e32) as nat)
    }
}

/// The `binary32` pattern of the quotient of two finite nonzero bfloat16
/// values, correctly rounded in one step: the exact rational quotient of the
/// significands is rounded to 24 bits, or straight to the wide subnormal
/// scale where the exponent falls below the normal range.
pub open spec fn f32_div_bf16(a: u16, b: u16) -> int {
    let s: int = if bsign16(a) == bsign16(b) {
        0
    } else {
        1
    };
    let q = if bsig(a) >= bsig(b) {
        rne_frac((bsig(a) * 0x80_0000) as nat, bsig(b) as nat)
    } else {
        rne_frac((bsig(a) * 0x100_0000) as nat, bsig(b) as nat)
    };
    let e32 = if bsig(a) >= bsig(b) {
        bsig_exp(a) - bsig_exp(b) + 127
    } else {
        bsig_exp(a) - bsig_exp(b) + 126
    };
    if e32 >= 255 {
        s * 0x8000_0000 + 0x7F80_0000
    } else if e32 >= 1 {
        s * 0x8000_0000 + e32 * 0x80_0000 + (q - 0x80_0000)
    } else {
        let u = bsig_exp(a) - bsig_exp(b) + 149;
        let fsub = if u >= 0 {
            rne_frac((bsig(a) * pow2(u as nat)) as nat, bsig(b) as nat)
        } else {
            rne_frac(bsig(a) as nat, (bsig(b) * pow2((-u) as nat)) as nat)
        };
        s * 0x8000_0000 + fsub
    }
}

/// The bfloat16 product of two values under the promote–compute–demote rule:
/// the wide product of [`f32_mul_bf16`] narrowed again, with IEEE special
/// cases. A NaN result carries the canonical quiet payload: payloads are not
/// part of the arithmetic contract.
pub open spec fn bf16_mul(a: u16, b: u16) -> int {
    let s: int = if bsign16(a) == bsign16(b) {
        0
    } else {
        1
    };
    if is_bnan16(a) || is_bnan16(b) {
        s * 0x8000 + 0x7FC0
    } else if bmag16(a) == 0x7F80 || bmag16(b) == 0x7F80 {
        if bmag16(a) == 0 || bmag16(b) == 0 {
            s * 0x8000 + 0x7FC0
        } else {
            s * 0x8000 + 0x7F80
        }
    } else if bmag16(a) == 0 || bmag16(b) == 0 {
        s * 0x8000
    } else {
        bf16_of_f32(f32_mul_bf16(a, b) as u32)
    }
}

/// The bfloat16 quotient of two values under the promote–compute–demote
/// rule: the wide quotient of [`f32_div_bf16`] narrowed again, with IEEE
/// special cases. A NaN result carries the canonical quiet payload.
pub open spec fn bf16_div(a: u16, b: u16) -> int {
    let s: int = if bsign16(a) == bsign16(b) {
        0
    } else {
        1
    };
    if is_bnan16(a) || is_bnan16(b) {
        s * 0x8000 + 0x7FC0
    } else if bmag16(b) == 0 {
        if bmag16(a) == 0 {
            s * 0x8000 + 0x7FC0
        } else {
            s * 0x8000 + 0x7F80
        }
    } else if bmag16(b) == 0x7F80 {
        if bmag16(a) == 0x7F80 {
            s * 0x8000 + 0x7FC0
        } else {
            s * 0x8000
        }
    } else if bmag16(a) == 0 {
        s * 0x8000
    } else if bmag16(a) == 0x7F80 {
        s * 0x8000 + 0x7F80
    } else {
        bf16_of_f32(f32_div_bf16(a, b) as u32)
    }
}

impl bf16 {
    /// Approximate number of significant digits in base 10.
    pub const DIGITS: u32 = 2;

    /// Number of significant digits in base 2.
    pub const MANTISSA_DIGITS: u32 = 8;

    /// Maximum possible power of 10 exponent.
    pub const MAX_10_EXP: i32 = 38;

    /// Maximum possible power of 2 exponent.
    pub const MAX_EXP: i32 = 128;

    /// Minimum possible normal power of 10 exponent.
    pub const MIN_10_EXP: i32 = -37;

    /// One greater than the minimum possible normal power of 2 exponent.
    pub const MIN_EXP: i32 = -125;

    /// The radix or base of the internal representation.
    pub const RADIX: u32 = 2;

    /// The sign bit.
    pub const SIGN_MASK: u16 = 0x8000;

    /// The exponent field.
    pub const EXP_MASK: u16 = 0x7F80;

    /// The hidden (implicit) mantissa bit of a normal value.
    pub const HIDDEN_BIT_MASK: u16 = 0x0080;

    /// The mantissa field.
    pub const MAN_MASK: u16 = 0x007F;

    /// The bits of the minimum positive value, the smallest subnormal.
    pub const TINY_BITS: u16 = 0x1;

    /// The bits of the negative value closest to zero.
    pub const NEG_TINY_BITS: u16 = 0x8001;

    /// The machine epsilon: the difference between 1 and the next value up, pre-encoded as its nearest representable bit pattern.
    pub fn epsilon() -> (r: bf16)
        ensures
            r.0 == 0x3C00,
    {
        bf16(0x3C00)
    }

    /// Positive infinity (+∞), pre-encoded as its nearest representable bit pattern.
    pub fn infinity() -> (r: bf16)
        ensures
            r.0 == 0x7F80,
    {
        bf16(0x7F80)
    }

    /// The largest finite value, pre-encoded as its nearest representable bit pattern.
    pub fn max_value() -> (r: bf16)
        ensures
            r.0 == 0x7F7F,
    {
        bf16(0x7F7F)
    }

    /// The smallest finite value, pre-encoded as its nearest representable bit pattern.
    pub fn min_value() -> (r: bf16)
        ensures
            r.0 == 0xFF7F,
    {
        bf16(0xFF7F)
    }

    /// The smallest positive normal value, pre-encoded as its nearest representable bit pattern.
    pub fn min_positive() -> (r: bf16)
        ensures
            r.0 == 0x0080,
    {
        bf16(0x0080)
    }

    /// Not a Number (NaN), pre-encoded as its nearest representable bit pattern.
    pub fn nan() -> (r: bf16)
        ensures
            r.0 == 0x7FC0,
    {
        bf16(0x7FC0)
    }

    /// Negative infinity (−∞), pre-encoded as its nearest representable bit pattern.
    pub fn neg_infinity() -> (r: bf16)
        ensures
            r.0 == 0xFF80,
    {
        bf16(0xFF80)
    }

    /// The minimum positive subnormal value, pre-encoded as its nearest representable bit pattern.
    pub fn min_positive_subnormal() -> (r: bf16)
        ensures
            r.0 == 0x0001,
    {
        bf16(0x0001)
    }

    /// The maximum subnormal value, pre-encoded as its nearest representable bit pattern.
    pub fn max_subnormal() -> (r: bf16)
        ensures
            r.0 == 0x007F,
    {
        bf16(0x007F)
    }

    /// The value 1, pre-encoded as its nearest representable bit pattern.
    pub fn one() -> (r: bf16)
        ensures
            r.0 == 0x3F80,
    {
        bf16(0x3F80)
    }

    /// The value 0, pre-encoded as its nearest representable bit pattern.
    pub fn zero() -> (r: bf16)
        ensures
            r.0 == 0x0000,
    {
        bf16(0x0000)
    }

    /// The value −0, pre-encoded as its nearest representable bit pattern.
    pub fn neg_zero() -> (r: bf16)
        ensures
            r.0 == 0x8000,
    {
        bf16(0x8000)
    }

    /// The value −1, pre-encoded as its nearest representable bit pattern.
    pub fn neg_one() -> (r: bf16)
        ensures
            r.0 == 0xBF80,
    {
        bf16(0xBF80)
    }

    /// Euler's number (ℯ), pre-encoded as its nearest representable bit pattern.
    pub fn e() -> (r: bf16)
        ensures
            r.0 == 0x402E,
    {
        bf16(0x402E)
    }

    /// Archimedes' constant (π), pre-encoded as its nearest representable bit pattern.
    pub fn pi() -> (r: bf16)
        ensures
            r.0 == 0x4049,
    {
        bf16(0x4049)
    }

    /// 1/π, pre-encoded as its nearest representable bit pattern.
    pub fn frac_1_pi() -> (r: bf16)
        ensures
            r.0 == 0x3EA3,
    {
        bf16(0x3EA3)
    }

    /// 1/√2, pre-encoded as its nearest representable bit pattern.
    pub fn frac_1_sqrt_2() -> (r: bf16)
        ensures
            r.0 == 0x3F35,
    {
        bf16(0x3F35)
    }

    /// 2/π, pre-encoded as its nearest representable bit pattern.
    pub fn frac_2_pi() -> (r: bf16)
        ensures
            r.0 == 0x3F23,
    {
        bf16(0x3F23)
    }

    /// 2/√π, pre-encoded as its nearest representable bit pattern.
    pub fn frac_2_sqrt_pi() -> (r: bf16)
        ensures
            r.0 == 0x3F90,
    {
        bf16(0x3F90)
    }

    /// π/2, pre-encoded as its nearest representable bit pattern.
    pub fn frac_pi_2() -> (r: bf16)
        ensures
            r.0 == 0x3FC9,
    {
        bf16(0x3FC9)
    }

    /// π/3, pre-encoded as its nearest representable bit pattern.
    pub fn frac_pi_3() -> (r: bf16)
        ensures
            r.0 == 0x3F86,
    {
        bf16(0x3F86)
    }

    /// π/4, pre-encoded as its nearest representable bit pattern.
    pub fn frac_pi_4() -> (r: bf16)
        ensures
            r.0 == 0x3F49,
    {
        bf16(0x3F49)
    }

    /// π/6, pre-encoded as its nearest representable bit pattern.
    pub fn frac_pi_6() -> (r: bf16)
        ensures
            r.0 == 0x3F06,
    {
        bf16(0x3F06)
    }

    /// π/8, pre-encoded as its nearest representable bit pattern.
    pub fn frac_pi_8() -> (r: bf16)
        ensures
            r.0 == 0x3EC9,
    {
        bf16(0x3EC9)
    }

    /// ln 10, pre-encoded as its nearest representable bit pattern.
    pub fn ln_10() -> (r: bf16)
        ensures
            r.0 == 0x4013,
    {
        bf16(0x4013)
    }

    /// ln 2, pre-encoded as its nearest representable bit pattern.
    pub fn ln_2() -> (r: bf16)
        ensures
            r.0 == 0x3F31,
    {
        bf16(0x3F31)
    }

    /// log₁₀ ℯ, pre-encoded as its nearest representable bit pattern.
    pub fn log10_e() -> (r: bf16)
        ensures
            r.0 == 0x3EDE,
    {
        bf16(0x3EDE)
    }

    /// log₁₀ 2, pre-encoded as its nearest representable bit pattern.
    pub fn log10_2() -> (r: bf16)
        ensures
            r.0 == 0x3E9A,
    {
        bf16(0x3E9A)
    }

    /// log₂ ℯ, pre-encoded as its nearest representable bit pattern.
    pub fn log2_e() -> (r: bf16)
        ensures
            r.0 == 0x3FB9,
    {
        bf16(0x3FB9)
    }

    /// log₂ 10, pre-encoded as its nearest representable bit pattern.
    pub fn log2_10() -> (r: bf16)
        ensures
            r.0 == 0x4055,
    {
        bf16(0x4055)
    }

    /// √2, pre-encoded as its nearest representable bit pattern.
    pub fn sqrt_2() -> (r: bf16)
        ensures
            r.0 == 0x3FB5,
    {
        bf16(0x3FB5)
    }
    /// Constructs a [`bf16`] value from the raw bits.
    pub fn from_bits(bits: u16) -> (r: bf16)
        ensures
            r.0 == bits,
    {
        bf16(bits)
    }

    /// Converts a [`bf16`] into the underlying bit representation.
    pub fn to_bits(self) -> (r: u16)
        ensures
            r == self.0,
    {
        self.0
    }

    /// Returns `true` if this value is NaN and `false` otherwise.
    pub fn is_nan(self) -> (r: bool)
        ensures
            r == is_bnan16(self.0),
    {
        self.0 % 0x8000 > 0x7F80
    }

    /// Constructs a [`bf16`] value from the bit pattern of a 32-bit floating
    /// point value.
    ///
    /// This operation is lossy: the low 16 mantissa bits are dropped and the
    /// result rounded to the nearest representable value, an exact tie going
    /// to the even mantissa. A value too large to fit becomes ±∞ and NaN
    /// stays NaN.
    pub fn from_f32_bits(w: u32) -> (r: bf16)
        ensures
            r.0 as int == bf16_of_f32(w),
    {
        proof {
            lemma2_to64();
        }
        let s: u32 = w / 0x8000_0000;
        let e: u32 = (w / 0x80_0000) % 0x100;
        let f: u32 = w % 0x80_0000;
        let mag: u16 = if e == 0xFF {
            if f == 0 {
                0x7F80
            } else {
                let t: u16 = (f / 0x1_0000) as u16;
                if t < 0x40 {
                    0x7F80 + 0x40 + t
                } else {
                    0x7F80 + t
                }
            }
        } else {
            let m: u64 = rne_u64(f as u64, 16);
            proof {
                lemma_rne_bound(f as nat, 16, 0x80);
            }
            (e as u16) * 0x80 + (m as u16)
        };
        bf16((s as u16) * 0x8000 + mag)
    }

    /// Constructs a [`bf16`] value from the bit pattern of a 64-bit floating
    /// point value, rounding once, directly from 64 bits.
    ///
    /// This operation is lossy. A value too large to fit becomes ±∞; NaN
    /// stays NaN; a 64-bit value below the bfloat16 subnormal range becomes
    /// ±0; an exponent that underflows the bfloat16 normal range gives a
    /// subnormal or ±0. Everything else is rounded to the nearest
    /// representable value, an exact tie going to the even mantissa.
    pub fn from_f64_bits(w: u64) -> (r: bf16)
        ensures
            r.0 as int == bf16_of_f64(w),
    {
        proof {
            lemma2_to64();
            lemma2_to64_rest();
        }
        let s: u64 = w / 0x8000_0000_0000_0000;
        let e: u64 = (w / 0x10_0000_0000_0000) % 0x800;
        let f: u64 = w % 0x10_0000_0000_0000;
        let mag: u16 = if e == 0x7FF {
            if f == 0 {
                0x7F80
            } else {
                let t: u16 = (f / 0x2000_0000_0000) as u16;
                if t < 0x40 {
                    0x7F80 + 0x40 + t
                } else {
                    0x7F80 + t
                }
            }
        } else if e >= 1151 {
            0x7F80
        } else if e >= 897 {
            let m: u64 = rne_u64(f, 45);
            proof {
                lemma_rne_bound(f as nat, 45, 0x80);
            }
            ((e - 896) as u16) * 0x80 + (m as u16)
        } else if e >= 889 {
            let sh: u64 = 942 - e;
            let m: u64 = rne_u64(0x10_0000_0000_0000u64 + f, sh);
            proof {
                if sh > 46 {
                    lemma_pow2_strictly_increases(46, sh as nat);
                }
                lemma_rne_bound((0x10_0000_0000_0000 + f) as nat, sh as nat, 0x80);
            }
            m as u16
        } else {
            proof {
                if 1 <= e {
                    if 942 - e > 54 {
                        lemma_pow2_strictly_increases(54, (942 - e) as nat);
                    }
                    lemma_rne_zero((0x10_0000_0000_0000 + f) as nat, (942 - e) as nat);
                }
            }
            0
        };
        bf16((s as u16) * 0x8000 + mag)
    }

    /// Creates a value from the integer, as if by an `as` cast: the integer
    /// becomes the nearest 32-bit wide pattern and is then narrowed.
    pub fn from_u8(value: u8) -> (r: bf16)
        ensures
            r.0 as int == bf16_of_f32(f32_of_u128(value as u128) as u32),
    {
        bf16::from_f32_bits(crate::wide::f32_bits_of_u128(value as u128))
    }

    /// Creates a value from the integer, as if by an `as` cast: the integer
    /// becomes the nearest 32-bit wide pattern and is then narrowed.
    pub fn from_u16(value: u16) -> (r: bf16)
        ensures
            r.0 as int == bf16_of_f32(f32_of_u128(value as u128) as u32),
    {
        bf16::from_f32_bits(crate::wide::f32_bits_of_u128(value as u128))
    }

    /// Creates a value from the integer, as if by an `as` cast: the integer
    /// becomes the nearest 32-bit wide pattern and is then narrowed.
    pub fn from_u32(value: u32) -> (r: bf16)
        ensures
            r.0 as int == bf16_of_f32(f32_of_u128(value as u128) as u32),
    {
        bf16::from_f32_bits(crate::wide::f32_bits_of_u128(value as u128))
    }

    /// Creates a value from the integer, as if by an `as` cast: the integer
    /// becomes the nearest 32-bit wide pattern and is then narrowed.
    pub fn from_u64(value: u64) -> (r: bf16)
        ensures
            r.0 as int == bf16_of_f32(f32_of_u128(value as u128) as u32),
    {
        bf16::from_f32_bits(crate::wide::f32_bits_of_u128(value as u128))
    }

    /// Creates a value from the integer, as if by an `as` cast: the integer
    /// becomes the nearest 32-bit wide pattern and is then narrowed.
    pub fn from_u128(value: u128) -> (r: bf16)
        ensures
            r.0 as int == bf16_of_f32(f32_of_u128(value as u128) as u32),
    {
        bf16::from_f32_bits(crate::wide::f32_bits_of_u128(value as u128))
    }

    /// Creates a value from the integer, as if by an `as` cast: the integer
    /// becomes the nearest 32-bit wide pattern and is then narrowed.
    pub fn from_i8(value: i8) -> (r: bf16)
        ensures
            value >= 0 ==> r.0 as int == bf16_of_f32(f32_of_u128(value as u128) as u32),
            value < 0 ==> r.0 as int == bf16_of_f32((0x8000_0000 + f32_of_u128((-(value as int)) as u128)) as u32),
    {
        if value >= 0 {
            bf16::from_f32_bits(crate::wide::f32_bits_of_u128(value as u128))
        } else {
            let mag: u128 = (-(value as i64)) as u128;
            bf16::from_f32_bits(0x8000_0000 + crate::wide::f32_bits_of_u128(mag))
        }
    }

    /// Creates a value from the integer, as if by an `as` cast: the integer
    /// becomes the nearest 32-bit wide pattern and is then narrowed.
    pub fn from_i16(value: i16) -> (r: bf16)
        ensures
            value >= 0 ==> r.0 as int == bf16_of_f32(f32_of_u128(value as u128) as u32),
            value < 0 ==> r.0 as int == bf16_of_f32((0x8000_0000 + f32_of_u128((-(value as int)) as u128)) as u32),
    {
        if value >= 0 {
            bf16::from_f32_bits(crate::wide::f32_bits_of_u128(value as u128))
        } else {
            let mag: u128 = (-(value as i64)) as u128;
            bf16::from_f32_bits(0x8000_0000 + crate::wide::f32_bits_of_u128(mag))
        }
    }

    /// Creates a value from the integer, as if by an `as` cast: the integer
    /// becomes the nearest 32-bit wide pattern and is then narrowed.
    pub fn from_i32(value: i32) -> (r: bf16)
        ensures
            value >= 0 ==> r.0 as int == bf16_of_f32(f32_of_u128(value as u128) as u32),
            value < 0 ==> r.0 as int == bf16_of_f32((0x8000_0000 + f32_of_u128((-(value as int)) as u128)) as u32),
    {
        if value >= 0 {
            bf16::from_f32_bits(crate::wide::f32_bits_of_u128(value as u128))
        } else {
            let mag: u128 = (-(value as i64)) as u128;
            bf16::from_f32_bits(0x8000_0000 + crate::wide::f32_bits_of_u128(mag))
        }
    }

    /// Creates a value from the integer, as if by an `as` cast: the integer
    /// becomes the nearest 32-bit wide pattern and is then narrowed.
    pub fn from_i64(value: i64) -> (r: bf16)
        ensures
            value >= 0 ==> r.0 as int == bf16_of_f32(f32_of_u128(value as u128) as u32),
            value < 0 ==> r.0 as int == bf16_of_f32((0x8000_0000 + f32_of_u128((-(value as int)) as u128)) as u32),
    {
        if value >= 0 {
            bf16::from_f32_bits(crate::wide::f32_bits_of_u128(value as u128))
        } else {
            let mag: u128 = (-(value as i128)) as u128;
            bf16::from_f32_bits(0x8000_0000 + crate::wide::f32_bits_of_u128(mag))
        }
    }

    /// Creates a value from the integer, as if by an `as` cast: the integer
    /// becomes the nearest 32-bit wide pattern and is then narrowed.
    pub fn from_i128(value: i128) -> (r: bf16)
        ensures
            value >= 0 ==> r.0 as int == bf16_of_f32(f32_of_u128(value as u128) as u32),
            value < 0 ==> r.0 as int == bf16_of_f32((0x8000_0000 + f32_of_u128((-(value as int)) as u128)) as u32),
    {
        if value >= 0 {
            bf16::from_f32_bits(crate::wide::f32_bits_of_u128(value as u128))
        } else if value == i128::MIN {
            bf16::from_f32_bits(0x8000_0000 + crate::wide::f32_bits_of_u128(
                0x8000_0000_0000_0000_0000_0000_0000_0000u128,
            ))
        } else {
            let mag: u128 = (-value) as u128;
            bf16::from_f32_bits(0x8000_0000 + crate::wide::f32_bits_of_u128(mag))
        }
    }

    /// Converts a [`bf16`] value into the bit pattern of the `f32` value it
    /// denotes: exactly its bits in the top half of the word. The conversion
    /// is exact.
    pub fn to_f32_bits(self) -> (r: u32)
        ensures
            r as int == f32_of_bf16(self.0),
    {
        (self.0 as u32) * 0x1_0000
    }

    /// Converts a [`bf16`] value into the bit pattern of the `f64` value it
    /// denotes. The conversion is exact.
    pub fn to_f64_bits(self) -> (r: u64)
        ensures
            r as int == f64_of_bf16(self.0),
    {
        let b: u16 = self.0;
        let s: u64 = (b as u64) / 0x8000;
        let e: u64 = ((b as u64) / 0x80) % 0x100;
        let f: u64 = (b as u64) % 0x80;
        let mag: u64 = if e == 0xFF {
            if f == 0 {
                0x7FF0_0000_0000_0000
            } else {
                0x7FF0_0000_0000_0000 + f * 0x2000_0000_0000
            }
        } else if e > 0 {
            (e + 896) * 0x10_0000_0000_0000 + f * 0x2000_0000_0000
        } else if f == 0 {
            0
        } else {
            let (m, c) = crate::rounding::normalize(f as u32, 0x80);
            proof {
                assert(c <= 7) by {
                    if c >= 8 {
                        if c > 8 {
                            lemma_pow2_strictly_increases(8, c as nat);
                        }
                        lemma2_to64();
                    }
                }
            }
            ((897 - c) as u64) * 0x10_0000_0000_0000 + ((m - 0x80) as u64) * 0x2000_0000_0000
        };
        s * 0x8000_0000_0000_0000 + mag
    }

    /// Creates a [`bf16`] from a 32-bit pattern only when nothing is lost:
    /// the wide value is non-finite, or the 16 mantissa bits that truncation
    /// drops are all zero. The exponent ranges coincide, so no range check
    /// is needed. Otherwise `None`.
    pub fn from_f32_bits_lossless(w: u32) -> (r: Option<bf16>)
        ensures
            r == (if exp32(w) == 0xFF || w as int % 0x1_0000 == 0 {
                Some(bf16(bf16_of_f32(w) as u16))
            } else {
                None::<bf16>
            }),
    {
        let e: u32 = (w / 0x80_0000) % 0x100;
        if e == 0xFF || w % 0x1_0000 == 0 {
            Some(Self::from_f32_bits(w))
        } else {
            None
        }
    }

    /// Creates a [`bf16`] from a 64-bit pattern only when nothing is lost:
    /// the wide value is non-finite, or widening the narrowed value
    /// reproduces the input bit for bit. Otherwise `None`.
    pub fn from_f64_bits_lossless(w: u64) -> (r: Option<bf16>)
        ensures
            r == (if exp64(w) == 0x7FF || f64_of_bf16(bf16_of_f64(w) as u16) == w {
                Some(bf16(bf16_of_f64(w) as u16))
            } else {
                None::<bf16>
            }),
    {
        let e: u64 = (w / 0x10_0000_0000_0000) % 0x800;
        let f: u64 = w % 0x10_0000_0000_0000;
        let ok: bool = if e == 0x7FF {
            true
        } else if e == 0 {
            f == 0
        } else if 890 <= e && e <= 896 {
            let sh: u64 = 942 - e;
            proof {
                vstd::bits::lemma_u64_pow2_no_overflow(sh as nat);
                vstd::bits::lemma_u64_shl_is_mul(1u64, sh);
                lemma_pow2_pos(sh as nat);
            }
            f % (1u64 << sh) == 0
        } else if 897 <= e && e <= 1150 {
            f % 0x2000_0000_0000 == 0
        } else {
            false
        };
        proof {
            if e != 0x7FF {
                lemma_bf16_f64_lossless_mask(w);
            }
        }
        if ok {
            Some(Self::from_f64_bits(w))
        } else {
            None
        }
    }

    /// Returns the memory representation of the underlying bit pattern as a
    /// byte array in little-endian byte order.
    pub fn to_le_bytes(self) -> (r: [u8; 2])
        ensures
            r[0] == self.0 as int % 0x100,
            r[1] == self.0 as int / 0x100,
    {
        [(self.0 % 0x100) as u8, (self.0 / 0x100) as u8]
    }

    /// Returns the memory representation of the underlying bit pattern as a
    /// byte array in big-endian (network) byte order.
    pub fn to_be_bytes(self) -> (r: [u8; 2])
        ensures
            r[0] == self.0 as int / 0x100,
            r[1] == self.0 as int % 0x100,
    {
        [(self.0 / 0x100) as u8, (self.0 % 0x100) as u8]
    }

    /// Returns the memory representation of the underlying bit pattern as a
    /// byte array in native byte order; this crate targets little-endian
    /// platforms, where that is the little-endian order.
    pub fn to_ne_bytes(self) -> (r: [u8; 2])
        ensures
            r[0] == self.0 as int % 0x100,
            r[1] == self.0 as int / 0x100,
    {
        self.to_le_bytes()
    }

    /// Creates a floating point value from its representation as a byte
    /// array in little endian.
    pub fn from_le_bytes(bytes: [u8; 2]) -> (r: bf16)
        ensures
            r.0 == bytes[0] + bytes[1] * 0x100,
    {
        bf16(bytes[0] as u16 + bytes[1] as u16 * 0x100)
    }

    /// Creates a floating point value from its representation as a byte
    /// array in big endian.
    pub fn from_be_bytes(bytes: [u8; 2]) -> (r: bf16)
        ensures
            r.0 == bytes[1] + bytes[0] * 0x100,
    {
        bf16(bytes[1] as u16 + bytes[0] as u16 * 0x100)
    }

    /// Creates a floating point value from its representation as a byte
    /// array in native endian; this crate targets little-endian platforms.
    pub fn from_ne_bytes(bytes: [u8; 2]) -> (r: bf16)
        ensures
            r.0 == bytes[0] + bytes[1] * 0x100,
    {
        Self::from_le_bytes(bytes)
    }

    /// Computes the absolute value of `self`: the same magnitude with a
    /// cleared sign bit.
    pub fn abs(self) -> (r: bf16)
        ensures
            r.0 == bmag16(self.0),
    {
        proof {
            lemma_bparts16(self.0);
        }
        bf16(self.0 % 0x8000)
    }

    /// Returns `true` if this value is ±∞ and `false` otherwise.
    pub fn is_infinite(self) -> (r: bool)
        ensures
            r == (bexp16(self.0) == 0xFF && bman16(self.0) == 0),
    {
        proof {
            lemma_bparts16(self.0);
        }
        self.0 % 0x8000 == 0x7F80
    }

    /// Returns `true` if this number is neither infinite nor NaN.
    pub fn is_finite(self) -> (r: bool)
        ensures
            r == (bexp16(self.0) != 0xFF),
    {
        proof {
            lemma_bparts16(self.0);
        }
        self.0 % 0x8000 < 0x7F80
    }

    /// Returns `true` if the number is subnormal: a zero exponent field with
    /// a nonzero mantissa.
    pub fn is_subnormal(self) -> (r: bool)
        ensures
            r == (bexp16(self.0) == 0 && bman16(self.0) != 0),
    {
        proof {
            lemma_bparts16(self.0);
        }
        let mag: u16 = self.0 % 0x8000;
        0 < mag && mag < 0x80
    }

    /// Returns `true` if the number is neither zero, infinite, subnormal
    /// nor NaN.
    pub fn is_normal(self) -> (r: bool)
        ensures
            r == (bexp16(self.0) != 0 && bexp16(self.0) != 0xFF),
    {
        let e: u16 = (self.0 / 0x80) % 0x100;
        e != 0 && e != 0xFF
    }

    /// Returns the floating point category of the number.
    pub fn classify(self) -> (r: FpCategory)
        ensures
            r == bclassify16(self.0),
    {
        let e: u16 = (self.0 / 0x80) % 0x100;
        let m: u16 = self.0 % 0x80;
        if e == 0 && m == 0 {
            FpCategory::Zero
        } else if e == 0 {
            FpCategory::Subnormal
        } else if e == 0xFF && m == 0 {
            FpCategory::Infinite
        } else if e == 0xFF {
            FpCategory::Nan
        } else {
            FpCategory::Normal
        }
    }

    /// Returns the value standing for the sign of `self`: 1 for a positive
    /// number, −1 for a negative one, and `self` for NaN.
    pub fn signum(self) -> (r: bf16)
        ensures
            r.0 == (if is_bnan16(self.0) {
                self.0
            } else if bsign16(self.0) == 1 {
                0xBF80
            } else {
                0x3F80
            }),
    {
        proof {
            lemma_bparts16(self.0);
        }
        if self.is_nan() {
            self
        } else if self.0 >= 0x8000 {
            bf16(0xBF80)
        } else {
            bf16(0x3F80)
        }
    }

    /// Returns `true` if and only if `self` has a positive sign, including
    /// +0, NaN with a cleared sign bit, and +∞.
    pub fn is_sign_positive(self) -> (r: bool)
        ensures
            r == (bsign16(self.0) == 0),
    {
        proof {
            lemma_bparts16(self.0);
        }
        self.0 < 0x8000
    }

    /// Returns `true` if and only if `self` has a negative sign, including
    /// −0, NaN with a set sign bit, and −∞.
    pub fn is_sign_negative(self) -> (r: bool)
        ensures
            r == (bsign16(self.0) == 1),
    {
        proof {
            lemma_bparts16(self.0);
        }
        self.0 >= 0x8000
    }

    /// Returns a number with the magnitude of `self` and the sign of `sign`.
    pub fn copysign(self, sign: bf16) -> (r: bf16)
        ensures
            r.0 == bsign16(sign.0) * 0x8000 + bmag16(self.0),
    {
        proof {
            lemma_bparts16(self.0);
            lemma_bparts16(sign.0);
        }
        bf16((sign.0 / 0x8000) * 0x8000 + self.0 % 0x8000)
    }

    /// Takes the reciprocal (inverse) of a number, `1/x`: the wide quotient
    /// narrowed back, per the promote–compute–demote arithmetic rule.
    pub fn recip(self) -> (r: bf16)
        ensures
            r.0 as int == bf16_div(0x3F80, self.0),
    {
        div_via_f32(bf16(0x3F80), self)
    }

    /// Converts radians to degrees: multiplies by 180 and divides by π, each
    /// step in wide precision and narrowed back, as the operator chain does.
    pub fn to_degrees(self) -> (r: bf16)
        ensures
            r.0 as int == bf16_div(bf16_mul(self.0, 0x4334) as u16, 0x4049),
    {
        let scaled: bf16 = mul_via_f32(self, bf16(0x4334));
        div_via_f32(scaled, bf16(0x4049))
    }

    /// Converts degrees to radians: multiplies by π and divides by 180.
    pub fn to_radians(self) -> (r: bf16)
        ensures
            r.0 as int == bf16_div(bf16_mul(self.0, 0x4049) as u16, 0x4334),
    {
        let scaled: bf16 = mul_via_f32(self, bf16(0x4049));
        div_via_f32(scaled, bf16(0x4334))
    }

    /// Returns the maximum of the two numbers; if one argument is NaN the
    /// other wins.
    pub fn max(self, other: bf16) -> (r: bf16)
        ensures
            r.0 == (if is_bnan16(self.0) || blt16(self.0, other.0) {
                other.0
            } else {
                self.0
            }),
    {
        if self.is_nan() || gt(other, self) {
            other
        } else {
            self
        }
    }

    /// Returns the minimum of the two numbers; if one argument is NaN the
    /// other wins.
    pub fn min(self, other: bf16) -> (r: bf16)
        ensures
            r.0 == (if is_bnan16(self.0) || blt16(other.0, self.0) {
                other.0
            } else {
                self.0
            }),
    {
        if self.is_nan() || lt(other, self) {
            other
        } else {
            self
        }
    }

    /// Restricts a value to an interval unless it is NaN; the bounds must be
    /// ordered and free of NaN, which `ble16` both demands.
    pub fn clamp(self, min: bf16, max: bf16) -> (r: bf16)
        requires
            ble16(min.0, max.0),
        ensures
            r.0 == (if blt16(self.0, min.0) {
                min.0
            } else if blt16(max.0, self.0) {
                max.0
            } else {
                self.0
            }),
    {
        let mut x: bf16 = self;
        if lt(x, min) {
            x = min;
        }
        if gt(x, max) {
            x = max;
        }
        x
    }

    /// Returns the IEEE 754 `totalOrder` ordering between `self` and
    /// `other`: negative NaN below −∞, through the negatives, −0, +0, the
    /// positives, +∞ and positive NaN on top.
    pub fn total_cmp(&self, other: &Self) -> (r: Ordering)
        ensures
            r == (if btotal_key16(self.0) < btotal_key16(other.0) {
                Ordering::Less
            } else if btotal_key16(self.0) == btotal_key16(other.0) {
                Ordering::Equal
            } else {
                Ordering::Greater
            }),
    {
        proof {
            lemma_bparts16(self.0);
            lemma_bparts16(other.0);
        }
        let lk: i32 = if self.0 >= 0x8000 {
            -((self.0 - 0x8000) as i32) - 1
        } else {
            self.0 as i32
        };
        let rk: i32 = if other.0 >= 0x8000 {
            -((other.0 - 0x8000) as i32) - 1
        } else {
            other.0 as i32
        };
        if lk < rk {
            Ordering::Less
        } else if lk == rk {
            Ordering::Equal
        } else {
            Ordering::Greater
        }
    }
}

/// The same pattern with its sign bit flipped: negation.
pub open spec fn flip_bsign16(b: u16) -> u16 {
    if b >= 0x8000 {
        (b - 0x8000) as u16
    } else {
        (b + 0x8000) as u16
    }
}

/// The bfloat16 sum of two values under the promote–compute–demote rule:
/// the exact wide sum of the aligned significands, rounded once by
/// [`crate::wide::f32_of_scaled`] and narrowed again, with the IEEE special
/// cases. An exact cancellation gives +0; a NaN result carries the
/// canonical quiet payload.
pub open spec fn bf16_add(a: u16, b: u16) -> int {
    if is_bnan16(a) || is_bnan16(b) {
        0x7FC0
    } else if bmag16(a) == 0x7F80 && bmag16(b) == 0x7F80 {
        if bsign16(a) == bsign16(b) {
            a as int
        } else {
            0x7FC0
        }
    } else if bmag16(a) == 0x7F80 {
        a as int
    } else if bmag16(b) == 0x7F80 {
        b as int
    } else if bmag16(a) == 0 && bmag16(b) == 0 {
        if bsign16(a) == bsign16(b) {
            a as int
        } else {
            0
        }
    } else if bmag16(a) == 0 {
        b as int
    } else if bmag16(b) == 0 {
        a as int
    } else if bsign16(a) != bsign16(b) && bsig(a) == bsig(b) && bsig_exp(a) == bsig_exp(b) {
        0
    } else {
        let swap = bsig_exp(a) < bsig_exp(b) || (bsig_exp(a) == bsig_exp(b) && bsig(a) < bsig(
            b,
        ));
        let h = if swap {
            b
        } else {
            a
        };
        let l = if swap {
            a
        } else {
            b
        };
        let g = (bsig_exp(h) - bsig_exp(l)) as nat;
        let v = if bsign16(a) == bsign16(b) {
            bsig(h) * pow2(g) + bsig(l)
        } else {
            bsig(h) * pow2(g) - bsig(l)
        };
        bf16_of_f32(crate::wide::f32_of_scaled(bsign16(h), v as nat, bsig_exp(l)) as u32)
    }
}

/// When the exponents lie far enough apart, the smaller operand only sticks
/// the rounding downward or upward: its whole contribution to the wide sum
/// can be replaced by a single unit at a clamped alignment without changing
/// the rounded result.
pub proof fn lemma_bf16_add_sticky(s: int, sh: nat, sl: nat, g: nat, el: int, same: bool)
    requires
        0x80 <= sh < 0x100,
        1 <= sl < 0x100,
        g >= 26,
        -140 <= el,
        el + g <= 120,
    ensures
        same ==> crate::wide::f32_of_scaled(s, (sh * pow2(g) + sl) as nat, el)
            == crate::wide::f32_of_scaled(s, (sh * 0x400_0000 + 1) as nat, el + g - 26),
        !same ==> crate::wide::f32_of_scaled(s, (sh * pow2(g) - sl) as nat, el)
            == crate::wide::f32_of_scaled(s, (sh * 0x400_0000 - 1) as nat, el + g - 26),
{
    lemma2_to64();
    lemma2_to64_rest();
    lemma_pow2_adds(16, (g - 16) as nat);
    lemma_pow2_adds((g - 16) as nat, 1);
    lemma_pow2_adds(7, g);
    lemma_pow2_adds(8, g);
    lemma_pow2_adds(6, g);
    assert(pow2(g) >= 0x400_0000) by {
        if g > 26 {
            lemma_pow2_strictly_increases(26, g);
        }
    }
    assert(pow2((g - 16) as nat) >= 0x400) by {
        if g - 16 > 10 {
            lemma_pow2_strictly_increases(10, (g - 16) as nat);
        }
    }
    assert(sh * pow2(g) == (sh * 0x1_0000) * pow2((g - 16) as nat)) by {
        vstd::arithmetic::mul::lemma_mul_is_associative(
            sh as int,
            0x1_0000,
            pow2((g - 16) as nat) as int,
        );
    }
    assert(sh * pow2(g) >= 0x80 * pow2(g)) by (nonlinear_arith)
        requires
            sh >= 0x80,
            pow2(g) >= 1,
    ;
    assert(sh * pow2(g) < 0x100 * pow2(g)) by (nonlinear_arith)
        requires
            sh < 0x100,
            pow2(g) >= 1,
    ;
    assert(sh * pow2(g) + 0x100 <= 0x100 * pow2(g)) by (nonlinear_arith)
        requires
            sh < 0x100,
            pow2(g) >= 0x100,
    ;
    if same {
        let v = (sh * pow2(g) + sl) as nat;
        let vc = (sh * 0x400_0000 + 1) as nat;
        assert(pow2(23 + (g - 16) as nat) <= v < pow2(24 + (g - 16) as nat));
        crate::wide::lemma_down_shift_unique(v, (g - 16) as nat);
        crate::wide::lemma_down_shift_unique(vc, 10);
        vstd::arithmetic::div_mod::lemma_fundamental_div_mod_converse(
            v as int,
            pow2((g - 16) as nat) as int,
            (sh * 0x1_0000) as int,
            sl as int,
        );
        vstd::arithmetic::div_mod::lemma_fundamental_div_mod_converse(
            vc as int,
            0x400,
            (sh * 0x1_0000) as int,
            1,
        );
        assert(rne(v, (g - 16) as nat) == sh * 0x1_0000);
        assert(rne(vc, 10) == sh * 0x1_0000);
    } else {
        let v = (sh * pow2(g) - sl) as nat;
        let vc = (sh * 0x400_0000 - 1) as nat;
        if sh > 0x80 {
            assert(pow2(23 + (g - 16) as nat) <= v < pow2(24 + (g - 16) as nat)) by {
                assert(sh * pow2(g) >= 0x81 * pow2(g)) by (nonlinear_arith)
                    requires
                        sh >= 0x81,
                        pow2(g) >= 1,
                ;
            }
            crate::wide::lemma_down_shift_unique(v, (g - 16) as nat);
            crate::wide::lemma_down_shift_unique(vc, 10);
            assert((sh * 0x1_0000 - 1) * pow2((g - 16) as nat) == sh * pow2(g) - pow2(
                (g - 16) as nat,
            )) by {
                vstd::arithmetic::mul::lemma_mul_is_distributive_sub_other_way(
                    pow2((g - 16) as nat) as int,
                    (sh * 0x1_0000) as int,
                    1,
                );
            }
            vstd::arithmetic::div_mod::lemma_fundamental_div_mod_converse(
                v as int,
                pow2((g - 16) as nat) as int,
                (sh * 0x1_0000 - 1) as int,
                (pow2((g - 16) as nat) - sl) as int,
            );
            vstd::arithmetic::div_mod::lemma_fundamental_div_mod_converse(
                vc as int,
                0x400,
                (sh * 0x1_0000 - 1) as int,
                0x3FF,
            );
            assert(rne(v, (g - 16) as nat) == sh * 0x1_0000);
            assert(rne(vc, 10) == sh * 0x1_0000);
        } else {
            // the borrow drops below the binade: both sides round back up
            // across it
            lemma_pow2_adds((g - 17) as nat, 1);
            assert(pow2((g - 17) as nat) >= 0x200) by {
                if g - 17 > 9 {
                    lemma_pow2_strictly_increases(9, (g - 17) as nat);
                }
            }
            assert(v == pow2(7 + g) - sl);
            assert(pow2(23 + (g - 17) as nat) <= v < pow2(24 + (g - 17) as nat)) by {
                lemma_pow2_adds(6, g);
                lemma_pow2_strictly_increases(8, (6 + g) as nat);
            }
            crate::wide::lemma_down_shift_unique(v, (g - 17) as nat);
            crate::wide::lemma_down_shift_unique(vc, 9);
            vstd::arithmetic::div_mod::lemma_fundamental_div_mod_converse(
                v as int,
                pow2((g - 17) as nat) as int,
                0xFF_FFFF,
                (pow2((g - 17) as nat) - sl) as int,
            );
            vstd::arithmetic::div_mod::lemma_fundamental_div_mod_converse(
                vc as int,
                0x200,
                0xFF_FFFF,
                0x1FF,
            );
            assert(0xFF_FFFF * pow2((g - 17) as nat) == pow2(24 + (g - 17) as nat) - pow2(
                (g - 17) as nat,
            )) by {
                lemma_pow2_adds(24, (g - 17) as nat);
                vstd::arithmetic::mul::lemma_mul_is_distributive_sub_other_way(
                    pow2((g - 17) as nat) as int,
                    0x100_0000,
                    1,
                );
            }
            assert(rne(v, (g - 17) as nat) == 0x100_0000);
            assert(rne(vc, 9) == 0x100_0000);
        }
    }
}

/// The bfloat16 remainder of two values under the promote–compute–demote
/// rule, with the sign of the dividend, as the wide `%` computes it. The
/// true remainder carries at most as many significand bits as the divisor,
/// so the wide step is exact — possibly an exact wide subnormal — and only
/// the IEEE special cases need naming.
pub open spec fn bf16_rem(a: u16, b: u16) -> int {
    let s = bsign16(a);
    if is_bnan16(a) || is_bnan16(b) || bmag16(b) == 0 || bmag16(a) == 0x7F80 {
        s * 0x8000 + 0x7FC0
    } else if bmag16(a) == 0 {
        s * 0x8000
    } else if bmag16(b) == 0x7F80 {
        a as int
    } else if bsig_exp(a) < bsig_exp(b) || (bsig_exp(a) == bsig_exp(b) && bsig(a) < bsig(b)) {
        a as int
    } else {
        let md = (bsig(a) * pow2((bsig_exp(a) - bsig_exp(b)) as nat)) % bsig(b);
        if md == 0 {
            s * 0x8000
        } else {
            let c = norm_shift(md as nat, 0x80);
            let e32 = bsig_exp(b) - c + 134;
            if e32 >= 1 {
                bf16_of_f32(
                    (s * 0x8000_0000 + e32 * 0x80_0000 + (md * pow2(c) - 0x80)
                        * 0x1_0000) as u32,
                )
            } else {
                bf16_of_f32((s * 0x8000_0000 + md * pow2((bsig_exp(b) + 149) as nat)) as u32)
            }
        }
    }
}

/// Round-trip exactness: widening any non-NaN bfloat16 value to `binary32`
/// and narrowing it again reproduces the bit pattern exactly; a NaN comes
/// back as a NaN with the same sign.
pub proof fn lemma_bf16_f32_round_trip(b: u16)
    ensures
        !is_bnan16(b) ==> bf16_of_f32((b as int * 0x1_0000) as u32) == b,
        is_bnan16(b) ==> is_bnan16(bf16_of_f32((b as int * 0x1_0000) as u32) as u16),
        is_bnan16(b) ==> bsign16(bf16_of_f32((b as int * 0x1_0000) as u32) as u16) == bsign16(b),
{
    lemma_bparts16(b);
    let s = bsign16(b);
    let e = bexp16(b);
    let f = bman16(b);
    let w: u32 = (b as int * 0x1_0000) as u32;
    crate::wide::lemma_split32(w, s, e, f * 0x1_0000);
    if e == 0xFF && f != 0 {
        vstd::arithmetic::div_mod::lemma_fundamental_div_mod_converse(
            f * 0x1_0000,
            0x1_0000,
            f,
            0,
        );
        let r = bf16_of_f32(w);
        assert(r == s * 0x8000 + 0x7F80 + with_high_bit(f, 0x40));
        lemma_bparts16(r as u16);
        vstd::arithmetic::div_mod::lemma_fundamental_div_mod_converse(
            r,
            0x8000,
            s,
            0x7F80 + with_high_bit(f, 0x40),
        );
    } else if e == 0xFF {
        lemma_bparts16(bf16_of_f32(w) as u16);
    } else {
        crate::rounding::lemma_rne_of_multiple(f as nat, 16);
        lemma2_to64();
    }
}

/// Round-trip exactness: widening any non-NaN bfloat16 value to `binary64`
/// and narrowing it again reproduces the bit pattern exactly; a NaN comes
/// back as a NaN with the same sign.
pub proof fn lemma_bf16_f64_round_trip(b: u16)
    ensures
        !is_bnan16(b) ==> bf16_of_f64(f64_of_bf16(b) as u64) == b,
        is_bnan16(b) ==> is_bnan16(bf16_of_f64(f64_of_bf16(b) as u64) as u16),
        is_bnan16(b) ==> bsign16(bf16_of_f64(f64_of_bf16(b) as u64) as u16) == bsign16(b),
{
    lemma_bparts16(b);
    lemma2_to64();
    lemma2_to64_rest();
    let s = bsign16(b);
    let e = bexp16(b);
    let f = bman16(b);
    let w: u64 = f64_of_bf16(b) as u64;
    if e == 0xFF {
        if f == 0 {
            crate::wide::lemma_split64(w, s, 0x7FF, 0);
        } else {
            crate::wide::lemma_split64(w, s, 0x7FF, f * 0x2000_0000_0000);
            vstd::arithmetic::div_mod::lemma_fundamental_div_mod_converse(
                f * 0x2000_0000_0000,
                0x2000_0000_0000,
                f,
                0,
            );
            let r = bf16_of_f64(w);
            assert(r == s * 0x8000 + 0x7F80 + with_high_bit(f, 0x40));
            lemma_bparts16(r as u16);
            vstd::arithmetic::div_mod::lemma_fundamental_div_mod_converse(
                r,
                0x8000,
                s,
                0x7F80 + with_high_bit(f, 0x40),
            );
        }
    } else if e > 0 {
        crate::wide::lemma_split64(w, s, e + 896, f * 0x2000_0000_0000);
        assert(f * 0x2000_0000_0000 == f * pow2(45));
        crate::rounding::lemma_rne_of_multiple(f as nat, 45);
    } else if f == 0 {
        crate::wide::lemma_split64(w, s, 0, 0);
    } else {
        let c = norm_shift(f as nat, 0x80);
        lemma_norm_shift(f as nat, 0x80);
        assert(c <= 7) by {
            if c >= 8 {
                if c > 8 {
                    lemma_pow2_strictly_increases(8, c as nat);
                }
                vstd::arithmetic::mul::lemma_mul_inequality(1, f as int, pow2(c) as int);
            }
        }
        let ff = f * pow2(c) - 0x80;
        crate::wide::lemma_split64(w, s, 897 - c, ff * 0x2000_0000_0000);
        assert(0x10_0000_0000_0000 + ff * 0x2000_0000_0000 == (f * pow2(c)) * pow2(45));
        assert((f * pow2(c)) * pow2(45) == f * pow2(c + 45)) by {
            lemma_pow2_adds(c, 45);
            vstd::arithmetic::mul::lemma_mul_is_associative(
                f as int,
                pow2(c) as int,
                pow2(45) as int,
            );
        }
        crate::rounding::lemma_rne_of_multiple(f as nat, c + 45);
        assert(bf16_of_f64(w) == s * 0x8000 + rne((f * pow2(c + 45)) as nat, (942 - (897 - c)) as nat));
        assert((942 - (897 - c)) as nat == c + 45);
    }
}

/// Lossless-predicate soundness: the condition under which
/// [`bf16::from_f32_bits_lossless`] accepts a `binary32` pattern holds
/// exactly when narrowing and widening again reproduces the pattern bit for
/// bit, NaN aside; when it fails, the round trip changes at least one bit.
pub proof fn lemma_bf16_f32_lossless(w: u32)
    ensures
        exp32(w) == 0xFF && frac32(w) == 0 ==> (bf16_of_f32(w) * 0x1_0000) as u32 == w,
        exp32(w) != 0xFF && w as int % 0x1_0000 == 0 ==> (bf16_of_f32(w) * 0x1_0000) as u32 == w,
        exp32(w) != 0xFF && w as int % 0x1_0000 != 0 ==> (bf16_of_f32(w) * 0x1_0000) as u32 != w,
{
    crate::wide::lemma_fields32(w);
    let s = sign32(w);
    let e = exp32(w);
    let f = frac32(w);
    if e == 0xFF && f == 0 {
        assert(bf16_of_f32(w) == s * 0x8000 + 0x7F80);
    } else if e != 0xFF {
        if w as int % 0x1_0000 == 0 {
            // every field is a multiple of 2^16 except the fraction's low
            // bits, so those low bits are zero and rounding is exact
            assert(f % 0x1_0000 == 0) by {
                vstd::arithmetic::div_mod::lemma_mod_multiples_vanish(
                    s * 0x8000 + e * 0x80,
                    f,
                    0x1_0000,
                );
            }
            let t = f / 0x1_0000;
            vstd::arithmetic::div_mod::lemma_fundamental_div_mod(f, 0x1_0000);
            crate::rounding::lemma_rne_of_multiple(t as nat, 16);
            lemma2_to64();
            assert(bf16_of_f32(w) == s * 0x8000 + e * 0x80 + t);
        } else {
            // the round trip always lands on a multiple of 2^16
            let r = bf16_of_f32(w);
            assert((r * 0x1_0000) as u32 as int % 0x1_0000 == 0) by {
                lemma2_to64();
                crate::rounding::lemma_rne_bound(f as nat, 16, 0x80);
                vstd::arithmetic::div_mod::lemma_mod_multiples_basic(r, 0x1_0000);
            }
        }
    }
}

/// Lossless-predicate soundness towards `binary64`: an infinity accepted by
/// [`bf16::from_f64_bits_lossless`] round-trips bit for bit. Together with
/// that function's contract — a finite pattern is accepted exactly when
/// widening the narrowed value reproduces it — every accepted non-NaN
/// pattern survives the round trip unchanged, and every rejected one does
/// not.
pub proof fn lemma_bf16_f64_lossless_infinite(w: u64)
    requires
        exp64(w) == 0x7FF,
        frac64(w) == 0,
    ensures
        f64_of_bf16(bf16_of_f64(w) as u16) == w,
{
    crate::wide::lemma_fields64(w);
    let s = sign64(w);
    let r = bf16_of_f64(w);
    assert(r == s * 0x8000 + 0x7F80);
    vstd::arithmetic::div_mod::lemma_fundamental_div_mod_converse(r, 0x8000, s, 0x7F80);
    vstd::arithmetic::div_mod::lemma_fundamental_div_mod_converse(r, 0x80, s * 0x100 + 0xFF, 0);
    vstd::arithmetic::div_mod::lemma_div_denominator(r, 0x80, 0x100);
    vstd::arithmetic::div_mod::lemma_fundamental_div_mod_converse(s * 0x100 + 0xFF, 0x100, s, 0xFF);
}

/// The bitmask reading of losslessness towards bfloat16 from `binary64`:
/// the wide exponent sits where a normal or exactly-representable subnormal
/// narrow value can carry it, and every mantissa bit that narrowing would
/// discard is zero.
pub open spec fn bf16_lossless64(w: u64) -> bool {
    let e = exp64(w);
    let f = frac64(w);
    ||| (e == 0 && f == 0)
    ||| (890 <= e <= 896 && f % (pow2((942 - e) as nat) as int) == 0)
    ||| (897 <= e <= 1150 && f % 0x2000_0000_0000 == 0)
}

/// Lossless-predicate soundness, in the bitmask reading: a finite
/// `binary64` pattern survives the narrow round trip bit for bit exactly
/// when [`bf16_lossless64`] holds of it.
pub proof fn lemma_bf16_f64_lossless_mask(w: u64)
    requires
        exp64(w) != 0x7FF,
    ensures
        (f64_of_bf16(bf16_of_f64(w) as u16) == w) <==> bf16_lossless64(w),
{
    crate::wide::lemma_fields64(w);
    lemma2_to64();
    lemma2_to64_rest();
    let s = sign64(w);
    let e = exp64(w);
    let f = frac64(w);
    let n = bf16_of_f64(w);
    if e == 0 || e <= 888 {
        if 1 <= e {
            lemma_bf16_f64_saturation(w);
        }
        assert(n == s * 0x8000);
        lemma_bparts16(n as u16);
        assert(f64_of_bf16(n as u16) == s * 0x8000_0000_0000_0000);
    } else if e == 889 {
        let m = (0x10_0000_0000_0000 + f) as nat;
        if f == 0 {
            assert(rne(m, 53) == 0);
            lemma_bparts16(n as u16);
            assert(f64_of_bf16(n as u16) == s * 0x8000_0000_0000_0000);
        } else {
            assert(rne(m, 53) == 1) by {
                vstd::arithmetic::div_mod::lemma_fundamental_div_mod_converse(
                    m as int,
                    0x20_0000_0000_0000,
                    0,
                    m as int,
                );
            }
            assert(n == s * 0x8000 + 1);
            lemma_bparts16(n as u16);
            lemma_norm_shift_unique(1, 0x80, 7);
            assert(f64_of_bf16(n as u16) == s * 0x8000_0000_0000_0000 + 890 * 0x10_0000_0000_0000);
        }
    } else if e <= 896 {
        let sh = (942 - e) as nat;
        let m = (0x10_0000_0000_0000 + f) as nat;
        let t = rne(m, sh);
        lemma_pow2_adds((52 - sh) as nat, sh);
        lemma_pow2_adds((53 - sh) as nat, sh);
        assert(pow2((53 - sh) as nat) <= 0x80) by {
            if 53 - sh < 7 {
                lemma_pow2_strictly_increases((53 - sh) as nat, 7);
            }
        }
        lemma_rne_low(m, sh, pow2((52 - sh) as nat));
        assert(m < pow2((53 - sh) as nat) * pow2(sh)) by {
            vstd::arithmetic::mul::lemma_mul_is_commutative(
                pow2((53 - sh) as nat) as int,
                pow2(sh) as int,
            );
        }
        lemma_rne_bound(m, sh, pow2((53 - sh) as nat));
        assert(m % pow2(sh) == f % (pow2(sh) as int)) by {
            vstd::arithmetic::div_mod::lemma_mod_multiples_vanish(
                pow2((52 - sh) as nat) as int,
                f,
                pow2(sh) as int,
            );
            vstd::arithmetic::mul::lemma_mul_is_commutative(
                pow2((52 - sh) as nat) as int,
                pow2(sh) as int,
            );
        }
        if t == pow2((53 - sh) as nat) {
            // the mantissa rounded all the way up: the result is the next
            // binade, one exponent above the input
            assert(f % (pow2(sh) as int) != 0) by {
                if m % pow2(sh) == 0 {
                    lemma_rne_exact(m, sh);
                    vstd::arithmetic::mul::lemma_mul_is_commutative(
                        (m / pow2(sh)) as int,
                        pow2(sh) as int,
                    );
                }
            }
            assert(n == s * 0x8000 + t);
            lemma_bparts16(n as u16);
            if sh == 46 {
                assert(t == 0x80);
                assert(bexp16(n as u16) == 1 && bman16(n as u16) == 0);
                assert(f64_of_bf16(n as u16) == s * 0x8000_0000_0000_0000 + 897
                    * 0x10_0000_0000_0000);
            } else {
                assert(t < 0x80) by {
                    lemma_pow2_strictly_increases((53 - sh) as nat, 7);
                }
                assert((t * pow2((sh - 46) as nat)) * pow2(46) == t * pow2(sh)) by {
                    lemma_pow2_adds((sh - 46) as nat, 46);
                    vstd::arithmetic::mul::lemma_mul_is_associative(
                        t as int,
                        pow2((sh - 46) as nat) as int,
                        pow2(46) as int,
                    );
                }
                assert(t * pow2(sh) == 0x20_0000_0000_0000) by {
                    lemma_pow2_adds((53 - sh) as nat, sh);
                }
                assert(t * pow2((sh - 46) as nat) == 0x80);
                lemma_norm_shift_unique(t as nat, 0x80, (sh - 46) as nat);
                assert(f64_of_bf16(n as u16) == s * 0x8000_0000_0000_0000 + (897 - (sh - 46))
                    * 0x10_0000_0000_0000);
                assert(897 - (sh - 46) == e + 1);
            }
        } else {
            // the result is a subnormal in the same binade
            assert(t < pow2((53 - sh) as nat));
            assert(t < 0x80);
            assert(1 <= t) by {
                lemma_pow2_pos((52 - sh) as nat);
            }
            assert(n == s * 0x8000 + t);
            lemma_bparts16(n as u16);
            assert(bexp16(n as u16) == 0 && bman16(n as u16) == t);
            let u = t * pow2((sh - 45) as nat);
            assert(u * 0x2000_0000_0000 == t * pow2(sh)) by {
                lemma_pow2_adds((sh - 45) as nat, 45);
                vstd::arithmetic::mul::lemma_mul_is_associative(
                    t as int,
                    pow2((sh - 45) as nat) as int,
                    pow2(45) as int,
                );
            }
            assert(t * pow2(sh) >= pow2((52 - sh) as nat) * pow2(sh)) by {
                vstd::arithmetic::mul::lemma_mul_inequality(
                    pow2((52 - sh) as nat) as int,
                    t as int,
                    pow2(sh) as int,
                );
                vstd::arithmetic::mul::lemma_mul_is_commutative(t as int, pow2(sh) as int);
                vstd::arithmetic::mul::lemma_mul_is_commutative(
                    pow2((52 - sh) as nat) as int,
                    pow2(sh) as int,
                );
            }
            assert(t * pow2(sh) < pow2((53 - sh) as nat) * pow2(sh)) by {
                vstd::arithmetic::mul::lemma_mul_strict_inequality(
                    t as int,
                    pow2((53 - sh) as nat) as int,
                    pow2(sh) as int,
                );
                vstd::arithmetic::mul::lemma_mul_is_commutative(t as int, pow2(sh) as int);
                vstd::arithmetic::mul::lemma_mul_is_commutative(
                    pow2((53 - sh) as nat) as int,
                    pow2(sh) as int,
                );
            }
            assert(0x80 <= u < 0x100);
            lemma_norm_shift_unique(t as nat, 0x80, (sh - 45) as nat);
            assert(f64_of_bf16(n as u16) == s * 0x8000_0000_0000_0000 + (897 - (sh - 45))
                * 0x10_0000_0000_0000 + (u - 0x80) * 0x2000_0000_0000);
            assert(897 - (sh - 45) == e);
            assert((u - 0x80) * 0x2000_0000_0000 == u * 0x2000_0000_0000 - 0x10_0000_0000_0000);
            if f % (pow2(sh) as int) == 0 {
                lemma_rne_exact(m, sh);
                vstd::arithmetic::mul::lemma_mul_is_commutative(
                    (m / pow2(sh)) as int,
                    pow2(sh) as int,
                );
                assert(t * pow2(sh) == m);
                assert(f64_of_bf16(n as u16) == w);
            } else {
                assert(t * pow2(sh) != m) by {
                    vstd::arithmetic::div_mod::lemma_mod_multiples_basic(t as int, pow2(sh) as int);
                }
                assert(f64_of_bf16(n as u16) != w);
            }
        }
    } else if e <= 1150 {
        let t = rne(f as nat, 45);
        lemma_rne_bound(f as nat, 45, 0x80);
        if f % 0x2000_0000_0000 == 0 {
            lemma_rne_exact(f as nat, 45);
            assert(t == f / 0x2000_0000_0000);
            assert(t < 0x80);
            assert(n == s * 0x8000 + (e - 896) * 0x80 + t);
            lemma_bparts16(n as u16);
            assert(bexp16(n as u16) == e - 896 && bman16(n as u16) == t);
            assert(f64_of_bf16(n as u16) == s * 0x8000_0000_0000_0000 + e * 0x10_0000_0000_0000 + t
                * 0x2000_0000_0000);
            assert(t * 0x2000_0000_0000 == f);
        } else {
            if t < 0x80 {
                assert(n == s * 0x8000 + (e - 896) * 0x80 + t);
                lemma_bparts16(n as u16);
                assert(bexp16(n as u16) == e - 896 && bman16(n as u16) == t);
                assert(f64_of_bf16(n as u16) == s * 0x8000_0000_0000_0000 + e
                    * 0x10_0000_0000_0000 + t * 0x2000_0000_0000);
                assert(t * 0x2000_0000_0000 != f) by {
                    vstd::arithmetic::div_mod::lemma_mod_multiples_basic(t as int, 0x2000_0000_0000);
                    if t * 0x2000_0000_0000 == f {
                        assert(f % 0x2000_0000_0000 == 0);
                    }
                }
            } else {
                // the mantissa rounded all the way up into the next binade
                assert(t == 0x80);
                assert(n == s * 0x8000 + (e - 895) * 0x80);
                lemma_bparts16(n as u16);
                if e == 1150 {
                    assert(bexp16(n as u16) == 0xFF && bman16(n as u16) == 0);
                    assert(f64_of_bf16(n as u16) == s * 0x8000_0000_0000_0000
                        + 0x7FF0_0000_0000_0000);
                } else {
                    assert(bexp16(n as u16) == e - 895 && bman16(n as u16) == 0);
                    assert(f64_of_bf16(n as u16) == s * 0x8000_0000_0000_0000 + (e + 1)
                        * 0x10_0000_0000_0000);
                }
            }
        }
    } else {
        // saturated to infinity
        assert(n == s * 0x8000 + 0x7F80);
        lemma_bparts16(n as u16);
        assert(bexp16(n as u16) == 0xFF && bman16(n as u16) == 0);
        assert(f64_of_bf16(n as u16) == s * 0x8000_0000_0000_0000 + 0x7FF0_0000_0000_0000);
    }
}

/// Overflow and underflow saturation from `binary32`: a finite value whose
/// magnitude reaches the rounding boundary above the largest finite bfloat16
/// narrows to infinity, and a magnitude at or below half the smallest
/// subnormal narrows to zero, the sign surviving in both cases.
pub proof fn lemma_bf16_f32_saturation(w: u32)
    ensures
        exp32(w) == 0xFE && frac32(w) >= 0x7F_8000 ==> bf16_of_f32_mag(w) == 0x7F80,
        exp32(w) == 0 && frac32(w) <= 0x8000 ==> bf16_of_f32_mag(w) == 0,
{
    crate::wide::lemma_fields32(w);
    lemma2_to64();
    let f = frac32(w);
    if exp32(w) == 0xFE && f >= 0x7F_8000 {
        vstd::arithmetic::div_mod::lemma_fundamental_div_mod_converse(
            f,
            0x1_0000,
            0x7F,
            f - 0x7F_0000,
        );
        assert(rne(f as nat, 16) == 0x80);
    }
    if exp32(w) == 0 && f <= 0x8000 {
        vstd::arithmetic::div_mod::lemma_fundamental_div_mod_converse(f, 0x1_0000, 0, f);
        assert(rne(f as nat, 16) == 0);
    }
}

/// Overflow and underflow saturation from `binary64`: past the bfloat16
/// exponent range, or at the rounding boundary just below it, the result is
/// infinity; at or below half the smallest subnormal it is zero.
pub proof fn lemma_bf16_f64_saturation(w: u64)
    ensures
        exp64(w) != 0x7FF && exp64(w) >= 1151 ==> bf16_of_f64_mag(w) == 0x7F80,
        exp64(w) == 1150 && frac64(w) >= 0xF_F000_0000_0000 ==> bf16_of_f64_mag(w) == 0x7F80,
        exp64(w) < 889 ==> bf16_of_f64_mag(w) == 0,
        exp64(w) == 889 && frac64(w) == 0 ==> bf16_of_f64_mag(w) == 0,
{
    crate::wide::lemma_fields64(w);
    lemma2_to64();
    lemma2_to64_rest();
    let e = exp64(w);
    let f = frac64(w);
    if e == 1150 && f >= 0xF_F000_0000_0000 {
        vstd::arithmetic::div_mod::lemma_fundamental_div_mod_converse(
            f,
            0x2000_0000_0000,
            0x7F,
            f - 0x7F * 0x2000_0000_0000,
        );
        assert(rne(f as nat, 45) == 0x80);
    }
    if 1 <= e < 889 {
        assert(rne((0x10_0000_0000_0000 + f) as nat, (942 - e) as nat) == 0) by {
            if 942 - e > 54 {
                lemma_pow2_strictly_increases(54, (942 - e) as nat);
            }
            crate::rounding::lemma_rne_zero((0x10_0000_0000_0000 + f) as nat, (942 - e) as nat);
        }
    }
    if e == 889 && f == 0 {
        assert(rne(0x10_0000_0000_0000 as nat, 53) == 0);
    }
}

/// Signed-zero equality and unordered NaN: +0 and −0 are equal, and no
/// comparison holds of a NaN, which orders with nothing — not even itself.
pub proof fn lemma_bf16_zero_eq_nan_unordered(a: u16, b: u16)
    ensures
        beq16(0x0000, 0x8000),
        is_bnan16(a) || is_bnan16(b) ==> !beq16(a, b) && !blt16(a, b) && !ble16(a, b),
        is_bnan16(a) || is_bnan16(b) ==> bf16(a).partial_cmp_spec(&bf16(b)) is None,
{
}

/// Splits a finite nonzero value into its normalized significand and power
/// of two: the pair (`bsig`, `bsig_exp`).
fn sig_parts(x: bf16) -> (r: (u32, i32))
    requires
        bmag16(x.0) != 0,
        bexp16(x.0) != 0xFF,
    ensures
        r.0 == bsig(x.0),
        r.1 == bsig_exp(x.0),
        0x80 <= r.0 < 0x100,
        -140 <= r.1 <= 120,
{
    proof {
        lemma_bparts16(x.0);
    }
    let e: u16 = (x.0 / 0x80) % 0x100;
    let f: u16 = x.0 % 0x80;
    if e > 0 {
        ((0x80 + f) as u32, (e as i32) - 134)
    } else {
        let (m, c) = crate::rounding::normalize(f as u32, 0x80);
        proof {
            assert(c <= 7) by {
                if c >= 8 {
                    if c > 8 {
                        lemma_pow2_strictly_increases(8, c as nat);
                    }
                    lemma2_to64();
                }
            }
        }
        (m, -133 - (c as i32))
    }
}

/// The promote–compute–demote product: both operands widened to `binary32`,
/// multiplied there — exactly, the significands being 8 bits each — and the
/// result narrowed back.
fn mul_via_f32(x: bf16, y: bf16) -> (r: bf16)
    ensures
        r.0 as int == bf16_mul(x.0, y.0),
{
    proof {
        lemma_bparts16(x.0);
        lemma_bparts16(y.0);
    }
    let s: u16 = if (x.0 >= 0x8000) == (y.0 >= 0x8000) {
        0
    } else {
        1
    };
    let xm: u16 = x.0 % 0x8000;
    let ym: u16 = y.0 % 0x8000;
    if xm > 0x7F80 || ym > 0x7F80 {
        bf16(s * 0x8000 + 0x7FC0)
    } else if xm == 0x7F80 || ym == 0x7F80 {
        if xm == 0 || ym == 0 {
            bf16(s * 0x8000 + 0x7FC0)
        } else {
            bf16(s * 0x8000 + 0x7F80)
        }
    } else if xm == 0 || ym == 0 {
        bf16(s * 0x8000)
    } else {
        let (sa, ea) = sig_parts(x);
        let (sb, eb) = sig_parts(y);
        proof {
            assert(sa * sb < 0x1_0000) by (nonlinear_arith)
                requires
                    sa < 0x100,
                    sb < 0x100,
            ;
            assert(sa * sb >= 0x4000) by (nonlinear_arith)
                requires
                    sa >= 0x80,
                    sb >= 0x80,
            ;
        }
        let p: u32 = sa * sb;
        let sig: u32 = if p >= 0x8000 {
            p * 0x100
        } else {
            p * 0x200
        };
        let e32: i32 = if p >= 0x8000 {
            ea + eb + 142
        } else {
            ea + eb + 141
        };
        let w: u32 = if e32 >= 255 {
            (s as u32) * 0x8000_0000 + 0x7F80_0000
        } else if e32 >= 1 {
            (s as u32) * 0x8000_0000 + (e32 as u32) * 0x80_0000 + (sig - 0x80_0000)
        } else {
            let k: i32 = 1 - e32;
            if k >= 25 {
                proof {
                    if k > 25 {
                        lemma_pow2_strictly_increases(25, k as nat);
                    }
                    lemma2_to64();
                    lemma_rne_zero(sig as nat, k as nat);
                }
                (s as u32) * 0x8000_0000
            } else {
                let fsub: u64 = rne_u64(sig as u64, k as u64);
                proof {
                    if k > 1 {
                        lemma_pow2_strictly_increases(1, k as nat);
                    }
                    lemma2_to64();
                    lemma_rne_bound(sig as nat, k as nat, 0x80_0000);
                }
                (s as u32) * 0x8000_0000 + (fsub as u32)
            }
        };
        bf16::from_f32_bits(w)
    }
}

/// The promote–compute–demote quotient: both operands widened to
/// `binary32`, the exact rational quotient rounded once at the wide
/// precision, and the result narrowed back.
fn div_via_f32(x: bf16, y: bf16) -> (r: bf16)
    ensures
        r.0 as int == bf16_div(x.0, y.0),
{
    proof {
        lemma_bparts16(x.0);
        lemma_bparts16(y.0);
    }
    let s: u16 = if (x.0 >= 0x8000) == (y.0 >= 0x8000) {
        0
    } else {
        1
    };
    let xm: u16 = x.0 % 0x8000;
    let ym: u16 = y.0 % 0x8000;
    if xm > 0x7F80 || ym > 0x7F80 {
        bf16(s * 0x8000 + 0x7FC0)
    } else if ym == 0 {
        if xm == 0 {
            bf16(s * 0x8000 + 0x7FC0)
        } else {
            bf16(s * 0x8000 + 0x7F80)
        }
    } else if ym == 0x7F80 {
        if xm == 0x7F80 {
            bf16(s * 0x8000 + 0x7FC0)
        } else {
            bf16(s * 0x8000)
        }
    } else if xm == 0 {
        bf16(s * 0x8000)
    } else if xm == 0x7F80 {
        bf16(s * 0x8000 + 0x7F80)
    } else {
        let (sa, ea) = sig_parts(x);
        let (sb, eb) = sig_parts(y);
        let q64: u64 = if sa >= sb {
            rne_frac_u64((sa as u64) * 0x80_0000, sb as u64)
        } else {
            rne_frac_u64((sa as u64) * 0x100_0000, sb as u64)
        };
        let e32: i32 = if sa >= sb {
            ea - eb + 127
        } else {
            ea - eb + 126
        };
        proof {
            if sa >= sb {
                lemma_rne_frac_low((sa * 0x80_0000) as nat, sb as nat, 0x80_0000);
                lemma_rne_frac_bound((sa * 0x80_0000) as nat, sb as nat, 0xFF_FFFF);
            } else {
                lemma_rne_frac_low((sa * 0x100_0000) as nat, sb as nat, 0x80_0000);
                lemma_rne_frac_bound((sa * 0x100_0000) as nat, sb as nat, 0x100_0000);
            }
        }
        let w: u32 = if e32 >= 255 {
            (s as u32) * 0x8000_0000 + 0x7F80_0000
        } else if e32 >= 1 {
            (s as u32) * 0x8000_0000 + (e32 as u32) * 0x80_0000 + ((q64 - 0x80_0000) as u32)
        } else {
            let u: i32 = ea - eb + 149;
            let fsub: u64 = if u >= 0 {
                proof {
                    vstd::bits::lemma_u64_pow2_no_overflow(u as nat);
                    vstd::bits::lemma_u64_shl_is_mul(1u64, u as u64);
                    if u > 0 {
                        lemma_pow2_strictly_increases(0, u as nat);
                    }
                    if u < 23 {
                        lemma_pow2_strictly_increases(u as nat, 23);
                    }
                    lemma2_to64();
                    assert(sa * pow2(u as nat) < 0x8000_0000) by (nonlinear_arith)
                        requires
                            sa < 0x100,
                            pow2(u as nat) <= 0x80_0000,
                    ;
                }
                rne_frac_u64((sa as u64) * (1u64 << (u as u64)), sb as u64)
            } else {
                let nu: i32 = -u;
                if nu >= 56 {
                    proof {
                        if nu > 56 {
                            lemma_pow2_strictly_increases(56, nu as nat);
                        }
                        vstd::arithmetic::power2::lemma2_to64_rest();
                        assert(2 * sa < sb * pow2(nu as nat)) by (nonlinear_arith)
                            requires
                                sa < 0x100,
                                sb >= 0x80,
                                pow2(nu as nat) >= 0x0100_0000_0000_0000,
                        ;
                        lemma_rne_frac_zero(sa as nat, (sb * pow2(nu as nat)) as nat);
                    }
                    0
                } else {
                    proof {
                        vstd::bits::lemma_u64_pow2_no_overflow(nu as nat);
                        vstd::bits::lemma_u64_shl_is_mul(1u64, nu as u64);
                        if nu < 55 {
                            lemma_pow2_strictly_increases(nu as nat, 55);
                        }
                        lemma_pow2_pos(nu as nat);
                        vstd::arithmetic::power2::lemma2_to64_rest();
                        assert(0x80 <= sb * pow2(nu as nat) < 0x8000_0000_0000_0000) by (nonlinear_arith)
                            requires
                                0x80 <= sb < 0x100,
                                1 <= pow2(nu as nat) <= 0x0080_0000_0000_0000,
                        ;
                    }
                    rne_frac_u64(sa as u64, (sb as u64) * (1u64 << (nu as u64)))
                }
            };
            proof {
                let uu = ea - eb + 149;
                if uu >= 0 {
                    if sa >= sb {
                        if uu < 22 {
                            lemma_pow2_strictly_increases(uu as nat, 22);
                        }
                        lemma2_to64();
                        assert(sa * pow2(uu as nat) < 0x80_0000 * sb) by (nonlinear_arith)
                            requires
                                sa < 2 * sb,
                                pow2(uu as nat) <= 0x40_0000,
                        ;
                    } else {
                        if uu < 23 {
                            lemma_pow2_strictly_increases(uu as nat, 23);
                        }
                        lemma2_to64();
                        assert(sa * pow2(uu as nat) < 0x80_0000 * sb) by (nonlinear_arith)
                            requires
                                sa < sb,
                                pow2(uu as nat) <= 0x80_0000,
                        ;
                    }
                    lemma_rne_frac_bound((sa * pow2(uu as nat)) as nat, sb as nat, 0x80_0000);
                } else {
                    lemma_pow2_pos((-uu) as nat);
                    assert(sb * pow2((-uu) as nat) >= 0x80) by (nonlinear_arith)
                        requires
                            sb >= 0x80,
                            pow2((-uu) as nat) >= 1,
                    ;
                    assert(sa < 0x80_0000 * (sb * pow2((-uu) as nat))) by (nonlinear_arith)
                        requires
                            sa < 0x100,
                            sb * pow2((-uu) as nat) >= 0x80,
                    ;
                    lemma_rne_frac_bound(sa as nat, (sb * pow2((-uu) as nat)) as nat, 0x80_0000);
                }
            }
            (s as u32) * 0x8000_0000 + (fsub as u32)
        };
        bf16::from_f32_bits(w)
    }
}

/// The promote–compute–demote sum: both operands widened to `binary32`,
/// their aligned significands added or subtracted exactly — a distant small
/// operand clamped to a sticky unit, which [`lemma_bf16_add_sticky`] shows
/// rounds identically — and the result rounded once and narrowed back.
fn add_via_f32(x: bf16, y: bf16) -> (r: bf16)
    ensures
        r.0 as int == bf16_add(x.0, y.0),
{
    proof {
        lemma_bparts16(x.0);
        lemma_bparts16(y.0);
        lemma2_to64();
        lemma2_to64_rest();
    }
    let xm: u16 = x.0 % 0x8000;
    let ym: u16 = y.0 % 0x8000;
    if xm > 0x7F80 || ym > 0x7F80 {
        return bf16(0x7FC0);
    }
    let sx: bool = x.0 >= 0x8000;
    let sy: bool = y.0 >= 0x8000;
    if xm == 0x7F80 && ym == 0x7F80 {
        return if sx == sy {
            x
        } else {
            bf16(0x7FC0)
        };
    }
    if xm == 0x7F80 {
        return x;
    }
    if ym == 0x7F80 {
        return y;
    }
    if xm == 0 && ym == 0 {
        return if sx == sy {
            x
        } else {
            bf16(0)
        };
    }
    if xm == 0 {
        return y;
    }
    if ym == 0 {
        return x;
    }
    let (sa, ea) = sig_parts(x);
    let (sb, eb) = sig_parts(y);
    if sx != sy && sa == sb && ea == eb {
        return bf16(0);
    }
    let swap: bool = ea < eb || (ea == eb && sa < sb);
    let hs: u32 = if swap {
        if sy {
            1
        } else {
            0
        }
    } else {
        if sx {
            1
        } else {
            0
        }
    };
    let (hsig, hexp, lsig, lexp): (u32, i32, u32, i32) = if swap {
        (sb, eb, sa, ea)
    } else {
        (sa, ea, sb, eb)
    };
    let gf: u32 = (hexp - lexp) as u32;
    let (g, l2, e2): (u32, u64, i32) = if gf >= 26 {
        proof {
            lemma_bf16_add_sticky(
                hs as int,
                hsig as nat,
                lsig as nat,
                gf as nat,
                lexp as int,
                sx == sy,
            );
        }
        (26, 1u64, hexp - 26)
    } else {
        (gf, lsig as u64, lexp)
    };
    proof {
        vstd::bits::lemma_u64_pow2_no_overflow(g as nat);
        vstd::bits::lemma_u64_shl_is_mul(1u64, g as u64);
        if g < 26 {
            lemma_pow2_strictly_increases(g as nat, 26);
        }
        assert(hsig * pow2(g as nat) < 0x8_0000_0000) by (nonlinear_arith)
            requires
                hsig < 0x100,
                pow2(g as nat) <= 0x400_0000,
        ;
        if g >= 1 {
            lemma_pow2_strictly_increases(0, g as nat);
            assert(hsig * pow2(g as nat) >= hsig * 2) by (nonlinear_arith)
                requires
                    pow2(g as nat) >= 2,
                    hsig >= 0,
            ;
        }
    }
    let hv: u64 = (hsig as u64) * (1u64 << (g as u64));
    proof {
        if g == 0 {
            assert(1u64 << (g as u64) == 1) by (bit_vector)
                requires
                    g == 0u32,
            ;
            assert((g as nat) == 0);
            assert(pow2(g as nat) == 1);
            assert(hv == hsig) by (nonlinear_arith)
                requires
                    hv == hsig * pow2(g as nat),
                    pow2(g as nat) == 1,
            ;
        }
        assert(hv > l2 || (sx == sy));
    }
    let v: u64 = if sx == sy {
        hv + l2
    } else {
        hv - l2
    };
    let w: u32 = crate::wide::f32_bits_of_scaled(hs, v, e2);
    bf16::from_f32_bits(w)
}

/// The promote–compute–demote remainder: both operands widened to
/// `binary32`, the exact remainder taken there by modular doubling of the
/// dividend's significand, and the result narrowed back.
fn rem_via_f32(x: bf16, y: bf16) -> (r: bf16)
    ensures
        r.0 as int == bf16_rem(x.0, y.0),
{
    proof {
        lemma_bparts16(x.0);
        lemma_bparts16(y.0);
        lemma2_to64();
    }
    let s: u16 = if x.0 >= 0x8000 {
        1
    } else {
        0
    };
    let xm: u16 = x.0 % 0x8000;
    let ym: u16 = y.0 % 0x8000;
    if xm > 0x7F80 || ym > 0x7F80 || ym == 0 || xm == 0x7F80 {
        bf16(s * 0x8000 + 0x7FC0)
    } else if xm == 0 {
        bf16(s * 0x8000)
    } else if ym == 0x7F80 {
        x
    } else {
        let (sa, ea) = sig_parts(x);
        let (sb, eb) = sig_parts(y);
        if ea < eb || (ea == eb && sa < sb) {
            return x;
        }
        let g: u32 = (ea - eb) as u32;
        let mut md: u32 = sa % sb;
        let mut i: u32 = 0;
        while i < g
            invariant
                0x80 <= sa < 0x100,
                0x80 <= sb < 0x100,
                i <= g,
                md == (sa as nat * pow2(i as nat)) % (sb as nat),
                md < sb,
            decreases g - i,
        {
            proof {
                vstd::arithmetic::div_mod::lemma_mul_mod_noop_left(
                    (sa as nat * pow2(i as nat)) as int,
                    2,
                    sb as int,
                );
                lemma_pow2_adds(i as nat, 1);
                lemma2_to64();
                vstd::arithmetic::mul::lemma_mul_is_associative(
                    sa as int,
                    pow2(i as nat) as int,
                    2,
                );
            }
            md = (md * 2) % sb;
            i = i + 1;
        }
        if md == 0 {
            return bf16(s * 0x8000);
        }
        let (mm, c): (u32, u32) = if md >= 0x80 {
            proof {
                assert(norm_shift(md as nat, 0x80) == 0);
            }
            (md, 0)
        } else {
            crate::rounding::normalize(md, 0x80)
        };
        proof {
            assert(c <= 7) by {
                if c >= 8 {
                    if c > 8 {
                        lemma_pow2_strictly_increases(8, c as nat);
                    }
                    lemma2_to64();
                }
            }
        }
        let e32: i32 = eb - (c as i32) + 134;
        if e32 >= 1 {
            proof {
                assert(mm == md * pow2(c as nat));
                assert(md == (bsig(x.0) * pow2((bsig_exp(x.0) - bsig_exp(y.0)) as nat)) % bsig(
                    y.0,
                ));
                assert((s as int) * 0x8000_0000 + (e32 as int) * 0x80_0000 + (mm - 0x80) * 0x1_0000
                    == bsign16(x.0) * 0x8000_0000 + (bsig_exp(y.0) - norm_shift(md as nat, 0x80)
                    + 134) * 0x80_0000 + (md * pow2(norm_shift(md as nat, 0x80)) - 0x80)
                    * 0x1_0000);
            }
            bf16::from_f32_bits(
                (s as u32) * 0x8000_0000 + (e32 as u32) * 0x80_0000 + (mm - 0x80) * 0x1_0000,
            )
        } else {
            let sh: u32 = (eb + 149) as u32;
            proof {
                vstd::bits::lemma_u32_pow2_no_overflow(sh as nat);
                if sh < 22 {
                    lemma_pow2_strictly_increases(sh as nat, 22);
                }
                lemma2_to64();
                assert(md * pow2(sh as nat) < 0x4000_0000) by (nonlinear_arith)
                    requires
                        md < 0x100,
                        pow2(sh as nat) <= 0x40_0000,
                ;
                vstd::bits::lemma_u32_shl_is_mul(md, sh);
            }
            bf16::from_f32_bits((s as u32) * 0x8000_0000 + (md << sh))
        }
    }
}

/// IEEE equality on the bit patterns: false on NaN, +0 equal to −0, bit
/// equality otherwise.
fn eq(lhs: bf16, rhs: bf16) -> (r: bool)
    ensures
        r == beq16(lhs.0, rhs.0),
{
    proof {
        lemma_bparts16(lhs.0);
        lemma_bparts16(rhs.0);
    }
    if lhs.is_nan() || rhs.is_nan() {
        false
    } else {
        (lhs.0 == rhs.0) || (lhs.0 % 0x8000 == 0 && rhs.0 % 0x8000 == 0)
    }
}

/// IEEE `<` on the bit patterns, by case analysis on the two signs.
fn lt(lhs: bf16, rhs: bf16) -> (r: bool)
    ensures
        r == blt16(lhs.0, rhs.0),
{
    proof {
        lemma_bparts16(lhs.0);
        lemma_bparts16(rhs.0);
    }
    if lhs.is_nan() || rhs.is_nan() {
        false
    } else {
        let lneg: bool = lhs.0 >= 0x8000;
        let rneg: bool = rhs.0 >= 0x8000;
        if !lneg && !rneg {
            lhs.0 < rhs.0
        } else if !lneg && rneg {
            false
        } else if lneg && !rneg {
            lhs.0 % 0x8000 != 0 || rhs.0 % 0x8000 != 0
        } else {
            lhs.0 > rhs.0
        }
    }
}

/// IEEE `<=` on the bit patterns, by case analysis on the two signs.
fn le(lhs: bf16, rhs: bf16) -> (r: bool)
    ensures
        r == ble16(lhs.0, rhs.0),
{
    proof {
        lemma_bparts16(lhs.0);
        lemma_bparts16(rhs.0);
    }
    if lhs.is_nan() || rhs.is_nan() {
        false
    } else {
        let lneg: bool = lhs.0 >= 0x8000;
        let rneg: bool = rhs.0 >= 0x8000;
        if !lneg && !rneg {
            lhs.0 <= rhs.0
        } else if !lneg && rneg {
            lhs.0 % 0x8000 == 0 && rhs.0 % 0x8000 == 0
        } else if lneg && !rneg {
            true
        } else {
            lhs.0 >= rhs.0
        }
    }
}

/// IEEE `>` on the bit patterns.
fn gt(lhs: bf16, rhs: bf16) -> (r: bool)
    ensures
        r == blt16(rhs.0, lhs.0),
{
    lt(rhs, lhs)
}

/// IEEE `>=` on the bit patterns.
fn ge(lhs: bf16, rhs: bf16) -> (r: bool)
    ensures
        r == ble16(rhs.0, lhs.0),
{
    le(rhs, lhs)
}

impl PartialEq for bf16 {
    fn eq(&self, other: &bf16) -> (r: bool) {
        eq(*self, *other)
    }
}

impl vstd::std_specs::cmp::PartialEqSpecImpl for bf16 {
    open spec fn obeys_eq_spec() -> bool {
        true
    }

    open spec fn eq_spec(&self, other: &bf16) -> bool {
        beq16(self.0, other.0)
    }
}

impl PartialOrd for bf16 {
    fn partial_cmp(&self, other: &bf16) -> (r: Option<Ordering>) {
        proof {
            lemma_bparts16(self.0);
            lemma_bparts16(other.0);
        }
        if self.is_nan() || other.is_nan() {
            None
        } else {
            let lneg: bool = self.0 >= 0x8000;
            let rneg: bool = other.0 >= 0x8000;
            if !lneg && !rneg {
                if self.0 < other.0 {
                    Some(Ordering::Less)
                } else if self.0 == other.0 {
                    Some(Ordering::Equal)
                } else {
                    Some(Ordering::Greater)
                }
            } else if !lneg && rneg {
                if self.0 % 0x8000 == 0 && other.0 % 0x8000 == 0 {
                    Some(Ordering::Equal)
                } else {
                    Some(Ordering::Greater)
                }
            } else if lneg && !rneg {
                if self.0 % 0x8000 == 0 && other.0 % 0x8000 == 0 {
                    Some(Ordering::Equal)
                } else {
                    Some(Ordering::Less)
                }
            } else {
                if self.0 > other.0 {
                    Some(Ordering::Less)
                } else if self.0 == other.0 {
                    Some(Ordering::Equal)
                } else {
                    Some(Ordering::Greater)
                }
            }
        }
    }

    fn lt(&self, other: &bf16) -> (r: bool) {
        lt(*self, *other)
    }

    fn le(&self, other: &bf16) -> (r: bool) {
        le(*self, *other)
    }

    fn gt(&self, other: &bf16) -> (r: bool) {
        gt(*self, *other)
    }

    fn ge(&self, other: &bf16) -> (r: bool) {
        ge(*self, *other)
    }
}

impl vstd::std_specs::cmp::PartialOrdSpecImpl for bf16 {
    open spec fn obeys_partial_cmp_spec() -> bool {
        true
    }

    open spec fn partial_cmp_spec(&self, other: &bf16) -> Option<Ordering> {
        if is_bnan16(self.0) || is_bnan16(other.0) {
            None
        } else if bcmp_key16(self.0) < bcmp_key16(other.0) {
            Some(Ordering::Less)
        } else if bcmp_key16(self.0) == bcmp_key16(other.0) {
            Some(Ordering::Equal)
        } else {
            Some(Ordering::Greater)
        }
    }
}

impl core::ops::Add for bf16 {
    type Output = bf16;

    fn add(self, rhs: bf16) -> (r: bf16) {
        add_via_f32(self, rhs)
    }
}

impl vstd::std_specs::ops::AddSpecImpl for bf16 {
    open spec fn obeys_add_spec() -> bool {
        true
    }

    open spec fn add_req(self, rhs: bf16) -> bool {
        true
    }

    open spec fn add_spec(self, rhs: bf16) -> bf16 {
        bf16(bf16_add(self.0, rhs.0) as u16)
    }
}

impl core::ops::Sub for bf16 {
    type Output = bf16;

    fn sub(self, rhs: bf16) -> (r: bf16) {
        if rhs.0 >= 0x8000 {
            add_via_f32(self, bf16(rhs.0 - 0x8000))
        } else {
            add_via_f32(self, bf16(rhs.0 + 0x8000))
        }
    }
}

impl vstd::std_specs::ops::SubSpecImpl for bf16 {
    open spec fn obeys_sub_spec() -> bool {
        true
    }

    open spec fn sub_req(self, rhs: bf16) -> bool {
        true
    }

    open spec fn sub_spec(self, rhs: bf16) -> bf16 {
        bf16(bf16_add(self.0, flip_bsign16(rhs.0)) as u16)
    }
}

impl core::ops::Mul for bf16 {
    type Output = bf16;

    fn mul(self, rhs: bf16) -> (r: bf16) {
        mul_via_f32(self, rhs)
    }
}

impl vstd::std_specs::ops::MulSpecImpl for bf16 {
    open spec fn obeys_mul_spec() -> bool {
        true
    }

    open spec fn mul_req(self, rhs: bf16) -> bool {
        true
    }

    open spec fn mul_spec(self, rhs: bf16) -> bf16 {
        bf16(bf16_mul(self.0, rhs.0) as u16)
    }
}

impl core::ops::Div for bf16 {
    type Output = bf16;

    fn div(self, rhs: bf16) -> (r: bf16) {
        div_via_f32(self, rhs)
    }
}

impl vstd::std_specs::ops::DivSpecImpl for bf16 {
    open spec fn obeys_div_spec() -> bool {
        true
    }

    open spec fn div_req(self, rhs: bf16) -> bool {
        true
    }

    open spec fn div_spec(self, rhs: bf16) -> bf16 {
        bf16(bf16_div(self.0, rhs.0) as u16)
    }
}

impl core::ops::Rem for bf16 {
    type Output = bf16;

    fn rem(self, rhs: bf16) -> (r: bf16) {
        rem_via_f32(self, rhs)
    }
}

impl vstd::std_specs::ops::RemSpecImpl for bf16 {
    open spec fn obeys_rem_spec() -> bool {
        true
    }

    open spec fn rem_req(self, rhs: bf16) -> bool {
        true
    }

    open spec fn rem_spec(self, rhs: bf16) -> bf16 {
        bf16(bf16_rem(self.0, rhs.0) as u16)
    }
}

impl core::ops::Neg for bf16 {
    type Output = bf16;

    fn neg(self) -> (r: bf16) {
        if self.0 >= 0x8000 {
            bf16(self.0 - 0x8000)
        } else {
            bf16(self.0 + 0x8000)
        }
    }
}

impl vstd::std_specs::ops::NegSpecImpl for bf16 {
    open spec fn obeys_neg_spec() -> bool {
        true
    }

    open spec fn neg_req(self) -> bool {
        true
    }

    open spec fn neg_spec(self) -> bf16 {
        if self.0 >= 0x8000 {
            bf16((self.0 - 0x8000) as u16)
        } else {
            bf16((self.0 + 0x8000) as u16)
        }
    }
}

} // verus!
