//! The IEEE 754 `binary16` ("half") format: a 16-bit pattern with 1 sign bit,
//! 5 exponent bits and 10 mantissa bits.

use vstd::arithmetic::power2::{
    lemma2_to64, lemma2_to64_rest, lemma_pow2_adds, lemma_pow2_pos, lemma_pow2_strictly_increases,
    pow2,
};
use core::cmp::Ordering;
use vstd::prelude::*;
use vstd::std_specs::cmp::PartialOrdSpec;

use crate::FpCategory;
use crate::rounding::{
    lemma_norm_shift, lemma_norm_shift_unique, lemma_rne_bound, lemma_rne_exact,
    lemma_rne_frac_bound, lemma_rne_frac_low, lemma_rne_frac_zero, lemma_rne_low, lemma_rne_zero,
    norm_shift, rne, rne_frac, rne_frac_u64, rne_u64,
};
use crate::wide::{
    exp32, exp64, f32_of_u128, frac32, frac64, lemma_fields32, lemma_fields64, sign32, sign64,
    with_high_bit,
};

verus! {

/// A 16-bit floating point value in the IEEE 754 `binary16` ("half") format,
/// stored as its raw bit pattern.
#[allow(non_camel_case_types)]
#[derive(Clone, Copy, Debug)]
pub struct F16(pub u16);

/// The sign bit, as 0 or 1.
pub open spec fn sign16(b: u16) -> int {
    b as int / 0x8000
}

/// The 5-bit exponent field.
pub open spec fn exp16(b: u16) -> int {
    (b as int / 0x400) % 0x20
}

/// The 10-bit mantissa field.
pub open spec fn man16(b: u16) -> int {
    b as int % 0x400
}

/// The magnitude bits: everything but the sign.
pub open spec fn mag16(b: u16) -> int {
    b as int % 0x8000
}

/// A pattern is NaN when the exponent field is all ones and the mantissa is
/// not zero, i.e. the magnitude lies strictly above the infinity encoding.
pub open spec fn is_nan16(b: u16) -> bool {
    mag16(b) > 0x7C00
}

/// Every `binary16` pattern is exactly its fields put side by side.
pub proof fn lemma_parts16(b: u16)
    ensures
        0 <= sign16(b) < 2,
        0 <= exp16(b) < 0x20,
        0 <= man16(b) < 0x400,
        0 <= mag16(b) < 0x8000,
        mag16(b) == exp16(b) * 0x400 + man16(b),
        b == sign16(b) * 0x8000 + mag16(b),
{
    vstd::arithmetic::div_mod::lemma_fundamental_div_mod(b as int, 0x8000);
    vstd::arithmetic::div_mod::lemma_fundamental_div_mod(b as int, 0x400);
    vstd::arithmetic::div_mod::lemma_fundamental_div_mod(b as int / 0x400, 0x20);
    vstd::arithmetic::div_mod::lemma_div_denominator(b as int, 0x400, 0x20);
    vstd::arithmetic::div_mod::lemma_fundamental_div_mod_converse(
        b as int,
        0x8000,
        sign16(b),
        exp16(b) * 0x400 + man16(b),
    );
}

/// The signed magnitude a pattern compares as: NaN aside, IEEE ordering is
/// the ordering of this key, and both zeros land on 0.
pub open spec fn cmp_key16(b: u16) -> int {
    if sign16(b) == 1 {
        -mag16(b)
    } else {
        mag16(b)
    }
}

/// The key whose ordering is IEEE 754 `totalOrder`: negatives reversed and
/// pushed just below the positives, so −0 falls under +0 and a negative NaN
/// under everything.
pub open spec fn total_key16(b: u16) -> int {
    if sign16(b) == 1 {
        -mag16(b) - 1
    } else {
        mag16(b)
    }
}

/// IEEE equality: false on NaN, true for +0 and −0, bit equality otherwise.
pub open spec fn eq16(a: u16, b: u16) -> bool {
    !is_nan16(a) && !is_nan16(b) && cmp_key16(a) == cmp_key16(b)
}

/// IEEE `<`: false whenever NaN is involved.
pub open spec fn lt16(a: u16, b: u16) -> bool {
    !is_nan16(a) && !is_nan16(b) && cmp_key16(a) < cmp_key16(b)
}

/// IEEE `<=`: false whenever NaN is involved.
pub open spec fn le16(a: u16, b: u16) -> bool {
    !is_nan16(a) && !is_nan16(b) && cmp_key16(a) <= cmp_key16(b)
}

/// The category of a pattern, read off its exponent and mantissa fields.
pub open spec fn classify16(b: u16) -> FpCategory {
    if exp16(b) == 0 && man16(b) == 0 {
        FpCategory::Zero
    } else if exp16(b) == 0 {
        FpCategory::Subnormal
    } else if exp16(b) == 0x1F && man16(b) == 0 {
        FpCategory::Infinite
    } else if exp16(b) == 0x1F {
        FpCategory::Nan
    } else {
        FpCategory::Normal
    }
}

/// The magnitude bits of the `binary16` value that a `binary32` pattern
/// narrows to under round-to-nearest-even.
///
/// The cases follow the conversion contract: an all-ones wide exponent maps
/// to infinity or a quieted NaN; a rebiased exponent at or above 31 saturates
/// to infinity; a rebiased exponent in 1..=30 keeps its mantissa rounded to
/// 10 bits, a carry out of the mantissa walking into the exponent; a wide
/// subnormal dies to zero; anything else becomes a 16-bit subnormal, the
/// hidden bit restored and the whole mantissa rounded by the exponent
/// deficit.
pub open spec fn f16_of_f32_mag(w: u32) -> int {
    let e = exp32(w);
    let f = frac32(w);
    if e == 0xFF {
        if f == 0 {
            0x7C00
        } else {
            0x7C00 + with_high_bit(f / 0x2000, 0x200)
        }
    } else if e >= 143 {
        0x7C00
    } else if e >= 113 {
        (e - 112) * 0x400 + rne(f as nat, 13)
    } else if e == 0 {
        0
    } else {
        rne((0x80_0000 + f) as nat, (126 - e) as nat) as int
    }
}

/// The full `binary16` pattern that a `binary32` pattern narrows to.
pub open spec fn f16_of_f32(w: u32) -> int {
    sign32(w) * 0x8000 + f16_of_f32_mag(w)
}

/// The magnitude bits of the `binary16` value that a `binary64` pattern
/// narrows to under round-to-nearest-even; the same cases as from
/// `binary32`, with an 11-bit exponent and 42 discarded mantissa bits.
pub open spec fn f16_of_f64_mag(w: u64) -> int {
    let e = exp64(w);
    let f = frac64(w);
    if e == 0x7FF {
        if f == 0 {
            0x7C00
        } else {
            0x7C00 + with_high_bit(f / 0x400_0000_0000, 0x200)
        }
    } else if e >= 1039 {
        0x7C00
    } else if e >= 1009 {
        (e - 1008) * 0x400 + rne(f as nat, 42)
    } else if e == 0 {
        0
    } else {
        rne((0x10_0000_0000_0000 + f) as nat, (1051 - e) as nat) as int
    }
}

/// The full `binary16` pattern that a `binary64` pattern narrows to.
pub open spec fn f16_of_f64(w: u64) -> int {
    sign64(w) * 0x8000 + f16_of_f64_mag(w)
}

/// The magnitude bits of the `binary32` pattern that a `binary16` value
/// widens to, always exactly: infinity and NaN keep an all-ones exponent,
/// the NaN mantissa moves to the top of the wide field with its highest bit
/// forced; a normal rebases its exponent and pads the mantissa; a subnormal
/// is normalized by shifting until the hidden bit appears, the exponent
/// dropping once per shift.
pub open spec fn f32_of_f16_mag(b: u16) -> int {
    let e = exp16(b);
    let f = man16(b);
    if e == 0x1F {
        if f == 0 {
            0x7F80_0000
        } else {
            0x7F80_0000 + with_high_bit(f * 0x2000, 0x40_0000)
        }
    } else if e > 0 {
        (e + 112) * 0x80_0000 + f * 0x2000
    } else if f == 0 {
        0
    } else {
        let c = norm_shift(f as nat, 0x400);
        (113 - c) * 0x80_0000 + (f * pow2(c) - 0x400) * 0x2000
    }
}

/// The full `binary32` pattern that a `binary16` value widens to.
pub open spec fn f32_of_f16(b: u16) -> int {
    sign16(b) * 0x8000_0000 + f32_of_f16_mag(b)
}

/// The magnitude bits of the `binary64` pattern that a `binary16` value
/// widens to, always exactly; the same cases as towards `binary32`.
pub open spec fn f64_of_f16_mag(b: u16) -> int {
    let e = exp16(b);
    let f = man16(b);
    if e == 0x1F {
        if f == 0 {
            0x7FF0_0000_0000_0000
        } else {
            0x7FF0_0000_0000_0000 + with_high_bit(f * 0x400_0000_0000, 0x8_0000_0000_0000)
        }
    } else if e > 0 {
        (e + 1008) * 0x10_0000_0000_0000 + f * 0x400_0000_0000
    } else if f == 0 {
        0
    } else {
        let c = norm_shift(f as nat, 0x400);
        (1009 - c) * 0x10_0000_0000_0000 + (f * pow2(c) - 0x400) * 0x400_0000_0000
    }
}

/// The full `binary64` pattern that a `binary16` value widens to.
pub open spec fn f64_of_f16(b: u16) -> int {
    sign16(b) * 0x8000_0000_0000_0000 + f64_of_f16_mag(b)
}

/// The full significand of a finite nonzero pattern, normalized into
/// `[2^10, 2^11)`: a normal gets its hidden bit back, a subnormal is shifted
/// up until the hidden position fills.
pub open spec fn sig16(b: u16) -> int {
    if exp16(b) > 0 {
        0x400 + man16(b)
    } else {
        man16(b) * pow2(norm_shift(man16(b) as nat, 0x400))
    }
}

/// The power of two scaling [`sig16`]: a finite nonzero value denotes
/// `±sig16 · 2^sig16_exp`.
pub open spec fn sig16_exp(b: u16) -> int {
    if exp16(b) > 0 {
        exp16(b) - 25
    } else {
        -24 - norm_shift(man16(b) as nat, 0x400)
    }
}

/// The `binary32` pattern of the product of two finite nonzero `binary16`
/// values. The 11-bit significands multiply exactly into at most 22 bits,
/// inside the 24-bit wide significand, so the wide product rounds only when
/// it falls below the wide subnormal range.
pub open spec fn f32_mul_f16(a: u16, b: u16) -> int {
    let s: int = if sign16(a) == sign16(b) {
        0
    } else {
        1
    };
    let p = sig16(a) * sig16(b);
    let sig = if p >= 0x20_0000 {
        p * 4
    } else {
        p * 8
    };
    let e32 = if p >= 0x20_0000 {
        sig16_exp(a) + sig16_exp(b) + 148
    } else {
        sig16_exp(a) + sig16_exp(b) + 147
    };
    if e32 >= 255 {
        s * 0x8000_0000 + 0x7F80_0000
    } else if e32 >= 1 {
        s * 0x8000_0000 + e32 * 0x80_0000 + (sig - 0x80_0000)
    } else {
        s * 0x8000_0000 + rne(sig as nat, (1 - e32) as nat)
    }
}

/// The `binary32` pattern of the quotient of two finite nonzero `binary16`
/// values, correctly rounded in one step: the exact rational quotient of the
/// significands is rounded to 24 bits, or straight to the wide subnormal
/// scale where the exponent falls below the normal range.
pub open spec fn f32_div_f16(a: u16, b: u16) -> int {
    let s: int = if sign16(a) == sign16(b) {
        0
    } else {
        1
    };
    let q = if sig16(a) >= sig16(b) {
        rne_frac((sig16(a) * 0x80_0000) as nat, sig16(b) as nat)
    } else {
        rne_frac((sig16(a) * 0x100_0000) as nat, sig16(b) as nat)
    };
    let e32 = if sig16(a) >= sig16(b) {
        sig16_exp(a) - sig16_exp(b) + 127
    } else {
        sig16_exp(a) - sig16_exp(b) + 126
    };
    if e32 >= 255 {
        s * 0x8000_0000 + 0x7F80_0000
    } else if e32 >= 1 {
        s * 0x8000_0000 + e32 * 0x80_0000 + (q - 0x80_0000)
    } else {
        let u = sig16_exp(a) - sig16_exp(b) + 149;
        let fsub = if u >= 0 {
            rne_frac((sig16(a) * pow2(u as nat)) as nat, sig16(b) as nat)
        } else {
            rne_frac(sig16(a) as nat, (sig16(b) * pow2((-u) as nat)) as nat)
        };
        s * 0x8000_0000 + fsub
    }
}

/// The `binary16` product of two values under the promote–compute–demote
/// rule: the wide product of [`f32_mul_f16`] narrowed again, with IEEE
/// special cases. A NaN result carries the canonical quiet payload:
/// payloads are not part of the arithmetic contract.
pub open spec fn f16_mul(a: u16, b: u16) -> int {
    let s: int = if sign16(a) == sign16(b) {
        0
    } else {
        1
    };
    if is_nan16(a) || is_nan16(b) {
        s * 0x8000 + 0x7E00
    } else if mag16(a) == 0x7C00 || mag16(b) == 0x7C00 {
        if mag16(a) == 0 || mag16(b) == 0 {
            s * 0x8000 + 0x7E00
        } else {
            s * 0x8000 + 0x7C00
        }
    } else if mag16(a) == 0 || mag16(b) == 0 {
        s * 0x8000
    } else {
        f16_of_f32(f32_mul_f16(a, b) as u32)
    }
}

/// The `binary16` quotient of two values under the promote–compute–demote
/// rule: the wide quotient of [`f32_div_f16`] narrowed again, with IEEE
/// special cases. A NaN result carries the canonical quiet payload.
pub open spec fn f16_div(a: u16, b: u16) -> int {
    let s: int = if sign16(a) == sign16(b) {
        0
    } else {
        1
    };
    if is_nan16(a) || is_nan16(b) {
        s * 0x8000 + 0x7E00
    } else if mag16(b) == 0 {
        if mag16(a) == 0 {
            s * 0x8000 + 0x7E00
        } else {
            s * 0x8000 + 0x7C00
        }
    } else if mag16(b) == 0x7C00 {
        if mag16(a) == 0x7C00 {
            s * 0x8000 + 0x7E00
        } else {
            s * 0x8000
        }
    } else if mag16(a) == 0 {
        s * 0x8000
    } else if mag16(a) == 0x7C00 {
        s * 0x8000 + 0x7C00
    } else {
        f16_of_f32(f32_div_f16(a, b) as u32)
    }
}

/// The same pattern with its sign bit flipped: negation.
pub open spec fn flip_sign16(b: u16) -> u16 {
    if b >= 0x8000 {
        (b - 0x8000) as u16
    } else {
        (b + 0x8000) as u16
    }
}

/// The `binary16` sum of two values under the promote–compute–demote rule:
/// the exact wide sum of the aligned significands, rounded once by
/// [`crate::wide::f32_of_scaled`] and narrowed again, with the IEEE special
/// cases. An exact cancellation gives +0; a NaN result carries the
/// canonical quiet payload.
pub open spec fn f16_add(a: u16, b: u16) -> int {
    if is_nan16(a) || is_nan16(b) {
        0x7E00
    } else if mag16(a) == 0x7C00 && mag16(b) == 0x7C00 {
        if sign16(a) == sign16(b) {
            a as int
        } else {
            0x7E00
        }
    } else if mag16(a) == 0x7C00 {
        a as int
    } else if mag16(b) == 0x7C00 {
        b as int
    } else if mag16(a) == 0 && mag16(b) == 0 {
        if sign16(a) == sign16(b) {
            a as int
        } else {
            0
        }
    } else if mag16(a) == 0 {
        b as int
    } else if mag16(b) == 0 {
        a as int
    } else if sign16(a) != sign16(b) && sig16(a) == sig16(b) && sig16_exp(a) == sig16_exp(b) {
        0
    } else {
        let swap = sig16_exp(a) < sig16_exp(b) || (sig16_exp(a) == sig16_exp(b) && sig16(a)
            < sig16(b));
        let h = if swap {
            b
        } else {
            a
        };
        let l = if swap {
            a
        } else {
            b
        };
        let g = (sig16_exp(h) - sig16_exp(l)) as nat;
        let v = if sign16(a) == sign16(b) {
            sig16(h) * pow2(g) + sig16(l)
        } else {
            sig16(h) * pow2(g) - sig16(l)
        };
        f16_of_f32(crate::wide::f32_of_scaled(sign16(h), v as nat, sig16_exp(l)) as u32)
    }
}

/// The `binary16` remainder of two values under the promote–compute–demote
/// rule, with the sign of the dividend, as the wide `%` computes it. The
/// true remainder carries at most as many significand bits as the divisor,
/// so the wide step is exact and only the IEEE special cases need naming.
pub open spec fn f16_rem(a: u16, b: u16) -> int {
    let s = sign16(a);
    if is_nan16(a) || is_nan16(b) || mag16(b) == 0 || mag16(a) == 0x7C00 {
        s * 0x8000 + 0x7E00
    } else if mag16(a) == 0 {
        s * 0x8000
    } else if mag16(b) == 0x7C00 {
        a as int
    } else if sig16_exp(a) < sig16_exp(b) || (sig16_exp(a) == sig16_exp(b) && sig16(a) < sig16(
        b,
    )) {
        a as int
    } else {
        let md = (sig16(a) * pow2((sig16_exp(a) - sig16_exp(b)) as nat)) % sig16(b);
        if md == 0 {
            s * 0x8000
        } else {
            let c = norm_shift(md as nat, 0x400);
            f16_of_f32(
                (s * 0x8000_0000 + (sig16_exp(b) - c + 137) * 0x80_0000 + (md * pow2(c) - 0x400)
                    * 0x2000) as u32,
            )
        }
    }
}

/// Round-trip exactness: widening any non-NaN `binary16` value to
/// `binary32` and narrowing it again reproduces the bit pattern exactly; a
/// NaN comes back as a NaN with the same sign.
pub proof fn lemma_f16_f32_round_trip(b: u16)
    ensures
        !is_nan16(b) ==> f16_of_f32(f32_of_f16(b) as u32) == b,
        is_nan16(b) ==> is_nan16(f16_of_f32(f32_of_f16(b) as u32) as u16),
        is_nan16(b) ==> sign16(f16_of_f32(f32_of_f16(b) as u32) as u16) == sign16(b),
{
    lemma_parts16(b);
    lemma2_to64();
    let s = sign16(b);
    let e = exp16(b);
    let f = man16(b);
    let w: u32 = f32_of_f16(b) as u32;
    if e == 0x1F {
        if f == 0 {
            crate::wide::lemma_split32(w, s, 0xFF, 0);
        } else {
            let ff = with_high_bit(f * 0x2000, 0x40_0000);
            crate::wide::lemma_split32(w, s, 0xFF, ff);
            if f >= 0x200 {
                vstd::arithmetic::div_mod::lemma_fundamental_div_mod_converse(
                    ff,
                    0x2000,
                    f,
                    0,
                );
            } else {
                vstd::arithmetic::div_mod::lemma_fundamental_div_mod_converse(
                    ff,
                    0x2000,
                    f + 0x200,
                    0,
                );
            }
            let r = f16_of_f32(w);
            assert(r == s * 0x8000 + 0x7C00 + with_high_bit(ff / 0x2000, 0x200));
            vstd::arithmetic::div_mod::lemma_fundamental_div_mod_converse(
                r,
                0x8000,
                s,
                0x7C00 + with_high_bit(ff / 0x2000, 0x200),
            );
        }
    } else if e > 0 {
        crate::wide::lemma_split32(w, s, e + 112, f * 0x2000);
        assert(f * 0x2000 == f * pow2(13));
        crate::rounding::lemma_rne_of_multiple(f as nat, 13);
    } else if f == 0 {
        crate::wide::lemma_split32(w, s, 0, 0);
    } else {
        let c = norm_shift(f as nat, 0x400);
        lemma_norm_shift(f as nat, 0x400);
        assert(c <= 10) by {
            if c >= 11 {
                if c > 11 {
                    lemma_pow2_strictly_increases(11, c as nat);
                }
                vstd::arithmetic::mul::lemma_mul_inequality(1, f as int, pow2(c) as int);
            }
        }
        let ff = f * pow2(c) - 0x400;
        crate::wide::lemma_split32(w, s, 113 - c, ff * 0x2000);
        assert(0x80_0000 + ff * 0x2000 == (f * pow2(c)) * pow2(13));
        assert((f * pow2(c)) * pow2(13) == f * pow2(c + 13)) by {
            lemma_pow2_adds(c, 13);
            vstd::arithmetic::mul::lemma_mul_is_associative(
                f as int,
                pow2(c) as int,
                pow2(13) as int,
            );
        }
        crate::rounding::lemma_rne_of_multiple(f as nat, c + 13);
        assert(f16_of_f32(w) == s * 0x8000 + rne((f * pow2(c + 13)) as nat, (126 - (113 - c)) as nat));
        assert((126 - (113 - c)) as nat == c + 13);
    }
}

/// Round-trip exactness: widening any non-NaN `binary16` value to
/// `binary64` and narrowing it again reproduces the bit pattern exactly; a
/// NaN comes back as a NaN with the same sign.
pub proof fn lemma_f16_f64_round_trip(b: u16)
    ensures
        !is_nan16(b) ==> f16_of_f64(f64_of_f16(b) as u64) == b,
        is_nan16(b) ==> is_nan16(f16_of_f64(f64_of_f16(b) as u64) as u16),
        is_nan16(b) ==> sign16(f16_of_f64(f64_of_f16(b) as u64) as u16) == sign16(b),
{
    lemma_parts16(b);
    lemma2_to64();
    lemma2_to64_rest();
    let s = sign16(b);
    let e = exp16(b);
    let f = man16(b);
    let w: u64 = f64_of_f16(b) as u64;
    if e == 0x1F {
        if f == 0 {
            crate::wide::lemma_split64(w, s, 0x7FF, 0);
        } else {
            let ff = with_high_bit(f * 0x400_0000_0000, 0x8_0000_0000_0000);
            crate::wide::lemma_split64(w, s, 0x7FF, ff);
            if f >= 0x200 {
                vstd::arithmetic::div_mod::lemma_fundamental_div_mod_converse(
                    ff,
                    0x400_0000_0000,
                    f,
                    0,
                );
            } else {
                vstd::arithmetic::div_mod::lemma_fundamental_div_mod_converse(
                    ff,
                    0x400_0000_0000,
                    f + 0x200,
                    0,
                );
            }
            let r = f16_of_f64(w);
            assert(r == s * 0x8000 + 0x7C00 + with_high_bit(ff / 0x400_0000_0000, 0x200));
            vstd::arithmetic::div_mod::lemma_fundamental_div_mod_converse(
                r,
                0x8000,
                s,
                0x7C00 + with_high_bit(ff / 0x400_0000_0000, 0x200),
            );
        }
    } else if e > 0 {
        crate::wide::lemma_split64(w, s, e + 1008, f * 0x400_0000_0000);
        assert(f * 0x400_0000_0000 == f * pow2(42));
        crate::rounding::lemma_rne_of_multiple(f as nat, 42);
    } else if f == 0 {
        crate::wide::lemma_split64(w, s, 0, 0);
    } else {
        let c = norm_shift(f as nat, 0x400);
        lemma_norm_shift(f as nat, 0x400);
        assert(c <= 10) by {
            if c >= 11 {
                if c > 11 {
                    lemma_pow2_strictly_increases(11, c as nat);
                }
                vstd::arithmetic::mul::lemma_mul_inequality(1, f as int, pow2(c) as int);
            }
        }
        let ff = f * pow2(c) - 0x400;
        crate::wide::lemma_split64(w, s, 1009 - c, ff * 0x400_0000_0000);
        assert(0x10_0000_0000_0000 + ff * 0x400_0000_0000 == (f * pow2(c)) * pow2(42));
        assert((f * pow2(c)) * pow2(42) == f * pow2(c + 42)) by {
            lemma_pow2_adds(c, 42);
            vstd::arithmetic::mul::lemma_mul_is_associative(
                f as int,
                pow2(c) as int,
                pow2(42) as int,
            );
        }
        crate::rounding::lemma_rne_of_multiple(f as nat, c + 42);
        assert(f16_of_f64(w) == s * 0x8000 + rne((f * pow2(c + 42)) as nat, (1051 - (1009 - c)) as nat));
        assert((1051 - (1009 - c)) as nat == c + 42);
    }
}

/// Lossless-predicate soundness towards `binary32`: an infinity accepted by
/// [`F16::from_f32_bits_lossless`] round-trips bit for bit. Together with
/// that function's contract — a finite pattern is accepted exactly when
/// widening the narrowed value reproduces it — every accepted non-NaN
/// pattern survives the round trip unchanged, and every rejected one does
/// not.
pub proof fn lemma_f16_f32_lossless_infinite(w: u32)
    requires
        exp32(w) == 0xFF,
        frac32(w) == 0,
    ensures
        f32_of_f16(f16_of_f32(w) as u16) == w,
{
    crate::wide::lemma_fields32(w);
    let s = sign32(w);
    let r = f16_of_f32(w);
    assert(r == s * 0x8000 + 0x7C00);
    vstd::arithmetic::div_mod::lemma_fundamental_div_mod_converse(r, 0x8000, s, 0x7C00);
    vstd::arithmetic::div_mod::lemma_fundamental_div_mod_converse(r, 0x400, s * 0x20 + 0x1F, 0);
    vstd::arithmetic::div_mod::lemma_div_denominator(r, 0x400, 0x20);
    vstd::arithmetic::div_mod::lemma_fundamental_div_mod_converse(s * 0x20 + 0x1F, 0x20, s, 0x1F);
}

/// The bitmask reading of losslessness towards `binary16`: the wide
/// exponent sits where a normal or exactly-representable subnormal narrow
/// value can carry it, and every mantissa bit that narrowing would discard
/// is zero.
pub open spec fn f16_lossless32(w: u32) -> bool {
    let e = exp32(w);
    let f = frac32(w);
    ||| (e == 0 && f == 0)
    ||| (103 <= e <= 112 && f % (pow2((126 - e) as nat) as int) == 0)
    ||| (113 <= e <= 142 && f % 0x2000 == 0)
}

/// Lossless-predicate soundness, in the bitmask reading: a finite
/// `binary32` pattern survives the narrow round trip bit for bit exactly
/// when [`f16_lossless32`] holds of it.
pub proof fn lemma_f16_f32_lossless_mask(w: u32)
    requires
        exp32(w) != 0xFF,
    ensures
        (f32_of_f16(f16_of_f32(w) as u16) == w) <==> f16_lossless32(w),
{
    lemma_fields32(w);
    lemma2_to64();
    let s = sign32(w);
    let e = exp32(w);
    let f = frac32(w);
    let n = f16_of_f32(w);
    if e == 0 || e <= 101 {
        if 1 <= e {
            lemma_f16_f32_saturation(w);
        }
        assert(n == s * 0x8000);
        lemma_parts16(n as u16);
        assert(f32_of_f16(n as u16) == s * 0x8000_0000);
    } else if e == 102 {
        let m = (0x80_0000 + f) as nat;
        if f == 0 {
            assert(rne(m, 24) == 0);
            lemma_parts16(n as u16);
            assert(f32_of_f16(n as u16) == s * 0x8000_0000);
        } else {
            assert(rne(m, 24) == 1) by {
                vstd::arithmetic::div_mod::lemma_fundamental_div_mod_converse(
                    m as int,
                    0x100_0000,
                    0,
                    m as int,
                );
            }
            assert(n == s * 0x8000 + 1);
            lemma_parts16(n as u16);
            lemma_norm_shift_unique(1, 0x400, 10);
            assert(f32_of_f16(n as u16) == s * 0x8000_0000 + 103 * 0x80_0000);
        }
    } else if e <= 112 {
        let sh = (126 - e) as nat;
        let m = (0x80_0000 + f) as nat;
        let t = rne(m, sh);
        lemma_pow2_adds((23 - sh) as nat, sh);
        lemma_pow2_adds((24 - sh) as nat, sh);
        assert(pow2((24 - sh) as nat) <= 0x400) by {
            if 24 - sh < 10 {
                lemma_pow2_strictly_increases((24 - sh) as nat, 10);
            }
        }
        lemma_rne_low(m, sh, pow2((23 - sh) as nat));
        assert(m < pow2((24 - sh) as nat) * pow2(sh)) by {
            vstd::arithmetic::mul::lemma_mul_is_commutative(
                pow2((24 - sh) as nat) as int,
                pow2(sh) as int,
            );
        }
        lemma_rne_bound(m, sh, pow2((24 - sh) as nat));
        assert(m % pow2(sh) == f % (pow2(sh) as int)) by {
            vstd::arithmetic::div_mod::lemma_mod_multiples_vanish(
                pow2((23 - sh) as nat) as int,
                f,
                pow2(sh) as int,
            );
            vstd::arithmetic::mul::lemma_mul_is_commutative(
                pow2((23 - sh) as nat) as int,
                pow2(sh) as int,
            );
        }
        if t == pow2((24 - sh) as nat) {
            // the mantissa rounded all the way up: the result is the next
            // binade, one exponent above the input
            assert(f % (pow2(sh) as int) != 0) by {
                if m % pow2(sh) == 0 {
                    lemma_rne_exact(m, sh);
                    vstd::arithmetic::mul::lemma_mul_is_commutative(
                        (m / pow2(sh)) as int,
                        pow2(sh) as int,
                    );
                }
            }
            assert(n == s * 0x8000 + t);
            lemma_parts16(n as u16);
            if sh == 14 {
                assert(t == 0x400);
                assert(exp16(n as u16) == 1 && man16(n as u16) == 0);
                assert(f32_of_f16(n as u16) == s * 0x8000_0000 + 113 * 0x80_0000);
            } else {
                assert(t < 0x400) by {
                    lemma_pow2_strictly_increases((24 - sh) as nat, 10);
                }
                assert((t * pow2((sh - 14) as nat)) * pow2(14) == t * pow2(sh)) by {
                    lemma_pow2_adds((sh - 14) as nat, 14);
                    vstd::arithmetic::mul::lemma_mul_is_associative(
                        t as int,
                        pow2((sh - 14) as nat) as int,
                        pow2(14) as int,
                    );
                }
                assert(t * pow2(sh) == 0x100_0000) by {
                    lemma_pow2_adds((24 - sh) as nat, sh);
                }
                assert(t * pow2((sh - 14) as nat) == 0x400);
                lemma_norm_shift_unique(t as nat, 0x400, (sh - 14) as nat);
                assert(f32_of_f16(n as u16) == s * 0x8000_0000 + (113 - (sh - 14)) * 0x80_0000);
                assert(113 - (sh - 14) == e + 1);
            }
        } else {
            // the result is a subnormal in the same binade
            assert(t < pow2((24 - sh) as nat));
            assert(t < 0x400);
            assert(1 <= t) by {
                vstd::arithmetic::power2::lemma_pow2_pos((23 - sh) as nat);
            }
            assert(n == s * 0x8000 + t);
            lemma_parts16(n as u16);
            assert(exp16(n as u16) == 0 && man16(n as u16) == t);
            let u = t * pow2((sh - 13) as nat);
            assert(u * 0x2000 == t * pow2(sh)) by {
                lemma_pow2_adds((sh - 13) as nat, 13);
                vstd::arithmetic::mul::lemma_mul_is_associative(
                    t as int,
                    pow2((sh - 13) as nat) as int,
                    pow2(13) as int,
                );
            }
            assert(t * pow2(sh) >= pow2((23 - sh) as nat) * pow2(sh)) by {
                vstd::arithmetic::mul::lemma_mul_inequality(
                    pow2((23 - sh) as nat) as int,
                    t as int,
                    pow2(sh) as int,
                );
                vstd::arithmetic::mul::lemma_mul_is_commutative(t as int, pow2(sh) as int);
                vstd::arithmetic::mul::lemma_mul_is_commutative(
                    pow2((23 - sh) as nat) as int,
                    pow2(sh) as int,
                );
            }
            assert(t * pow2(sh) < pow2((24 - sh) as nat) * pow2(sh)) by {
                vstd::arithmetic::mul::lemma_mul_strict_inequality(
                    t as int,
                    pow2((24 - sh) as nat) as int,
                    pow2(sh) as int,
                );
                vstd::arithmetic::mul::lemma_mul_is_commutative(t as int, pow2(sh) as int);
                vstd::arithmetic::mul::lemma_mul_is_commutative(
                    pow2((24 - sh) as nat) as int,
                    pow2(sh) as int,
                );
            }
            assert(0x400 <= u < 0x800);
            lemma_norm_shift_unique(t as nat, 0x400, (sh - 13) as nat);
            assert(f32_of_f16(n as u16) == s * 0x8000_0000 + (113 - (sh - 13)) * 0x80_0000 + (u
                - 0x400) * 0x2000);
            assert(113 - (sh - 13) == e);
            assert((u - 0x400) * 0x2000 == u * 0x2000 - 0x80_0000);
            if f % (pow2(sh) as int) == 0 {
                lemma_rne_exact(m, sh);
                vstd::arithmetic::mul::lemma_mul_is_commutative((m / pow2(sh)) as int, pow2(sh) as int);
                assert(t * pow2(sh) == m);
                assert(f32_of_f16(n as u16) == w);
            } else {
                assert(t * pow2(sh) != m) by {
                    vstd::arithmetic::div_mod::lemma_mod_multiples_basic(t as int, pow2(sh) as int);
                }
                assert(f32_of_f16(n as u16) != w);
            }
        }
    } else if e <= 142 {
        let t = rne(f as nat, 13);
        lemma_rne_bound(f as nat, 13, 0x400);
        if f % 0x2000 == 0 {
            lemma_rne_exact(f as nat, 13);
            assert(t == f / 0x2000);
            assert(t < 0x400);
            assert(n == s * 0x8000 + (e - 112) * 0x400 + t);
            lemma_parts16(n as u16);
            assert(exp16(n as u16) == e - 112 && man16(n as u16) == t);
            assert(f32_of_f16(n as u16) == s * 0x8000_0000 + e * 0x80_0000 + t * 0x2000);
            assert(t * 0x2000 == f);
        } else {
            if t < 0x400 {
                assert(n == s * 0x8000 + (e - 112) * 0x400 + t);
                lemma_parts16(n as u16);
                assert(exp16(n as u16) == e - 112 && man16(n as u16) == t);
                assert(f32_of_f16(n as u16) == s * 0x8000_0000 + e * 0x80_0000 + t * 0x2000);
                assert(t * 0x2000 != f) by {
                    vstd::arithmetic::div_mod::lemma_mod_multiples_basic(t as int, 0x2000);
                    if t * 0x2000 == f {
                        assert(f % 0x2000 == 0);
                    }
                }
            } else {
                // the mantissa rounded all the way up into the next binade
                assert(t == 0x400);
                assert(n == s * 0x8000 + (e - 111) * 0x400);
                lemma_parts16(n as u16);
                if e == 142 {
                    assert(exp16(n as u16) == 0x1F && man16(n as u16) == 0);
                    assert(f32_of_f16(n as u16) == s * 0x8000_0000 + 0x7F80_0000);
                } else {
                    assert(exp16(n as u16) == e - 111 && man16(n as u16) == 0);
                    assert(f32_of_f16(n as u16) == s * 0x8000_0000 + (e + 1) * 0x80_0000);
                }
            }
        }
    } else {
        // saturated to infinity
        assert(n == s * 0x8000 + 0x7C00);
        lemma_parts16(n as u16);
        assert(exp16(n as u16) == 0x1F && man16(n as u16) == 0);
        assert(f32_of_f16(n as u16) == s * 0x8000_0000 + 0x7F80_0000);
    }
}

/// The bitmask reading of losslessness towards `binary16` from `binary64`:
/// the wide exponent sits where a normal or exactly-representable subnormal
/// narrow value can carry it, and every mantissa bit that narrowing would
/// discard is zero.
pub open spec fn f16_lossless64(w: u64) -> bool {
    let e = exp64(w);
    let f = frac64(w);
    ||| (e == 0 && f == 0)
    ||| (999 <= e <= 1008 && f % (pow2((1051 - e) as nat) as int) == 0)
    ||| (1009 <= e <= 1038 && f % 0x400_0000_0000 == 0)
}

/// Lossless-predicate soundness, in the bitmask reading: a finite
/// `binary64` pattern survives the narrow round trip bit for bit exactly
/// when [`f16_lossless64`] holds of it.
pub proof fn lemma_f16_f64_lossless_mask(w: u64)
    requires
        exp64(w) != 0x7FF,
    ensures
        (f64_of_f16(f16_of_f64(w) as u16) == w) <==> f16_lossless64(w),
{
    lemma_fields64(w);
    lemma2_to64();
    lemma2_to64_rest();
    let s = sign64(w);
    let e = exp64(w);
    let f = frac64(w);
    let n = f16_of_f64(w);
    if e == 0 || e <= 997 {
        if 1 <= e {
            lemma_f16_f64_saturation(w);
        }
        assert(n == s * 0x8000);
        lemma_parts16(n as u16);
        assert(f64_of_f16(n as u16) == s * 0x8000_0000_0000_0000);
    } else if e == 998 {
        let m = (0x10_0000_0000_0000 + f) as nat;
        if f == 0 {
            assert(rne(m, 53) == 0);
            lemma_parts16(n as u16);
            assert(f64_of_f16(n as u16) == s * 0x8000_0000_0000_0000);
        } else {
            assert(rne(m, 53) == 1) by {
                vstd::arithmetic::div_mod::lemma_fundamental_div_mod_converse(
                    m as int,
                    0x20_0000_0000_0000,
                    0,
                    m as int,
                );
            }
            assert(n == s * 0x8000 + 1);
            lemma_parts16(n as u16);
            lemma_norm_shift_unique(1, 0x400, 10);
            assert(f64_of_f16(n as u16) == s * 0x8000_0000_0000_0000 + 999 * 0x10_0000_0000_0000);
        }
    } else if e <= 1008 {
        let sh = (1051 - e) as nat;
        let m = (0x10_0000_0000_0000 + f) as nat;
        let t = rne(m, sh);
        lemma_pow2_adds((52 - sh) as nat, sh);
        lemma_pow2_adds((53 - sh) as nat, sh);
        assert(pow2((53 - sh) as nat) <= 0x400) by {
            if 53 - sh < 10 {
                lemma_pow2_strictly_increases((53 - sh) as nat, 10);
            }
        }
        lemma_rne_low(m, sh, pow2((52 - sh) as nat));
        assert(m < pow2((53 - sh) as nat) * pow2(sh)) by {
            vstd::arithmetic::mul::lemma_mul_is_commutative(
                pow2((53 - sh) as nat) as int,
                pow2(sh) as int,
            );
        }
        lemma_rne_bound(m, sh, pow2((53 - sh) as nat));
        assert(m % pow2(sh) == f % (pow2(sh) as int)) by {
            vstd::arithmetic::div_mod::lemma_mod_multiples_vanish(
                pow2((52 - sh) as nat) as int,
                f,
                pow2(sh) as int,
            );
            vstd::arithmetic::mul::lemma_mul_is_commutative(
                pow2((52 - sh) as nat) as int,
                pow2(sh) as int,
            );
        }
        if t == pow2((53 - sh) as nat) {
            // the mantissa rounded all the way up: the result is the next
            // binade, one exponent above the input
            assert(f % (pow2(sh) as int) != 0) by {
                if m % pow2(sh) == 0 {
                    lemma_rne_exact(m, sh);
                    vstd::arithmetic::mul::lemma_mul_is_commutative(
                        (m / pow2(sh)) as int,
                        pow2(sh) as int,
                    );
                }
            }
            assert(n == s * 0x8000 + t);
            lemma_parts16(n as u16);
            if sh == 43 {
                assert(t == 0x400);
                assert(exp16(n as u16) == 1 && man16(n as u16) == 0);
                assert(f64_of_f16(n as u16) == s * 0x8000_0000_0000_0000 + 1009
                    * 0x10_0000_0000_0000);
            } else {
                assert(t < 0x400) by {
                    lemma_pow2_strictly_increases((53 - sh) as nat, 10);
                }
                assert((t * pow2((sh - 43) as nat)) * pow2(43) == t * pow2(sh)) by {
                    lemma_pow2_adds((sh - 43) as nat, 43);
                    vstd::arithmetic::mul::lemma_mul_is_associative(
                        t as int,
                        pow2((sh - 43) as nat) as int,
                        pow2(43) as int,
                    );
                }
                assert(t * pow2(sh) == 0x20_0000_0000_0000) by {
                    lemma_pow2_adds((53 - sh) as nat, sh);
                }
                assert(t * pow2((sh - 43) as nat) == 0x400);
                lemma_norm_shift_unique(t as nat, 0x400, (sh - 43) as nat);
                assert(f64_of_f16(n as u16) == s * 0x8000_0000_0000_0000 + (1009 - (sh - 43))
                    * 0x10_0000_0000_0000);
                assert(1009 - (sh - 43) == e + 1);
            }
        } else {
            // the result is a subnormal in the same binade
            assert(t < pow2((53 - sh) as nat));
            assert(t < 0x400);
            assert(1 <= t) by {
                vstd::arithmetic::power2::lemma_pow2_pos((52 - sh) as nat);
            }
            assert(n == s * 0x8000 + t);
            lemma_parts16(n as u16);
            assert(exp16(n as u16) == 0 && man16(n as u16) == t);
            let u = t * pow2((sh - 42) as nat);
            assert(u * 0x400_0000_0000 == t * pow2(sh)) by {
                lemma_pow2_adds((sh - 42) as nat, 42);
                vstd::arithmetic::mul::lemma_mul_is_associative(
                    t as int,
                    pow2((sh - 42) as nat) as int,
                    pow2(42) as int,
                );
            }
            assert(t * pow2(sh) >= pow2((52 - sh) as nat) * pow2(sh)) by {
                vstd::arithmetic::mul::lemma_mul_inequality(
                    pow2((52 - sh) as nat) as int,
                    t as int,
                    pow2(sh) as int,
                );
                vstd::arithmetic::mul::lemma_mul_is_commutative(t as int, pow2(sh) as int);
                vstd::arithmetic::mul::lemma_mul_is_commutative(
                    pow2((52 - sh) as nat) as int,
                    pow2(sh) as int,
                );
            }
            assert(t * pow2(sh) < pow2((53 - sh) as nat) * pow2(sh)) by {
                vstd::arithmetic::mul::lemma_mul_strict_inequality(
                    t as int,
                    pow2((53 - sh) as nat) as int,
                    pow2(sh) as int,
                );
                vstd::arithmetic::mul::lemma_mul_is_commutative(t as int, pow2(sh) as int);
                vstd::arithmetic::mul::lemma_mul_is_commutative(
                    pow2((53 - sh) as nat) as int,
                    pow2(sh) as int,
                );
            }
            assert(0x400 <= u < 0x800);
            lemma_norm_shift_unique(t as nat, 0x400, (sh - 42) as nat);
            assert(f64_of_f16(n as u16) == s * 0x8000_0000_0000_0000 + (1009 - (sh - 42))
                * 0x10_0000_0000_0000 + (u - 0x400) * 0x400_0000_0000);
            assert(1009 - (sh - 42) == e);
            assert((u - 0x400) * 0x400_0000_0000 == u * 0x400_0000_0000 - 0x10_0000_0000_0000);
            if f % (pow2(sh) as int) == 0 {
                lemma_rne_exact(m, sh);
                vstd::arithmetic::mul::lemma_mul_is_commutative(
                    (m / pow2(sh)) as int,
                    pow2(sh) as int,
                );
                assert(t * pow2(sh) == m);
                assert(f64_of_f16(n as u16) == w);
            } else {
                assert(t * pow2(sh) != m) by {
                    vstd::arithmetic::div_mod::lemma_mod_multiples_basic(t as int, pow2(sh) as int);
                }
                assert(f64_of_f16(n as u16) != w);
            }
        }
    } else if e <= 1038 {
        let t = rne(f as nat, 42);
        lemma_rne_bound(f as nat, 42, 0x400);
        if f % 0x400_0000_0000 == 0 {
            lemma_rne_exact(f as nat, 42);
            assert(t == f / 0x400_0000_0000);
            assert(t < 0x400);
            assert(n == s * 0x8000 + (e - 1008) * 0x400 + t);
            lemma_parts16(n as u16);
            assert(exp16(n as u16) == e - 1008 && man16(n as u16) == t);
            assert(f64_of_f16(n as u16) == s * 0x8000_0000_0000_0000 + e * 0x10_0000_0000_0000 + t
                * 0x400_0000_0000);
            assert(t * 0x400_0000_0000 == f);
        } else {
            if t < 0x400 {
                assert(n == s * 0x8000 + (e - 1008) * 0x400 + t);
                lemma_parts16(n as u16);
                assert(exp16(n as u16) == e - 1008 && man16(n as u16) == t);
                assert(f64_of_f16(n as u16) == s * 0x8000_0000_0000_0000 + e * 0x10_0000_0000_0000
                    + t * 0x400_0000_0000);
                assert(t * 0x400_0000_0000 != f) by {
                    vstd::arithmetic::div_mod::lemma_mod_multiples_basic(t as int, 0x400_0000_0000);
                    if t * 0x400_0000_0000 == f {
                        assert(f % 0x400_0000_0000 == 0);
                    }
                }
            } else {
                // the mantissa rounded all the way up into the next binade
                assert(t == 0x400);
                assert(n == s * 0x8000 + (e - 1007) * 0x400);
                lemma_parts16(n as u16);
                if e == 1038 {
                    assert(exp16(n as u16) == 0x1F && man16(n as u16) == 0);
                    assert(f64_of_f16(n as u16) == s * 0x8000_0000_0000_0000
                        + 0x7FF0_0000_0000_0000);
                } else {
                    assert(exp16(n as u16) == e - 1007 && man16(n as u16) == 0);
                    assert(f64_of_f16(n as u16) == s * 0x8000_0000_0000_0000 + (e + 1)
                        * 0x10_0000_0000_0000);
                }
            }
        }
    } else {
        // saturated to infinity
        assert(n == s * 0x8000 + 0x7C00);
        lemma_parts16(n as u16);
        assert(exp16(n as u16) == 0x1F && man16(n as u16) == 0);
        assert(f64_of_f16(n as u16) == s * 0x8000_0000_0000_0000 + 0x7FF0_0000_0000_0000);
    }
}

/// Lossless-predicate soundness towards `binary64`: the infinity case of
/// [`F16::from_f64_bits_lossless`] round-trips bit for bit.
pub proof fn lemma_f16_f64_lossless_infinite(w: u64)
    requires
        exp64(w) == 0x7FF,
        frac64(w) == 0,
    ensures
        f64_of_f16(f16_of_f64(w) as u16) == w,
{
    crate::wide::lemma_fields64(w);
    let s = sign64(w);
    let r = f16_of_f64(w);
    assert(r == s * 0x8000 + 0x7C00);
    vstd::arithmetic::div_mod::lemma_fundamental_div_mod_converse(r, 0x8000, s, 0x7C00);
    vstd::arithmetic::div_mod::lemma_fundamental_div_mod_converse(r, 0x400, s * 0x20 + 0x1F, 0);
    vstd::arithmetic::div_mod::lemma_div_denominator(r, 0x400, 0x20);
    vstd::arithmetic::div_mod::lemma_fundamental_div_mod_converse(s * 0x20 + 0x1F, 0x20, s, 0x1F);
}

/// Overflow and underflow saturation from `binary32`: a finite value whose
/// magnitude reaches the rounding boundary above the largest finite
/// `binary16` value narrows to infinity; one at or below half the smallest
/// subnormal narrows to zero, the sign surviving in both cases.
pub proof fn lemma_f16_f32_saturation(w: u32)
    ensures
        exp32(w) != 0xFF && exp32(w) >= 143 ==> f16_of_f32_mag(w) == 0x7C00,
        exp32(w) == 142 && frac32(w) >= 0x7F_F000 ==> f16_of_f32_mag(w) == 0x7C00,
        exp32(w) < 102 ==> f16_of_f32_mag(w) == 0,
        exp32(w) == 102 && frac32(w) == 0 ==> f16_of_f32_mag(w) == 0,
{
    crate::wide::lemma_fields32(w);
    lemma2_to64();
    let e = exp32(w);
    let f = frac32(w);
    if e == 142 && f >= 0x7F_F000 {
        vstd::arithmetic::div_mod::lemma_fundamental_div_mod_converse(
            f,
            0x2000,
            0x3FF,
            f - 0x7F_E000,
        );
        assert(rne(f as nat, 13) == 0x400);
    }
    if 1 <= e < 102 {
        assert(rne((0x80_0000 + f) as nat, (126 - e) as nat) == 0) by {
            if 126 - e > 25 {
                lemma_pow2_strictly_increases(25, (126 - e) as nat);
            }
            crate::rounding::lemma_rne_zero((0x80_0000 + f) as nat, (126 - e) as nat);
        }
    }
    if e == 102 && f == 0 {
        assert(rne(0x80_0000 as nat, 24) == 0);
    }
}

/// Overflow and underflow saturation from `binary64`: past the `binary16`
/// exponent range, or at the rounding boundary just below it, the result is
/// infinity; at or below half the smallest subnormal it is zero.
pub proof fn lemma_f16_f64_saturation(w: u64)
    ensures
        exp64(w) != 0x7FF && exp64(w) >= 1039 ==> f16_of_f64_mag(w) == 0x7C00,
        exp64(w) == 1038 && frac64(w) >= 0x3FF * 0x400_0000_0000 + 0x200_0000_0000
            ==> f16_of_f64_mag(w) == 0x7C00,
        exp64(w) < 998 ==> f16_of_f64_mag(w) == 0,
        exp64(w) == 998 && frac64(w) == 0 ==> f16_of_f64_mag(w) == 0,
{
    crate::wide::lemma_fields64(w);
    lemma2_to64();
    lemma2_to64_rest();
    let e = exp64(w);
    let f = frac64(w);
    if e == 1038 && f >= 0x3FF * 0x400_0000_0000 + 0x200_0000_0000 {
        vstd::arithmetic::div_mod::lemma_fundamental_div_mod_converse(
            f,
            0x400_0000_0000,
            0x3FF,
            f - 0x3FF * 0x400_0000_0000,
        );
        assert(rne(f as nat, 42) == 0x400);
    }
    if 1 <= e < 998 {
        assert(rne((0x10_0000_0000_0000 + f) as nat, (1051 - e) as nat) == 0) by {
            if 1051 - e > 54 {
                lemma_pow2_strictly_increases(54, (1051 - e) as nat);
            }
            crate::rounding::lemma_rne_zero((0x10_0000_0000_0000 + f) as nat, (1051 - e) as nat);
        }
    }
    if e == 998 && f == 0 {
        assert(rne(0x10_0000_0000_0000 as nat, 53) == 0);
    }
}

/// Signed-zero equality and unordered NaN: +0 and −0 are equal, and no
/// comparison holds of a NaN, which orders with nothing — not even itself.
pub proof fn lemma_f16_zero_eq_nan_unordered(a: u16, b: u16)
    ensures
        eq16(0x0000, 0x8000),
        is_nan16(a) || is_nan16(b) ==> !eq16(a, b) && !lt16(a, b) && !le16(a, b),
        is_nan16(a) || is_nan16(b) ==> F16(a).partial_cmp_spec(&F16(b)) is None,
{
}

impl F16 {
    /// Approximate number of significant digits in base 10.
    pub const DIGITS: u32 = 3;

    /// Number of significant digits in base 2.
    pub const MANTISSA_DIGITS: u32 = 11;

    /// Maximum possible power of 10 exponent.
    pub const MAX_10_EXP: i32 = 4;

    /// Maximum possible power of 2 exponent.
    pub const MAX_EXP: i32 = 16;

    /// Minimum possible normal power of 10 exponent.
    pub const MIN_10_EXP: i32 = -4;

    /// One greater than the minimum possible normal power of 2 exponent.
    pub const MIN_EXP: i32 = -13;

    /// The radix or base of the internal representation.
    pub const RADIX: u32 = 2;

    /// The sign bit.
    pub const SIGN_MASK: u16 = 0x8000;

    /// The exponent field.
    pub const EXP_MASK: u16 = 0x7C00;

    /// The hidden (implicit) mantissa bit of a normal value.
    pub const HIDDEN_BIT_MASK: u16 = 0x0400;

    /// The mantissa field.
    pub const MAN_MASK: u16 = 0x03FF;

    /// The bits of the minimum positive value, the smallest subnormal.
    pub const TINY_BITS: u16 = 0x1;

    /// The bits of the negative value closest to zero.
    pub const NEG_TINY_BITS: u16 = 0x8001;

    /// The machine epsilon: the difference between 1 and the next value up, pre-encoded as its nearest representable bit pattern.
    pub fn epsilon() -> (r: F16)
        ensures
            r.0 == 0x1400,
    {
        F16(0x1400)
    }

    /// Positive infinity (+∞), pre-encoded as its nearest representable bit pattern.
    pub fn infinity() -> (r: F16)
        ensures
            r.0 == 0x7C00,
    {
        F16(0x7C00)
    }

    /// The largest finite value, pre-encoded as its nearest representable bit pattern.
    pub fn max_value() -> (r: F16)
        ensures
            r.0 == 0x7BFF,
    {
        F16(0x7BFF)
    }

    /// The smallest finite value, pre-encoded as its nearest representable bit pattern.
    pub fn min_value() -> (r: F16)
        ensures
            r.0 == 0xFBFF,
    {
        F16(0xFBFF)
    }

    /// The smallest positive normal value, pre-encoded as its nearest representable bit pattern.
    pub fn min_positive() -> (r: F16)
        ensures
            r.0 == 0x0400,
    {
        F16(0x0400)
    }

    /// Not a Number (NaN), pre-encoded as its nearest representable bit pattern.
    pub fn nan() -> (r: F16)
        ensures
            r.0 == 0x7E00,
    {
        F16(0x7E00)
    }

    /// Negative infinity (−∞), pre-encoded as its nearest representable bit pattern.
    pub fn neg_infinity() -> (r: F16)
        ensures
            r.0 == 0xFC00,
    {
        F16(0xFC00)
    }

    /// The minimum positive subnormal value, pre-encoded as its nearest representable bit pattern.
    pub fn min_positive_subnormal() -> (r: F16)
        ensures
            r.0 == 0x0001,
    {
        F16(0x0001)
    }

    /// The maximum subnormal value, pre-encoded as its nearest representable bit pattern.
    pub fn max_subnormal() -> (r: F16)
        ensures
            r.0 == 0x03FF,
    {
        F16(0x03FF)
    }

    /// The value 1, pre-encoded as its nearest representable bit pattern.
    pub fn one() -> (r: F16)
        ensures
            r.0 == 0x3C00,
    {
        F16(0x3C00)
    }

    /// The value 0, pre-encoded as its nearest representable bit pattern.
    pub fn zero() -> (r: F16)
        ensures
            r.0 == 0x0000,
    {
        F16(0x0000)
    }

    /// The value −0, pre-encoded as its nearest representable bit pattern.
    pub fn neg_zero() -> (r: F16)
        ensures
            r.0 == 0x8000,
    {
        F16(0x8000)
    }

    /// The value −1, pre-encoded as its nearest representable bit pattern.
    pub fn neg_one() -> (r: F16)
        ensures
            r.0 == 0xBC00,
    {
        F16(0xBC00)
    }

    /// Euler's number (ℯ), pre-encoded as its nearest representable bit pattern.
    pub fn e() -> (r: F16)
        ensures
            r.0 == 0x4170,
    {
        F16(0x4170)
    }

    /// Archimedes' constant (π), pre-encoded as its nearest representable bit pattern.
    pub fn pi() -> (r: F16)
        ensures
            r.0 == 0x4248,
    {
        F16(0x4248)
    }

    /// 1/π, pre-encoded as its nearest representable bit pattern.
    pub fn frac_1_pi() -> (r: F16)
        ensures
            r.0 == 0x3518,
    {
        F16(0x3518)
    }

    /// 1/√2, pre-encoded as its nearest representable bit pattern.
    pub fn frac_1_sqrt_2() -> (r: F16)
        ensures
            r.0 == 0x39A8,
    {
        F16(0x39A8)
    }

    /// 2/π, pre-encoded as its nearest representable bit pattern.
    pub fn frac_2_pi() -> (r: F16)
        ensures
            r.0 == 0x3918,
    {
        F16(0x3918)
    }

    /// 2/√π, pre-encoded as its nearest representable bit pattern.
    pub fn frac_2_sqrt_pi() -> (r: F16)
        ensures
            r.0 == 0x3C83,
    {
        F16(0x3C83)
    }

    /// π/2, pre-encoded as its nearest representable bit pattern.
    pub fn frac_pi_2() -> (r: F16)
        ensures
            r.0 == 0x3E48,
    {
        F16(0x3E48)
    }

    /// π/3, pre-encoded as its nearest representable bit pattern.
    pub fn frac_pi_3() -> (r: F16)
        ensures
            r.0 == 0x3C30,
    {
        F16(0x3C30)
    }

    /// π/4, pre-encoded as its nearest representable bit pattern.
    pub fn frac_pi_4() -> (r: F16)
        ensures
            r.0 == 0x3A48,
    {
        F16(0x3A48)
    }

    /// π/6, pre-encoded as its nearest representable bit pattern.
    pub fn frac_pi_6() -> (r: F16)
        ensures
            r.0 == 0x3830,
    {
        F16(0x3830)
    }

    /// π/8, pre-encoded as its nearest representable bit pattern.
    pub fn frac_pi_8() -> (r: F16)
        ensures
            r.0 == 0x3648,
    {
        F16(0x3648)
    }

    /// ln 10, pre-encoded as its nearest representable bit pattern.
    pub fn ln_10() -> (r: F16)
        ensures
            r.0 == 0x409B,
    {
        F16(0x409B)
    }

    /// ln 2, pre-encoded as its nearest representable bit pattern.
    pub fn ln_2() -> (r: F16)
        ensures
            r.0 == 0x398C,
    {
        F16(0x398C)
    }

    /// log₁₀ ℯ, pre-encoded as its nearest representable bit pattern.
    pub fn log10_e() -> (r: F16)
        ensures
            r.0 == 0x36F3,
    {
        F16(0x36F3)
    }

    /// log₁₀ 2, pre-encoded as its nearest representable bit pattern.
    pub fn log10_2() -> (r: F16)
        ensures
            r.0 == 0x34D1,
    {
        F16(0x34D1)
    }

    /// log₂ ℯ, pre-encoded as its nearest representable bit pattern.
    pub fn log2_e() -> (r: F16)
        ensures
            r.0 == 0x3DC5,
    {
        F16(0x3DC5)
    }

    /// log₂ 10, pre-encoded as its nearest representable bit pattern.
    pub fn log2_10() -> (r: F16)
        ensures
            r.0 == 0x42A5,
    {
        F16(0x42A5)
    }

    /// √2, pre-encoded as its nearest representable bit pattern.
    pub fn sqrt_2() -> (r: F16)
        ensures
            r.0 == 0x3DA8,
    {
        F16(0x3DA8)
    }
    /// Constructs a 16-bit floating point value from the raw bits.
    pub fn from_bits(bits: u16) -> (r: F16)
        ensures
            r.0 == bits,
    {
        F16(bits)
    }

    /// Converts a [`F16`] into the underlying bit representation.
    pub fn to_bits(self) -> (r: u16)
        ensures
            r == self.0,
    {
        self.0
    }

    /// Returns `true` if this value is NaN and `false` otherwise.
    pub fn is_nan(self) -> (r: bool)
        ensures
            r == is_nan16(self.0),
    {
        self.0 % 0x8000 > 0x7C00
    }

    /// Constructs a 16-bit floating point value from the bit pattern of a
    /// 32-bit floating point value.
    ///
    /// This operation is lossy. A value too large to fit in 16 bits becomes
    /// ±∞; NaN stays NaN; a 32-bit subnormal is too tiny and becomes ±0; an
    /// exponent that underflows the 16-bit range gives a subnormal or ±0.
    /// Everything else is rounded to the nearest representable 16-bit value,
    /// an exact tie going to the even mantissa.
    pub fn from_f32_bits(w: u32) -> (r: F16)
        ensures
            r.0 as int == f16_of_f32(w),
    {
        proof {
            lemma2_to64();
        }
        let s: u32 = w / 0x8000_0000;
        let e: u32 = (w / 0x80_0000) % 0x100;
        let f: u32 = w % 0x80_0000;
        let mag: u16 = if e == 0xFF {
            if f == 0 {
                0x7C00
            } else {
                let t: u16 = (f / 0x2000) as u16;
                if t < 0x200 {
                    0x7C00 + 0x200 + t
                } else {
                    0x7C00 + t
                }
            }
        } else if e >= 143 {
            0x7C00
        } else if e >= 113 {
            let m: u64 = rne_u64(f as u64, 13);
            proof {
                lemma_rne_bound(f as nat, 13, 0x400);
            }
            ((e - 112) as u16) * 0x400 + (m as u16)
        } else if e >= 102 {
            let sh: u32 = 126 - e;
            let m: u64 = rne_u64(0x80_0000u64 + f as u64, sh as u64);
            proof {
                if sh > 14 {
                    lemma_pow2_strictly_increases(14, sh as nat);
                }
                lemma_rne_bound((0x80_0000 + f) as nat, sh as nat, 0x400);
            }
            m as u16
        } else {
            proof {
                if 1 <= e {
                    if 126 - e > 25 {
                        lemma_pow2_strictly_increases(25, (126 - e) as nat);
                    }
                    lemma_rne_zero((0x80_0000 + f) as nat, (126 - e) as nat);
                }
            }
            0
        };
        F16((s as u16) * 0x8000 + mag)
    }

    /// Constructs a 16-bit floating point value from the bit pattern of a
    /// 64-bit floating point value, rounding once, directly from 64 bits.
    ///
    /// This operation is lossy, with the same saturation, underflow and NaN
    /// behaviour as [`F16::from_f32_bits`].
    pub fn from_f64_bits(w: u64) -> (r: F16)
        ensures
            r.0 as int == f16_of_f64(w),
    {
        proof {
            lemma2_to64();
            lemma2_to64_rest();
        }
        let s: u64 = w / 0x8000_0000_0000_0000;
        let e: u64 = (w / 0x10_0000_0000_0000) % 0x800;
        let f: u64 = w % 0x10_0000_0000_0000;
        let mag: u16 = if e == 0x7FF {
            if f == 0 {
                0x7C00
            } else {
                let t: u16 = (f / 0x400_0000_0000) as u16;
                if t < 0x200 {
                    0x7C00 + 0x200 + t
                } else {
                    0x7C00 + t
                }
            }
        } else if e >= 1039 {
            0x7C00
        } else if e >= 1009 {
            let m: u64 = rne_u64(f, 42);
            proof {
                lemma_rne_bound(f as nat, 42, 0x400);
            }
            ((e - 1008) as u16) * 0x400 + (m as u16)
        } else if e >= 998 {
            let sh: u64 = 1051 - e;
            let m: u64 = rne_u64(0x10_0000_0000_0000u64 + f, sh);
            proof {
                if sh > 43 {
                    lemma_pow2_strictly_increases(43, sh as nat);
                }
                lemma_rne_bound((0x10_0000_0000_0000 + f) as nat, sh as nat, 0x400);
            }
            m as u16
        } else {
            proof {
                if 1 <= e {
                    if 1051 - e > 54 {
                        lemma_pow2_strictly_increases(54, (1051 - e) as nat);
                    }
                    lemma_rne_zero((0x10_0000_0000_0000 + f) as nat, (1051 - e) as nat);
                }
            }
            0
        };
        F16((s as u16) * 0x8000 + mag)
    }

    /// Creates a value from the integer, as if by an `as` cast: the integer
    /// becomes the nearest 32-bit wide pattern and is then narrowed.
    pub fn from_u8(value: u8) -> (r: F16)
        ensures
            r.0 as int == f16_of_f32(f32_of_u128(value as u128) as u32),
    {
        F16::from_f32_bits(crate::wide::f32_bits_of_u128(value as u128))
    }

    /// Creates a value from the integer, as if by an `as` cast: the integer
    /// becomes the nearest 32-bit wide pattern and is then narrowed.
    pub fn from_u16(value: u16) -> (r: F16)
        ensures
            r.0 as int == f16_of_f32(f32_of_u128(value as u128) as u32),
    {
        F16::from_f32_bits(crate::wide::f32_bits_of_u128(value as u128))
    }

    /// Creates a value from the integer, as if by an `as` cast: the integer
    /// becomes the nearest 32-bit wide pattern and is then narrowed.
    pub fn from_u32(value: u32) -> (r: F16)
        ensures
            r.0 as int == f16_of_f32(f32_of_u128(value as u128) as u32),
    {
        F16::from_f32_bits(crate::wide::f32_bits_of_u128(value as u128))
    }

    /// Creates a value from the integer, as if by an `as` cast: the integer
    /// becomes the nearest 32-bit wide pattern and is then narrowed.
    pub fn from_u64(value: u64) -> (r: F16)
        ensures
            r.0 as int == f16_of_f32(f32_of_u128(value as u128) as u32),
    {
        F16::from_f32_bits(crate::wide::f32_bits_of_u128(value as u128))
    }

    /// Creates a value from the integer, as if by an `as` cast: the integer
    /// becomes the nearest 32-bit wide pattern and is then narrowed.
    pub fn from_u128(value: u128) -> (r: F16)
        ensures
            r.0 as int == f16_of_f32(f32_of_u128(value as u128) as u32),
    {
        F16::from_f32_bits(crate::wide::f32_bits_of_u128(value as u128))
    }

    /// Creates a value from the integer, as if by an `as` cast: the integer
    /// becomes the nearest 32-bit wide pattern and is then narrowed.
    pub fn from_i8(value: i8) -> (r: F16)
        ensures
            value >= 0 ==> r.0 as int == f16_of_f32(f32_of_u128(value as u128) as u32),
            value < 0 ==> r.0 as int == f16_of_f32((0x8000_0000 + f32_of_u128((-(value as int)) as u128)) as u32),
    {
        if value >= 0 {
            F16::from_f32_bits(crate::wide::f32_bits_of_u128(value as u128))
        } else {
            let mag: u128 = (-(value as i64)) as u128;
            F16::from_f32_bits(0x8000_0000 + crate::wide::f32_bits_of_u128(mag))
        }
    }

    /// Creates a value from the integer, as if by an `as` cast: the integer
    /// becomes the nearest 32-bit wide pattern and is then narrowed.
    pub fn from_i16(value: i16) -> (r: F16)
        ensures
            value >= 0 ==> r.0 as int == f16_of_f32(f32_of_u128(value as u128) as u32),
            value < 0 ==> r.0 as int == f16_of_f32((0x8000_0000 + f32_of_u128((-(value as int)) as u128)) as u32),
    {
        if value >= 0 {
            F16::from_f32_bits(crate::wide::f32_bits_of_u128(value as u128))
        } else {
            let mag: u128 = (-(value as i64)) as u128;
            F16::from_f32_bits(0x8000_0000 + crate::wide::f32_bits_of_u128(mag))
        }
    }

    /// Creates a value from the integer, as if by an `as` cast: the integer
    /// becomes the nearest 32-bit wide pattern and is then narrowed.
    pub fn from_i32(value: i32) -> (r: F16)
        ensures
            value >= 0 ==> r.0 as int == f16_of_f32(f32_of_u128(value as u128) as u32),
            value < 0 ==> r.0 as int == f16_of_f32((0x8000_0000 + f32_of_u128((-(value as int)) as u128)) as u32),
    {
        if value >= 0 {
            F16::from_f32_bits(crate::wide::f32_bits_of_u128(value as u128))
        } else {
            let mag: u128 = (-(value as i64)) as u128;
            F16::from_f32_bits(0x8000_0000 + crate::wide::f32_bits_of_u128(mag))
        }
    }

    /// Creates a value from the integer, as if by an `as` cast: the integer
    /// becomes the nearest 32-bit wide pattern and is then narrowed.
    pub fn from_i64(value: i64) -> (r: F16)
        ensures
            value >= 0 ==> r.0 as int == f16_of_f32(f32_of_u128(value as u128) as u32),
            value < 0 ==> r.0 as int == f16_of_f32((0x8000_0000 + f32_of_u128((-(value as int)) as u128)) as u32),
    {
        if value >= 0 {
            F16::from_f32_bits(crate::wide::f32_bits_of_u128(value as u128))
        } else {
            let mag: u128 = (-(value as i128)) as u128;
            F16::from_f32_bits(0x8000_0000 + crate::wide::f32_bits_of_u128(mag))
        }
    }

    /// Creates a value from the integer, as if by an `as` cast: the integer
    /// becomes the nearest 32-bit wide pattern and is then narrowed.
    pub fn from_i128(value: i128) -> (r: F16)
        ensures
            value >= 0 ==> r.0 as int == f16_of_f32(f32_of_u128(value as u128) as u32),
            value < 0 ==> r.0 as int == f16_of_f32((0x8000_0000 + f32_of_u128((-(value as int)) as u128)) as u32),
    {
        if value >= 0 {
            F16::from_f32_bits(crate::wide::f32_bits_of_u128(value as u128))
        } else if value == i128::MIN {
            F16::from_f32_bits(0x8000_0000 + crate::wide::f32_bits_of_u128(
                0x8000_0000_0000_0000_0000_0000_0000_0000u128,
            ))
        } else {
            let mag: u128 = (-value) as u128;
            F16::from_f32_bits(0x8000_0000 + crate::wide::f32_bits_of_u128(mag))
        }
    }

    /// Converts a [`F16`] value into the bit pattern of the `f32` value it
    /// denotes. The conversion is exact: every 16-bit value is representable
    /// in 32 bits.
    pub fn to_f32_bits(self) -> (r: u32)
        ensures
            r as int == f32_of_f16(self.0),
    {
        let b: u16 = self.0;
        let s: u32 = (b as u32) / 0x8000;
        let e: u32 = ((b as u32) / 0x400) % 0x20;
        let f: u32 = (b as u32) % 0x400;
        let mag: u32 = if e == 0x1F {
            if f == 0 {
                0x7F80_0000
            } else {
                let p: u32 = f * 0x2000;
                if p < 0x40_0000 {
                    0x7F80_0000 + 0x40_0000 + p
                } else {
                    0x7F80_0000 + p
                }
            }
        } else if e > 0 {
            (e + 112) * 0x80_0000 + f * 0x2000
        } else if f == 0 {
            0
        } else {
            let (m, c) = crate::rounding::normalize(f, 0x400);
            proof {
                assert(c <= 10) by {
                    if c >= 11 {
                        if c > 11 {
                            lemma_pow2_strictly_increases(11, c as nat);
                        }
                        lemma2_to64();
                    }
                }
            }
            (113 - c) * 0x80_0000 + (m - 0x400) * 0x2000
        };
        s * 0x8000_0000 + mag
    }

    /// Converts a [`F16`] value into the bit pattern of the `f64` value it
    /// denotes. The conversion is exact: every 16-bit value is representable
    /// in 64 bits.
    pub fn to_f64_bits(self) -> (r: u64)
        ensures
            r as int == f64_of_f16(self.0),
    {
        let b: u16 = self.0;
        let s: u64 = (b as u64) / 0x8000;
        let e: u64 = ((b as u64) / 0x400) % 0x20;
        let f: u64 = (b as u64) % 0x400;
        let mag: u64 = if e == 0x1F {
            if f == 0 {
                0x7FF0_0000_0000_0000
            } else {
                let p: u64 = f * 0x400_0000_0000;
                if p < 0x8_0000_0000_0000 {
                    0x7FF0_0000_0000_0000 + 0x8_0000_0000_0000 + p
                } else {
                    0x7FF0_0000_0000_0000 + p
                }
            }
        } else if e > 0 {
            (e + 1008) * 0x10_0000_0000_0000 + f * 0x400_0000_0000
        } else if f == 0 {
            0
        } else {
            let (m, c) = crate::rounding::normalize(f as u32, 0x400);
            proof {
                assert(c <= 10) by {
                    if c >= 11 {
                        if c > 11 {
                            lemma_pow2_strictly_increases(11, c as nat);
                        }
                        lemma2_to64();
                    }
                }
            }
            ((1009 - c) as u64) * 0x10_0000_0000_0000 + ((m - 0x400) as u64) * 0x400_0000_0000
        };
        s * 0x8000_0000_0000_0000 + mag
    }

    /// Creates a 16-bit value from a 32-bit pattern only when nothing is
    /// lost: the wide value is non-finite, or widening the narrowed value
    /// reproduces the input bit for bit. Otherwise `None`.
    pub fn from_f32_bits_lossless(w: u32) -> (r: Option<F16>)
        ensures
            r == (if exp32(w) == 0xFF || f32_of_f16(f16_of_f32(w) as u16) == w {
                Some(F16(f16_of_f32(w) as u16))
            } else {
                None::<F16>
            }),
    {
        let e: u32 = (w / 0x80_0000) % 0x100;
        let f: u32 = w % 0x80_0000;
        let ok: bool = if e == 0xFF {
            true
        } else if e == 0 {
            f == 0
        } else if 103 <= e && e <= 112 {
            let sh: u32 = 126 - e;
            proof {
                vstd::bits::lemma_u32_pow2_no_overflow(sh as nat);
                vstd::bits::lemma_u32_shl_is_mul(1u32, sh);
                vstd::arithmetic::power2::lemma_pow2_pos(sh as nat);
            }
            f % (1u32 << sh) == 0
        } else if 113 <= e && e <= 142 {
            f % 0x2000 == 0
        } else {
            false
        };
        proof {
            if e != 0xFF {
                lemma_f16_f32_lossless_mask(w);
            }
        }
        if ok {
            Some(Self::from_f32_bits(w))
        } else {
            None
        }
    }

    /// Creates a 16-bit value from a 64-bit pattern only when nothing is
    /// lost: the wide value is non-finite, or widening the narrowed value
    /// reproduces the input bit for bit. Otherwise `None`.
    pub fn from_f64_bits_lossless(w: u64) -> (r: Option<F16>)
        ensures
            r == (if exp64(w) == 0x7FF || f64_of_f16(f16_of_f64(w) as u16) == w {
                Some(F16(f16_of_f64(w) as u16))
            } else {
                None::<F16>
            }),
    {
        let e: u64 = (w / 0x10_0000_0000_0000) % 0x800;
        let f: u64 = w % 0x10_0000_0000_0000;
        let ok: bool = if e == 0x7FF {
            true
        } else if e == 0 {
            f == 0
        } else if 999 <= e && e <= 1008 {
            let sh: u64 = 1051 - e;
            proof {
                vstd::bits::lemma_u64_pow2_no_overflow(sh as nat);
                vstd::bits::lemma_u64_shl_is_mul(1u64, sh);
                vstd::arithmetic::power2::lemma_pow2_pos(sh as nat);
            }
            f % (1u64 << sh) == 0
        } else if 1009 <= e && e <= 1038 {
            f % 0x400_0000_0000 == 0
        } else {
            false
        };
        proof {
            if e != 0x7FF {
                lemma_f16_f64_lossless_mask(w);
            }
        }
        if ok {
            Some(Self::from_f64_bits(w))
        } else {
            None
        }
    }

    /// Returns the memory representation of the underlying bit pattern as a
    /// byte array in little-endian byte order.
    pub fn to_le_bytes(self) -> (r: [u8; 2])
        ensures
            r[0] == self.0 as int % 0x100,
            r[1] == self.0 as int / 0x100,
    {
        [(self.0 % 0x100) as u8, (self.0 / 0x100) as u8]
    }

    /// Returns the memory representation of the underlying bit pattern as a
    /// byte array in big-endian (network) byte order.
    pub fn to_be_bytes(self) -> (r: [u8; 2])
        ensures
            r[0] == self.0 as int / 0x100,
            r[1] == self.0 as int % 0x100,
    {
        [(self.0 / 0x100) as u8, (self.0 % 0x100) as u8]
    }

    /// Returns the memory representation of the underlying bit pattern as a
    /// byte array in native byte order; this crate targets little-endian
    /// platforms, where that is the little-endian order.
    pub fn to_ne_bytes(self) -> (r: [u8; 2])
        ensures
            r[0] == self.0 as int % 0x100,
            r[1] == self.0 as int / 0x100,
    {
        self.to_le_bytes()
    }

    /// Creates a floating point value from its representation as a byte
    /// array in little endian.
    pub fn from_le_bytes(bytes: [u8; 2]) -> (r: F16)
        ensures
            r.0 == bytes[0] + bytes[1] * 0x100,
    {
        F16(bytes[0] as u16 + bytes[1] as u16 * 0x100)
    }

    /// Creates a floating point value from its representation as a byte
    /// array in big endian.
    pub fn from_be_bytes(bytes: [u8; 2]) -> (r: F16)
        ensures
            r.0 == bytes[1] + bytes[0] * 0x100,
    {
        F16(bytes[1] as u16 + bytes[0] as u16 * 0x100)
    }

    /// Creates a floating point value from its representation as a byte
    /// array in native endian; this crate targets little-endian platforms.
    pub fn from_ne_bytes(bytes: [u8; 2]) -> (r: F16)
        ensures
            r.0 == bytes[0] + bytes[1] * 0x100,
    {
        Self::from_le_bytes(bytes)
    }

    /// Computes the absolute value of `self`: the same magnitude with a
    /// cleared sign bit.
    pub fn abs(self) -> (r: F16)
        ensures
            r.0 == mag16(self.0),
    {
        proof {
            lemma_parts16(self.0);
        }
        F16(self.0 % 0x8000)
    }

    /// Returns `true` if this value is ±∞ and `false` otherwise.
    pub fn is_infinite(self) -> (r: bool)
        ensures
            r == (exp16(self.0) == 0x1F && man16(self.0) == 0),
    {
        proof {
            lemma_parts16(self.0);
        }
        self.0 % 0x8000 == 0x7C00
    }

    /// Returns `true` if this number is neither infinite nor NaN.
    pub fn is_finite(self) -> (r: bool)
        ensures
            r == (exp16(self.0) != 0x1F),
    {
        proof {
            lemma_parts16(self.0);
        }
        self.0 % 0x8000 < 0x7C00
    }

    /// Returns `true` if the number is subnormal: a zero exponent field with
    /// a nonzero mantissa.
    pub fn is_subnormal(self) -> (r: bool)
        ensures
            r == (exp16(self.0) == 0 && man16(self.0) != 0),
    {
        proof {
            lemma_parts16(self.0);
        }
        let mag: u16 = self.0 % 0x8000;
        0 < mag && mag < 0x400
    }

    /// Returns `true` if the number is neither zero, infinite, subnormal
    /// nor NaN.
    pub fn is_normal(self) -> (r: bool)
        ensures
            r == (exp16(self.0) != 0 && exp16(self.0) != 0x1F),
    {
        let e: u16 = (self.0 / 0x400) % 0x20;
        e != 0 && e != 0x1F
    }

    /// Returns the floating point category of the number.
    pub fn classify(self) -> (r: FpCategory)
        ensures
            r == classify16(self.0),
    {
        let e: u16 = (self.0 / 0x400) % 0x20;
        let m: u16 = self.0 % 0x400;
        if e == 0 && m == 0 {
            FpCategory::Zero
        } else if e == 0 {
            FpCategory::Subnormal
        } else if e == 0x1F && m == 0 {
            FpCategory::Infinite
        } else if e == 0x1F {
            FpCategory::Nan
        } else {
            FpCategory::Normal
        }
    }

    /// Returns the value standing for the sign of `self`: 1 for a positive
    /// number, −1 for a negative one, and `self` for NaN.
    pub fn signum(self) -> (r: F16)
        ensures
            r.0 == (if is_nan16(self.0) {
                self.0
            } else if sign16(self.0) == 1 {
                0xBC00
            } else {
                0x3C00
            }),
    {
        proof {
            lemma_parts16(self.0);
        }
        if self.is_nan() {
            self
        } else if self.0 >= 0x8000 {
            F16(0xBC00)
        } else {
            F16(0x3C00)
        }
    }

    /// Returns `true` if and only if `self` has a positive sign, including
    /// +0, NaN with a cleared sign bit, and +∞.
    pub fn is_sign_positive(self) -> (r: bool)
        ensures
            r == (sign16(self.0) == 0),
    {
        proof {
            lemma_parts16(self.0);
        }
        self.0 < 0x8000
    }

    /// Returns `true` if and only if `self` has a negative sign, including
    /// −0, NaN with a set sign bit, and −∞.
    pub fn is_sign_negative(self) -> (r: bool)
        ensures
            r == (sign16(self.0) == 1),
    {
        proof {
            lemma_parts16(self.0);
        }
        self.0 >= 0x8000
    }

    /// Returns a number with the magnitude of `self` and the sign of `sign`.
    pub fn copysign(self, sign: F16) -> (r: F16)
        ensures
            r.0 == sign16(sign.0) * 0x8000 + mag16(self.0),
    {
        proof {
            lemma_parts16(self.0);
            lemma_parts16(sign.0);
        }
        F16((sign.0 / 0x8000) * 0x8000 + self.0 % 0x8000)
    }

    /// Takes the reciprocal (inverse) of a number, `1/x`: the wide quotient
    /// narrowed back, per the promote–compute–demote arithmetic rule.
    pub fn recip(self) -> (r: F16)
        ensures
            r.0 as int == f16_div(0x3C00, self.0),
    {
        div_via_f32(F16(0x3C00), self)
    }

    /// Converts radians to degrees: multiplies by 180 and divides by π, each
    /// step in wide precision and narrowed back, as the operator chain does.
    pub fn to_degrees(self) -> (r: F16)
        ensures
            r.0 as int == f16_div(f16_mul(self.0, 0x59A0) as u16, 0x4248),
    {
        let scaled: F16 = mul_via_f32(self, F16(0x59A0));
        div_via_f32(scaled, F16(0x4248))
    }

    /// Converts degrees to radians: multiplies by π and divides by 180.
    pub fn to_radians(self) -> (r: F16)
        ensures
            r.0 as int == f16_div(f16_mul(self.0, 0x4248) as u16, 0x59A0),
    {
        let scaled: F16 = mul_via_f32(self, F16(0x4248));
        div_via_f32(scaled, F16(0x59A0))
    }

    /// Returns the maximum of the two numbers; if one argument is NaN the
    /// other wins.
    pub fn max(self, other: F16) -> (r: F16)
        ensures
            r.0 == (if is_nan16(self.0) || lt16(self.0, other.0) {
                other.0
            } else {
                self.0
            }),
    {
        if self.is_nan() || gt(other, self) {
            other
        } else {
            self
        }
    }

    /// Returns the minimum of the two numbers; if one argument is NaN the
    /// other wins.
    pub fn min(self, other: F16) -> (r: F16)
        ensures
            r.0 == (if is_nan16(self.0) || lt16(other.0, self.0) {
                other.0
            } else {
                self.0
            }),
    {
        if self.is_nan() || lt(other, self) {
            other
        } else {
            self
        }
    }

    /// Restricts a value to an interval unless it is NaN; the bounds must be
    /// ordered and free of NaN, which `le16` both demands.
    pub fn clamp(self, min: F16, max: F16) -> (r: F16)
        requires
            le16(min.0, max.0),
        ensures
            r.0 == (if lt16(self.0, min.0) {
                min.0
            } else if lt16(max.0, self.0) {
                max.0
            } else {
                self.0
            }),
    {
        let mut x: F16 = self;
        if lt(x, min) {
            x = min;
        }
        if gt(x, max) {
            x = max;
        }
        x
    }

    /// Returns the IEEE 754 `totalOrder` ordering between `self` and
    /// `other`: negative NaN below −∞, through the negatives, −0, +0, the
    /// positives, +∞ and positive NaN on top.
    pub fn total_cmp(&self, other: &Self) -> (r: Ordering)
        ensures
            r == (if total_key16(self.0) < total_key16(other.0) {
                Ordering::Less
            } else if total_key16(self.0) == total_key16(other.0) {
                Ordering::Equal
            } else {
                Ordering::Greater
            }),
    {
        proof {
            lemma_parts16(self.0);
            lemma_parts16(other.0);
        }
        let lk: i32 = if self.0 >= 0x8000 {
            -((self.0 - 0x8000) as i32) - 1
        } else {
            self.0 as i32
        };
        let rk: i32 = if other.0 >= 0x8000 {
            -((other.0 - 0x8000) as i32) - 1
        } else {
            other.0 as i32
        };
        if lk < rk {
            Ordering::Less
        } else if lk == rk {
            Ordering::Equal
        } else {
            Ordering::Greater
        }
    }
}

/// Splits a finite nonzero value into its normalized significand and power
/// of two: the pair (`sig16`, `sig16_exp`).
fn sig_parts(x: F16) -> (r: (u32, i32))
    requires
        mag16(x.0) != 0,
        exp16(x.0) != 0x1F,
    ensures
        r.0 == sig16(x.0),
        r.1 == sig16_exp(x.0),
        0x400 <= r.0 < 0x800,
        -34 <= r.1 <= 5,
{
    proof {
        lemma_parts16(x.0);
    }
    let e: u16 = (x.0 / 0x400) % 0x20;
    let f: u16 = x.0 % 0x400;
    if e > 0 {
        ((0x400 + f) as u32, (e as i32) - 25)
    } else {
        let (m, c) = crate::rounding::normalize(f as u32, 0x400);
        proof {
            assert(c <= 10) by {
                if c >= 11 {
                    if c > 11 {
                        lemma_pow2_strictly_increases(11, c as nat);
                    }
                    lemma2_to64();
                }
            }
        }
        (m, -24 - (c as i32))
    }
}

/// The promote–compute–demote product: both operands widened to `binary32`,
/// multiplied there — exactly, the significands being 11 bits each — and
/// the result narrowed back.
fn mul_via_f32(x: F16, y: F16) -> (r: F16)
    ensures
        r.0 as int == f16_mul(x.0, y.0),
{
    proof {
        lemma_parts16(x.0);
        lemma_parts16(y.0);
    }
    let s: u16 = if (x.0 >= 0x8000) == (y.0 >= 0x8000) {
        0
    } else {
        1
    };
    let xm: u16 = x.0 % 0x8000;
    let ym: u16 = y.0 % 0x8000;
    if xm > 0x7C00 || ym > 0x7C00 {
        F16(s * 0x8000 + 0x7E00)
    } else if xm == 0x7C00 || ym == 0x7C00 {
        if xm == 0 || ym == 0 {
            F16(s * 0x8000 + 0x7E00)
        } else {
            F16(s * 0x8000 + 0x7C00)
        }
    } else if xm == 0 || ym == 0 {
        F16(s * 0x8000)
    } else {
        let (sa, ea) = sig_parts(x);
        let (sb, eb) = sig_parts(y);
        proof {
            assert(0x10_0000 <= sa * sb < 0x40_0000) by (nonlinear_arith)
                requires
                    0x400 <= sa < 0x800,
                    0x400 <= sb < 0x800,
            ;
        }
        let p: u32 = sa * sb;
        let sig: u32 = if p >= 0x20_0000 {
            p * 4
        } else {
            p * 8
        };
        let e32: i32 = if p >= 0x20_0000 {
            ea + eb + 148
        } else {
            ea + eb + 147
        };
        let w: u32 = if e32 >= 255 {
            (s as u32) * 0x8000_0000 + 0x7F80_0000
        } else if e32 >= 1 {
            (s as u32) * 0x8000_0000 + (e32 as u32) * 0x80_0000 + (sig - 0x80_0000)
        } else {
            let k: i32 = 1 - e32;
            if k >= 25 {
                proof {
                    if k > 25 {
                        lemma_pow2_strictly_increases(25, k as nat);
                    }
                    lemma2_to64();
                    lemma_rne_zero(sig as nat, k as nat);
                }
                (s as u32) * 0x8000_0000
            } else {
                let fsub: u64 = rne_u64(sig as u64, k as u64);
                proof {
                    if k > 1 {
                        lemma_pow2_strictly_increases(1, k as nat);
                    }
                    lemma2_to64();
                    lemma_rne_bound(sig as nat, k as nat, 0x80_0000);
                }
                (s as u32) * 0x8000_0000 + (fsub as u32)
            }
        };
        F16::from_f32_bits(w)
    }
}

/// The promote–compute–demote quotient: both operands widened to
/// `binary32`, the exact rational quotient rounded once at the wide
/// precision, and the result narrowed back.
fn div_via_f32(x: F16, y: F16) -> (r: F16)
    ensures
        r.0 as int == f16_div(x.0, y.0),
{
    proof {
        lemma_parts16(x.0);
        lemma_parts16(y.0);
    }
    let s: u16 = if (x.0 >= 0x8000) == (y.0 >= 0x8000) {
        0
    } else {
        1
    };
    let xm: u16 = x.0 % 0x8000;
    let ym: u16 = y.0 % 0x8000;
    if xm > 0x7C00 || ym > 0x7C00 {
        F16(s * 0x8000 + 0x7E00)
    } else if ym == 0 {
        if xm == 0 {
            F16(s * 0x8000 + 0x7E00)
        } else {
            F16(s * 0x8000 + 0x7C00)
        }
    } else if ym == 0x7C00 {
        if xm == 0x7C00 {
            F16(s * 0x8000 + 0x7E00)
        } else {
            F16(s * 0x8000)
        }
    } else if xm == 0 {
        F16(s * 0x8000)
    } else if xm == 0x7C00 {
        F16(s * 0x8000 + 0x7C00)
    } else {
        let (sa, ea) = sig_parts(x);
        let (sb, eb) = sig_parts(y);
        let q64: u64 = if sa >= sb {
            rne_frac_u64((sa as u64) * 0x80_0000, sb as u64)
        } else {
            rne_frac_u64((sa as u64) * 0x100_0000, sb as u64)
        };
        let e32: i32 = if sa >= sb {
            ea - eb + 127
        } else {
            ea - eb + 126
        };
        proof {
            if sa >= sb {
                lemma_rne_frac_low((sa * 0x80_0000) as nat, sb as nat, 0x80_0000);
                lemma_rne_frac_bound((sa * 0x80_0000) as nat, sb as nat, 0xFF_FFFF);
            } else {
                lemma_rne_frac_low((sa * 0x100_0000) as nat, sb as nat, 0x80_0000);
                lemma_rne_frac_bound((sa * 0x100_0000) as nat, sb as nat, 0x100_0000);
            }
        }
        let w: u32 = if e32 >= 255 {
            (s as u32) * 0x8000_0000 + 0x7F80_0000
        } else if e32 >= 1 {
            (s as u32) * 0x8000_0000 + (e32 as u32) * 0x80_0000 + ((q64 - 0x80_0000) as u32)
        } else {
            let u: i32 = ea - eb + 149;
            let fsub: u64 = if u >= 0 {
                proof {
                    vstd::bits::lemma_u64_pow2_no_overflow(u as nat);
                    vstd::bits::lemma_u64_shl_is_mul(1u64, u as u64);
                    if u < 23 {
                        lemma_pow2_strictly_increases(u as nat, 23);
                    }
                    lemma2_to64();
                    assert(sa * pow2(u as nat) < 0x8_0000_0000) by (nonlinear_arith)
                        requires
                            sa < 0x800,
                            pow2(u as nat) <= 0x80_0000,
                    ;
                }
                rne_frac_u64((sa as u64) * (1u64 << (u as u64)), sb as u64)
            } else {
                let nu: i32 = -u;
                if nu >= 53 {
                    proof {
                        if nu > 53 {
                            lemma_pow2_strictly_increases(53, nu as nat);
                        }
                        vstd::arithmetic::power2::lemma2_to64_rest();
                        assert(2 * sa < sb * pow2(nu as nat)) by (nonlinear_arith)
                            requires
                                sa < 0x800,
                                sb >= 0x400,
                                pow2(nu as nat) >= 0x20_0000_0000_0000,
                        ;
                        lemma_rne_frac_zero(sa as nat, (sb * pow2(nu as nat)) as nat);
                    }
                    0
                } else {
                    proof {
                        vstd::bits::lemma_u64_pow2_no_overflow(nu as nat);
                        vstd::bits::lemma_u64_shl_is_mul(1u64, nu as u64);
                        if nu < 52 {
                            lemma_pow2_strictly_increases(nu as nat, 52);
                        }
                        lemma_pow2_pos(nu as nat);
                        vstd::arithmetic::power2::lemma2_to64_rest();
                        assert(0x400 <= sb * pow2(nu as nat) < 0x8000_0000_0000_0000) by (nonlinear_arith)
                            requires
                                0x400 <= sb < 0x800,
                                1 <= pow2(nu as nat) <= 0x10_0000_0000_0000,
                        ;
                    }
                    rne_frac_u64(sa as u64, (sb as u64) * (1u64 << (nu as u64)))
                }
            };
            proof {
                let uu = ea - eb + 149;
                if uu >= 0 {
                    if sa >= sb {
                        if uu < 22 {
                            lemma_pow2_strictly_increases(uu as nat, 22);
                        }
                        lemma2_to64();
                        assert(sa * pow2(uu as nat) < 0x80_0000 * sb) by (nonlinear_arith)
                            requires
                                sa < 2 * sb,
                                pow2(uu as nat) <= 0x40_0000,
                        ;
                    } else {
                        if uu < 23 {
                            lemma_pow2_strictly_increases(uu as nat, 23);
                        }
                        lemma2_to64();
                        assert(sa * pow2(uu as nat) < 0x80_0000 * sb) by (nonlinear_arith)
                            requires
                                sa < sb,
                                pow2(uu as nat) <= 0x80_0000,
                        ;
                    }
                    lemma_rne_frac_bound((sa * pow2(uu as nat)) as nat, sb as nat, 0x80_0000);
                } else {
                    lemma_pow2_pos((-uu) as nat);
                    assert(sb * pow2((-uu) as nat) >= 0x400) by (nonlinear_arith)
                        requires
                            sb >= 0x400,
                            pow2((-uu) as nat) >= 1,
                    ;
                    assert(sa < 0x80_0000 * (sb * pow2((-uu) as nat))) by (nonlinear_arith)
                        requires
                            sa < 0x800,
                            sb * pow2((-uu) as nat) >= 0x400,
                    ;
                    lemma_rne_frac_bound(sa as nat, (sb * pow2((-uu) as nat)) as nat, 0x80_0000);
                }
            }
            (s as u32) * 0x8000_0000 + (fsub as u32)
        };
        F16::from_f32_bits(w)
    }
}

/// The promote–compute–demote sum: both operands widened to `binary32`,
/// their aligned significands added or subtracted exactly, and the result
/// rounded once and narrowed back.
fn add_via_f32(x: F16, y: F16) -> (r: F16)
    ensures
        r.0 as int == f16_add(x.0, y.0),
{
    proof {
        lemma_parts16(x.0);
        lemma_parts16(y.0);
        lemma2_to64();
        lemma2_to64_rest();
    }
    let xm: u16 = x.0 % 0x8000;
    let ym: u16 = y.0 % 0x8000;
    if xm > 0x7C00 || ym > 0x7C00 {
        return F16(0x7E00);
    }
    let sx: bool = x.0 >= 0x8000;
    let sy: bool = y.0 >= 0x8000;
    if xm == 0x7C00 && ym == 0x7C00 {
        return if sx == sy {
            x
        } else {
            F16(0x7E00)
        };
    }
    if xm == 0x7C00 {
        return x;
    }
    if ym == 0x7C00 {
        return y;
    }
    if xm == 0 && ym == 0 {
        return if sx == sy {
            x
        } else {
            F16(0)
        };
    }
    if xm == 0 {
        return y;
    }
    if ym == 0 {
        return x;
    }
    let (sa, ea) = sig_parts(x);
    let (sb, eb) = sig_parts(y);
    if sx != sy && sa == sb && ea == eb {
        return F16(0);
    }
    let swap: bool = ea < eb || (ea == eb && sa < sb);
    let hs: u32 = if swap {
        if sy {
            1
        } else {
            0
        }
    } else {
        if sx {
            1
        } else {
            0
        }
    };
    let (hsig, hexp, lsig, lexp): (u32, i32, u32, i32) = if swap {
        (sb, eb, sa, ea)
    } else {
        (sa, ea, sb, eb)
    };
    let g: u32 = (hexp - lexp) as u32;
    proof {
        vstd::bits::lemma_u64_pow2_no_overflow(g as nat);
        vstd::bits::lemma_u64_shl_is_mul(1u64, g as u64);
        if g < 39 {
            lemma_pow2_strictly_increases(g as nat, 39);
        }
        assert(hsig * pow2(g as nat) < 0x4_0000_0000_0000) by (nonlinear_arith)
            requires
                hsig < 0x800,
                pow2(g as nat) <= 0x80_0000_0000,
        ;
        if g >= 1 {
            lemma_pow2_strictly_increases(0, g as nat);
            assert(hsig * pow2(g as nat) >= hsig * 2) by (nonlinear_arith)
                requires
                    pow2(g as nat) >= 2,
                    hsig >= 0,
            ;
        }
    }
    let hv: u64 = (hsig as u64) * (1u64 << (g as u64));
    proof {
        assert(hv == hsig * pow2(g as nat));
        if g == 0 {
            assert(1u64 << (g as u64) == 1) by (bit_vector)
                requires
                    g == 0u32,
            ;
            assert(pow2(0) == 1);
            assert((g as nat) == 0);
            assert(pow2(g as nat) == 1);
            assert(hv == hsig) by (nonlinear_arith)
                requires
                    hv == hsig * pow2(g as nat),
                    pow2(g as nat) == 1,
            ;
        } else {
            assert(hv >= hsig * 2);
            assert(hv > lsig);
        }
        assert(hv > lsig || (sx == sy));
    }
    let v: u64 = if sx == sy {
        hv + (lsig as u64)
    } else {
        hv - (lsig as u64)
    };
    let w: u32 = crate::wide::f32_bits_of_scaled(hs, v, lexp);
    F16::from_f32_bits(w)
}

/// The promote–compute–demote remainder: both operands widened to
/// `binary32`, the exact remainder taken there by modular doubling of the
/// dividend's significand, and the result narrowed back.
fn rem_via_f32(x: F16, y: F16) -> (r: F16)
    ensures
        r.0 as int == f16_rem(x.0, y.0),
{
    proof {
        lemma_parts16(x.0);
        lemma_parts16(y.0);
        lemma2_to64();
    }
    let s: u16 = if x.0 >= 0x8000 {
        1
    } else {
        0
    };
    let xm: u16 = x.0 % 0x8000;
    let ym: u16 = y.0 % 0x8000;
    if xm > 0x7C00 || ym > 0x7C00 || ym == 0 || xm == 0x7C00 {
        F16(s * 0x8000 + 0x7E00)
    } else if xm == 0 {
        F16(s * 0x8000)
    } else if ym == 0x7C00 {
        x
    } else {
        let (sa, ea) = sig_parts(x);
        let (sb, eb) = sig_parts(y);
        if ea < eb || (ea == eb && sa < sb) {
            return x;
        }
        let g: u32 = (ea - eb) as u32;
        let mut md: u32 = sa % sb;
        let mut i: u32 = 0;
        while i < g
            invariant
                0x400 <= sa < 0x800,
                0x400 <= sb < 0x800,
                i <= g,
                md == (sa as nat * pow2(i as nat)) % (sb as nat),
                md < sb,
            decreases g - i,
        {
            proof {
                vstd::arithmetic::div_mod::lemma_mul_mod_noop_left(
                    (sa as nat * pow2(i as nat)) as int,
                    2,
                    sb as int,
                );
                lemma_pow2_adds(i as nat, 1);
                lemma2_to64();
                vstd::arithmetic::mul::lemma_mul_is_associative(
                    sa as int,
                    pow2(i as nat) as int,
                    2,
                );
            }
            md = (md * 2) % sb;
            i = i + 1;
        }
        if md == 0 {
            return F16(s * 0x8000);
        }
        let (mm, c): (u32, u32) = if md >= 0x400 {
            proof {
                assert(norm_shift(md as nat, 0x400) == 0);
            }
            (md, 0)
        } else {
            crate::rounding::normalize(md, 0x400)
        };
        proof {
            assert(c <= 10) by {
                if c >= 11 {
                    if c > 11 {
                        lemma_pow2_strictly_increases(11, c as nat);
                    }
                    lemma2_to64();
                }
            }
        }
        let e32: u32 = ((eb - (c as i32) + 137) as u32);
        proof {
            assert(mm == md * pow2(c as nat));
            assert(md == (sig16(x.0) * pow2((sig16_exp(x.0) - sig16_exp(y.0)) as nat)) % sig16(
                y.0,
            ));
            assert((s as int) * 0x8000_0000 + (e32 as int) * 0x80_0000 + (mm - 0x400) * 0x2000
                == sign16(x.0) * 0x8000_0000 + (sig16_exp(y.0) - norm_shift(md as nat, 0x400) + 137)
                * 0x80_0000 + (md * pow2(norm_shift(md as nat, 0x400)) - 0x400) * 0x2000);
        }
        F16::from_f32_bits((s as u32) * 0x8000_0000 + e32 * 0x80_0000 + (mm - 0x400) * 0x2000)
    }
}

/// IEEE equality on the bit patterns: false on NaN, +0 equal to −0, bit
/// equality otherwise.
fn eq(lhs: F16, rhs: F16) -> (r: bool)
    ensures
        r == eq16(lhs.0, rhs.0),
{
    proof {
        lemma_parts16(lhs.0);
        lemma_parts16(rhs.0);
    }
    if lhs.is_nan() || rhs.is_nan() {
        false
    } else {
        (lhs.0 == rhs.0) || (lhs.0 % 0x8000 == 0 && rhs.0 % 0x8000 == 0)
    }
}

/// IEEE `<` on the bit patterns, by case analysis on the two signs.
fn lt(lhs: F16, rhs: F16) -> (r: bool)
    ensures
        r == lt16(lhs.0, rhs.0),
{
    proof {
        lemma_parts16(lhs.0);
        lemma_parts16(rhs.0);
    }
    if lhs.is_nan() || rhs.is_nan() {
        false
    } else {
        let lneg: bool = lhs.0 >= 0x8000;
        let rneg: bool = rhs.0 >= 0x8000;
        if !lneg && !rneg {
            lhs.0 < rhs.0
        } else if !lneg && rneg {
            false
        } else if lneg && !rneg {
            lhs.0 % 0x8000 != 0 || rhs.0 % 0x8000 != 0
        } else {
            lhs.0 > rhs.0
        }
    }
}

/// IEEE `<=` on the bit patterns, by case analysis on the two signs.
fn le(lhs: F16, rhs: F16) -> (r: bool)
    ensures
        r == le16(lhs.0, rhs.0),
{
    proof {
        lemma_parts16(lhs.0);
        lemma_parts16(rhs.0);
    }
    if lhs.is_nan() || rhs.is_nan() {
        false
    } else {
        let lneg: bool = lhs.0 >= 0x8000;
        let rneg: bool = rhs.0 >= 0x8000;
        if !lneg && !rneg {
            lhs.0 <= rhs.0
        } else if !lneg && rneg {
            lhs.0 % 0x8000 == 0 && rhs.0 % 0x8000 == 0
        } else if lneg && !rneg {
            true
        } else {
            lhs.0 >= rhs.0
        }
    }
}

/// IEEE `>` on the bit patterns.
fn gt(lhs: F16, rhs: F16) -> (r: bool)
    ensures
        r == lt16(rhs.0, lhs.0),
{
    lt(rhs, lhs)
}

/// IEEE `>=` on the bit patterns.
fn ge(lhs: F16, rhs: F16) -> (r: bool)
    ensures
        r == le16(rhs.0, lhs.0),
{
    le(rhs, lhs)
}

impl PartialEq for F16 {
    fn eq(&self, other: &F16) -> (r: bool) {
        eq(*self, *other)
    }
}

impl vstd::std_specs::cmp::PartialEqSpecImpl for F16 {
    open spec fn obeys_eq_spec() -> bool {
        true
    }

    open spec fn eq_spec(&self, other: &F16) -> bool {
        eq16(self.0, other.0)
    }
}

impl PartialOrd for F16 {
    fn partial_cmp(&self, other: &F16) -> (r: Option<Ordering>) {
        proof {
            lemma_parts16(self.0);
            lemma_parts16(other.0);
        }
        if self.is_nan() || other.is_nan() {
            None
        } else {
            let lneg: bool = self.0 >= 0x8000;
            let rneg: bool = other.0 >= 0x8000;
            if !lneg && !rneg {
                if self.0 < other.0 {
                    Some(Ordering::Less)
                } else if self.0 == other.0 {
                    Some(Ordering::Equal)
                } else {
                    Some(Ordering::Greater)
                }
            } else if !lneg && rneg {
                if self.0 % 0x8000 == 0 && other.0 % 0x8000 == 0 {
                    Some(Ordering::Equal)
                } else {
                    Some(Ordering::Greater)
                }
            } else if lneg && !rneg {
                if self.0 % 0x8000 == 0 && other.0 % 0x8000 == 0 {
                    Some(Ordering::Equal)
                } else {
                    Some(Ordering::Less)
                }
            } else {
                if self.0 > other.0 {
                    Some(Ordering::Less)
                } else if self.0 == other.0 {
                    Some(Ordering::Equal)
                } else {
                    Some(Ordering::Greater)
                }
            }
        }
    }

    fn lt(&self, other: &F16) -> (r: bool) {
        lt(*self, *other)
    }

    fn le(&self, other: &F16) -> (r: bool) {
        le(*self, *other)
    }

    fn gt(&self, other: &F16) -> (r: bool) {
        gt(*self, *other)
    }

    fn ge(&self, other: &F16) -> (r: bool) {
        ge(*self, *other)
    }
}

impl vstd::std_specs::cmp::PartialOrdSpecImpl for F16 {
    open spec fn obeys_partial_cmp_spec() -> bool {
        true
    }

    open spec fn partial_cmp_spec(&self, other: &F16) -> Option<Ordering> {
        if is_nan16(self.0) || is_nan16(other.0) {
            None
        } else if cmp_key16(self.0) < cmp_key16(other.0) {
            Some(Ordering::Less)
        } else if cmp_key16(self.0) == cmp_key16(other.0) {
            Some(Ordering::Equal)
        } else {
            Some(Ordering::Greater)
        }
    }
}

impl core::ops::Add for F16 {
    type Output = F16;

    fn add(self, rhs: F16) -> (r: F16) {
        add_via_f32(self, rhs)
    }
}

impl vstd::std_specs::ops::AddSpecImpl for F16 {
    open spec fn obeys_add_spec() -> bool {
        true
    }

    open spec fn add_req(self, rhs: F16) -> bool {
        true
    }

    open spec fn add_spec(self, rhs: F16) -> F16 {
        F16(f16_add(self.0, rhs.0) as u16)
    }
}

impl core::ops::Sub for F16 {
    type Output = F16;

    fn sub(self, rhs: F16) -> (r: F16) {
        if rhs.0 >= 0x8000 {
            add_via_f32(self, F16(rhs.0 - 0x8000))
        } else {
            add_via_f32(self, F16(rhs.0 + 0x8000))
        }
    }
}

impl vstd::std_specs::ops::SubSpecImpl for F16 {
    open spec fn obeys_sub_spec() -> bool {
        true
    }

    open spec fn sub_req(self, rhs: F16) -> bool {
        true
    }

    open spec fn sub_spec(self, rhs: F16) -> F16 {
        F16(f16_add(self.0, flip_sign16(rhs.0)) as u16)
    }
}

impl core::ops::Mul for F16 {
    type Output = F16;

    fn mul(self, rhs: F16) -> (r: F16) {
        mul_via_f32(self, rhs)
    }
}

impl vstd::std_specs::ops::MulSpecImpl for F16 {
    open spec fn obeys_mul_spec() -> bool {
        true
    }

    open spec fn mul_req(self, rhs: F16) -> bool {
        true
    }

    open spec fn mul_spec(self, rhs: F16) -> F16 {
        F16(f16_mul(self.0, rhs.0) as u16)
    }
}

impl core::ops::Div for F16 {
    type Output = F16;

    fn div(self, rhs: F16) -> (r: F16) {
        div_via_f32(self, rhs)
    }
}

impl vstd::std_specs::ops::DivSpecImpl for F16 {
    open spec fn obeys_div_spec() -> bool {
        true
    }

    open spec fn div_req(self, rhs: F16) -> bool {
        true
    }

    open spec fn div_spec(self, rhs: F16) -> F16 {
        F16(f16_div(self.0, rhs.0) as u16)
    }
}

impl core::ops::Rem for F16 {
    type Output = F16;

    fn rem(self, rhs: F16) -> (r: F16) {
        rem_via_f32(self, rhs)
    }
}

impl vstd::std_specs::ops::RemSpecImpl for F16 {
    open spec fn obeys_rem_spec() -> bool {
        true
    }

    open spec fn rem_req(self, rhs: F16) -> bool {
        true
    }

    open spec fn rem_spec(self, rhs: F16) -> F16 {
        F16(f16_rem(self.0, rhs.0) as u16)
    }
}

impl core::ops::Neg for F16 {
    type Output = F16;

    fn neg(self) -> (r: F16) {
        if self.0 >= 0x8000 {
            F16(self.0 - 0x8000)
        } else {
            F16(self.0 + 0x8000)
        }
    }
}

impl vstd::std_specs::ops::NegSpecImpl for F16 {
    open spec fn obeys_neg_spec() -> bool {
        true
    }

    open spec fn neg_req(self) -> bool {
        true
    }

    open spec fn neg_spec(self) -> F16 {
        if self.0 >= 0x8000 {
            F16((self.0 - 0x8000) as u16)
        } else {
            F16((self.0 + 0x8000) as u16)
        }
    }
}

} // verus!
