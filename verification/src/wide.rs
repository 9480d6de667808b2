//! Field model of the wide IEEE 754 formats: sign, exponent and fraction of a
//! `binary32` or `binary64` bit pattern, with the decomposition and
//! recomposition lemmas every conversion proof leans on.

use vstd::arithmetic::div_mod::{
    lemma_div_denominator, lemma_fundamental_div_mod, lemma_fundamental_div_mod_converse,
};
use vstd::arithmetic::power2::{
    lemma2_to64, lemma_pow2_adds, lemma_pow2_pos, lemma_pow2_strictly_increases, pow2,
};
use vstd::prelude::*;

use crate::rounding::{lemma_norm_shift_unique, norm_shift, rne};

verus! {

/// The sign bit of a `binary32` pattern, as 0 or 1.
pub open spec fn sign32(w: u32) -> int {
    w as int / 0x8000_0000
}

/// The 8-bit exponent field of a `binary32` pattern.
pub open spec fn exp32(w: u32) -> int {
    (w as int / 0x80_0000) % 0x100
}

/// The 23-bit fraction field of a `binary32` pattern.
pub open spec fn frac32(w: u32) -> int {
    w as int % 0x80_0000
}

/// The sign bit of a `binary64` pattern, as 0 or 1.
pub open spec fn sign64(w: u64) -> int {
    w as int / 0x8000_0000_0000_0000
}

/// The 11-bit exponent field of a `binary64` pattern.
pub open spec fn exp64(w: u64) -> int {
    (w as int / 0x10_0000_0000_0000) % 0x800
}

/// The 52-bit fraction field of a `binary64` pattern.
pub open spec fn frac64(w: u64) -> int {
    w as int % 0x10_0000_0000_0000
}

/// Setting a single high bit in a value that may already carry it: the
/// "force at least one mantissa bit" step that keeps a narrowed NaN a NaN.
pub open spec fn with_high_bit(t: int, q: int) -> int {
    if t >= q {
        t
    } else {
        t + q
    }
}

/// Every `binary32` pattern is exactly its three fields put side by side.
pub proof fn lemma_fields32(w: u32)
    ensures
        0 <= sign32(w) < 2,
        0 <= exp32(w) < 0x100,
        0 <= frac32(w) < 0x80_0000,
        w == sign32(w) * 0x8000_0000 + exp32(w) * 0x80_0000 + frac32(w),
{
    lemma_fundamental_div_mod(w as int, 0x80_0000);
    let t = w as int / 0x80_0000;
    lemma_fundamental_div_mod(t, 0x100);
    lemma_div_denominator(w as int, 0x80_0000, 0x100);
}

/// Assembling three in-range fields yields a pattern whose fields read back
/// as the pieces that went in.
pub proof fn lemma_split32(w: u32, s: int, e: int, f: int)
    requires
        0 <= s < 2,
        0 <= e < 0x100,
        0 <= f < 0x80_0000,
        w == s * 0x8000_0000 + e * 0x80_0000 + f,
    ensures
        sign32(w) == s,
        exp32(w) == e,
        frac32(w) == f,
{
    lemma_fundamental_div_mod_converse(w as int, 0x80_0000, s * 0x100 + e, f);
    lemma_fundamental_div_mod_converse(s * 0x100 + e, 0x100, s, e);
    lemma_fundamental_div_mod_converse(w as int, 0x8000_0000, s, e * 0x80_0000 + f);
}

/// Every `binary64` pattern is exactly its three fields put side by side.
pub proof fn lemma_fields64(w: u64)
    ensures
        0 <= sign64(w) < 2,
        0 <= exp64(w) < 0x800,
        0 <= frac64(w) < 0x10_0000_0000_0000,
        w == sign64(w) * 0x8000_0000_0000_0000 + exp64(w) * 0x10_0000_0000_0000 + frac64(w),
{
    lemma_fundamental_div_mod(w as int, 0x10_0000_0000_0000);
    let t = w as int / 0x10_0000_0000_0000;
    lemma_fundamental_div_mod(t, 0x800);
    lemma_div_denominator(w as int, 0x10_0000_0000_0000, 0x800);
}

/// Assembling three in-range fields yields a pattern whose fields read back
/// as the pieces that went in.
pub proof fn lemma_split64(w: u64, s: int, e: int, f: int)
    requires
        0 <= s < 2,
        0 <= e < 0x800,
        0 <= f < 0x10_0000_0000_0000,
        w == s * 0x8000_0000_0000_0000 + e * 0x10_0000_0000_0000 + f,
    ensures
        sign64(w) == s,
        exp64(w) == e,
        frac64(w) == f,
{
    lemma_fundamental_div_mod_converse(w as int, 0x10_0000_0000_0000, s * 0x800 + e, f);
    lemma_fundamental_div_mod_converse(s * 0x800 + e, 0x800, s, e);
    lemma_fundamental_div_mod_converse(w as int, 0x8000_0000_0000_0000, s, e * 0x10_0000_0000_0000 + f);
}

/// How many halvings a wide integer needs before it fits in 24 bits: the
/// exponent excess over a bare `binary32` significand.
pub open spec fn down_shift(v: nat) -> nat
    decreases v,
{
    if v < 0x100_0000 {
        0
    } else {
        1 + down_shift(v / 2)
    }
}

/// The halving count brackets the value between two powers of two.
pub proof fn lemma_down_shift(v: nat)
    requires
        v >= 0x100_0000,
    ensures
        1 <= down_shift(v),
        pow2(23 + down_shift(v)) <= v < pow2(24 + down_shift(v)),
    decreases v,
{
    let d = down_shift(v);
    lemma_fundamental_div_mod(v as int, 2);
    lemma2_to64();
    if v / 2 < 0x100_0000 {
        assert(down_shift(v / 2) == 0);
        assert(d == 1);
    } else {
        lemma_down_shift(v / 2);
        let d2 = down_shift(v / 2);
        lemma_pow2_adds(23 + d2, 1);
        lemma_pow2_adds(24 + d2, 1);
    }
}

/// Only one halving count brackets a value this way.
pub proof fn lemma_down_shift_unique(v: nat, d: nat)
    requires
        v >= 0x100_0000,
        pow2(23 + d) <= v < pow2(24 + d),
    ensures
        down_shift(v) == d,
{
    let d0 = down_shift(v);
    lemma_down_shift(v);
    if d < d0 {
        lemma_pow2_strictly_increases(24 + d, 24 + d0);
        if 24 + d <= 23 + d0 {
            if 24 + d < 23 + d0 {
                lemma_pow2_strictly_increases(24 + d, 23 + d0);
            }
        }
    } else if d0 < d {
        if 24 + d0 <= 23 + d {
            if 24 + d0 < 23 + d {
                lemma_pow2_strictly_increases(24 + d0, 23 + d);
            }
        }
    }
}

/// The value of a wide integer as a `binary32` pattern, as an `as` cast
/// rounds it: zero stays zero; up to 24 bits the value is exact, scaled into
/// the significand; beyond that the excess bits are rounded to nearest,
/// ties to even, a carry walking into the exponent and, at the very top of
/// the 128-bit range, into infinity.
pub open spec fn f32_of_u128(v: u128) -> int {
    if v == 0 {
        0
    } else if v < 0x100_0000 {
        let c = norm_shift(v as nat, 0x80_0000);
        (150 - c) * 0x80_0000 + v * pow2(c) - 0x80_0000
    } else {
        let d = down_shift(v as nat);
        (150 + d) * 0x80_0000 + rne(v as nat, d) - 0x80_0000
    }
}

/// Computes [`f32_of_u128`] on machine words.
pub fn f32_bits_of_u128(v: u128) -> (r: u32)
    ensures
        r as int == f32_of_u128(v),
        r < 0x8000_0000,
{
    proof {
        lemma2_to64();
    }
    if v == 0 {
        return 0;
    }
    if v < 0x100_0000 {
        let mut m: u32 = v as u32;
        let mut c: u32 = 0;
        while m < 0x80_0000
            invariant
                1 <= v < 0x100_0000,
                m == (v as nat) * pow2(c as nat),
                1 <= m,
                pow2(c as nat) <= m < 0x100_0000,
            decreases 0x100_0000 - m,
        {
            proof {
                lemma_pow2_adds(c as nat, 1);
                lemma2_to64();
                vstd::arithmetic::mul::lemma_mul_is_associative(
                    v as int,
                    pow2(c as nat) as int,
                    2,
                );
                assert(c < 23) by {
                    if c >= 23 {
                        if c > 23 {
                            lemma_pow2_strictly_increases(23, c as nat);
                        }
                        lemma2_to64();
                    }
                }
            }
            m = m * 2;
            c = c + 1;
        }
        proof {
            if v < 0x80_0000 {
                lemma_norm_shift_unique(v as nat, 0x80_0000, c as nat);
            } else {
                assert(norm_shift(v as nat, 0x80_0000) == 0);
                lemma_pow2_pos(c as nat);
                assert(pow2(c as nat) < 2) by (nonlinear_arith)
                    requires
                        m == (v as nat) * pow2(c as nat),
                        m < 0x100_0000,
                        v >= 0x80_0000,
                        pow2(c as nat) >= 1,
                ;
                if c > 0 {
                    lemma_pow2_strictly_increases(0, c as nat);
                }
            }
            assert(c <= 23) by {
                if c >= 24 {
                    if c > 24 {
                        lemma_pow2_strictly_increases(24, c as nat);
                    }
                    lemma2_to64();
                }
            }
        }
        return (150 - c as u32) * 0x80_0000 + (m - 0x80_0000);
    }
    let mut m: u128 = v;
    let mut d: u32 = 0;
    let mut divisor: u128 = 1;
    while m >= 0x100_0000
        invariant
            v >= 0x100_0000,
            m == (v as nat) / pow2(d as nat),
            divisor == pow2(d as nat),
            (v as nat) >= pow2(23 + d as nat),
        decreases m,
    {
        proof {
            lemma_pow2_pos(d as nat);
            lemma_pow2_adds(d as nat, 1);
            lemma2_to64();
            lemma_div_denominator(v as int, pow2(d as nat) as int, 2);
            lemma_fundamental_div_mod(v as int, pow2(d as nat) as int);
            assert((v as nat) >= pow2(24 + d as nat)) by {
                vstd::arithmetic::mul::lemma_mul_inequality(
                    0x100_0000,
                    m as int,
                    pow2(d as nat) as int,
                );
                vstd::arithmetic::mul::lemma_mul_is_commutative(m as int, pow2(d as nat) as int);
                lemma_pow2_adds(24, d as nat);
                vstd::arithmetic::mul::lemma_mul_is_commutative(0x100_0000, pow2(d as nat) as int);
            }
            assert(24 + d as nat <= 127) by {
                if 24 + d as nat >= 128 {
                    lemma_pow2_adds(64, 64);
                    if 24 + d as nat > 128 {
                        lemma_pow2_strictly_increases(128, 24 + d as nat);
                    }
                }
            }
            assert(pow2(d as nat + 1) < 0x8000_0000_0000_0000_0000_0000_0000_0000) by {
                lemma_pow2_strictly_increases(d as nat + 1, 127);
                lemma_pow2_adds(63, 64);
                vstd::arithmetic::power2::lemma2_to64_rest();
            }
        }
        m = m / 2;
        divisor = divisor * 2;
        d = d + 1;
    }
    proof {
        lemma_pow2_pos(d as nat);
        lemma_fundamental_div_mod(v as int, pow2(d as nat) as int);
        assert((v as nat) < pow2(24 + d as nat)) by {
            vstd::arithmetic::mul::lemma_mul_inequality(
                (m + 1) as int,
                0x100_0000,
                pow2(d as nat) as int,
            );
            vstd::arithmetic::mul::lemma_mul_is_commutative((m + 1) as int, pow2(d as nat) as int);
            vstd::arithmetic::mul::lemma_mul_is_commutative(0x100_0000, pow2(d as nat) as int);
            lemma_pow2_adds(24, d as nat);
            vstd::arithmetic::mul::lemma_mul_is_distributive_add_other_way(
                pow2(d as nat) as int,
                m as int,
                1,
            );
        }
        lemma_down_shift_unique(v as nat, d as nat);
        assert(m >= 0x80_0000) by {
            lemma_pow2_adds(23, d as nat);
            vstd::arithmetic::div_mod::lemma_div_by_multiple(0x80_0000, pow2(d as nat) as int);
            vstd::arithmetic::div_mod::lemma_div_is_ordered(
                (0x80_0000 * pow2(d as nat)) as int,
                v as int,
                pow2(d as nat) as int,
            );
            vstd::arithmetic::mul::lemma_mul_is_commutative(0x80_0000, pow2(d as nat) as int);
        }
        assert(d <= 104) by {
            if 23 + d as nat >= 128 {
                lemma_pow2_adds(64, 64);
                if 23 + d as nat > 128 {
                    lemma_pow2_strictly_increases(128, 23 + d as nat);
                }
            }
        }
        assert(pow2(d as nat) < 0x8000_0000_0000_0000_0000_0000_0000_0000) by {
            lemma_pow2_strictly_increases(d as nat, 127);
            lemma_pow2_adds(63, 64);
            vstd::arithmetic::power2::lemma2_to64_rest();
        }
    }
    let q: u128 = m;
    let rem: u128 = v % divisor;
    let up: bool = 2 * rem > divisor || (2 * rem == divisor && q % 2 == 1);
    let sig: u32 = if up {
        (q + 1) as u32
    } else {
        q as u32
    };
    (150 + d) * 0x80_0000 + (sig - 0x80_0000)
}

/// The `binary32` pattern denoting `±v · 2^e`, rounded to nearest with ties
/// to even: the scaled-integer form every exact wide computation reduces
/// to. A value below 24 bits is placed exactly, landing in the wide
/// subnormal range when the exponent calls for it; a longer value has its
/// excess bits rounded, a carry walking into the exponent and, past the
/// exponent range, into infinity.
pub open spec fn f32_of_scaled(s: int, v: nat, e: int) -> int {
    if v < 0x100_0000 {
        let c = norm_shift(v, 0x80_0000);
        if 150 + e - c >= 255 {
            s * 0x8000_0000 + 0x7F80_0000
        } else if 150 + e - c >= 1 {
            s * 0x8000_0000 + (150 + e - c) * 0x80_0000 + v * pow2(c) - 0x80_0000
        } else {
            s * 0x8000_0000 + v * pow2((e + 149) as nat)
        }
    } else {
        let d = down_shift(v);
        if 150 + e + d >= 255 {
            s * 0x8000_0000 + 0x7F80_0000
        } else {
            s * 0x8000_0000 + (150 + e + d) * 0x80_0000 + rne(v, d) - 0x80_0000
        }
    }
}

/// Computes [`f32_of_scaled`] on machine words.
pub fn f32_bits_of_scaled(s: u32, v: u64, e: i32) -> (r: u32)
    requires
        s <= 1,
        1 <= v < 0x8_0000_0000_0000,
        -149 <= e <= 120,
    ensures
        r as int == f32_of_scaled(s as int, v as nat, e as int),
{
    proof {
        lemma2_to64();
    }
    if v < 0x100_0000 {
        let mut m: u32 = v as u32;
        let mut c: u32 = 0;
        while m < 0x80_0000
            invariant
                1 <= v < 0x100_0000,
                m == (v as nat) * pow2(c as nat),
                1 <= m,
                pow2(c as nat) <= m < 0x100_0000,
            decreases 0x100_0000 - m,
        {
            proof {
                lemma_pow2_adds(c as nat, 1);
                lemma2_to64();
                vstd::arithmetic::mul::lemma_mul_is_associative(
                    v as int,
                    pow2(c as nat) as int,
                    2,
                );
                assert(c < 23) by {
                    if c >= 23 {
                        if c > 23 {
                            lemma_pow2_strictly_increases(23, c as nat);
                        }
                        lemma2_to64();
                    }
                }
            }
            m = m * 2;
            c = c + 1;
        }
        proof {
            if v < 0x80_0000 {
                lemma_norm_shift_unique(v as nat, 0x80_0000, c as nat);
            } else {
                assert(norm_shift(v as nat, 0x80_0000) == 0);
                lemma_pow2_pos(c as nat);
                assert(pow2(c as nat) < 2) by (nonlinear_arith)
                    requires
                        m == (v as nat) * pow2(c as nat),
                        m < 0x100_0000,
                        v >= 0x80_0000,
                        pow2(c as nat) >= 1,
                ;
                if c > 0 {
                    lemma_pow2_strictly_increases(0, c as nat);
                }
            }
            assert(c <= 23) by {
                if c >= 24 {
                    if c > 24 {
                        lemma_pow2_strictly_increases(24, c as nat);
                    }
                    lemma2_to64();
                }
            }
        }
        let e32: i32 = 150 + e - (c as i32);
        if e32 >= 255 {
            (s as u32) * 0x8000_0000 + 0x7F80_0000
        } else if e32 >= 1 {
            (s as u32) * 0x8000_0000 + (e32 as u32) * 0x80_0000 + m - 0x80_0000
        } else {
            // an exact wide subnormal: shift the value to the fixed
            // subnormal scale
            let sh: u32 = (e + 149) as u32;
            proof {
                assert(sh < c);
                lemma_pow2_adds(sh as nat, 1);
                assert(pow2(sh as nat + 1) <= pow2(c as nat)) by {
                    if sh as nat + 1 < c as nat {
                        lemma_pow2_strictly_increases(sh as nat + 1, c as nat);
                    }
                }
                assert((v as nat) * pow2(sh as nat) < 0x80_0000) by (nonlinear_arith)
                    requires
                        m == (v as nat) * pow2(c as nat),
                        m < 0x100_0000,
                        pow2(sh as nat) * 2 <= pow2(c as nat),
                ;
                vstd::bits::lemma_u64_pow2_no_overflow(sh as nat);
                vstd::bits::lemma_u64_shl_is_mul(v, sh as u64);
            }
            (s as u32) * 0x8000_0000 + ((v << (sh as u64)) as u32)
        }
    } else {
        let mut m: u64 = v;
        let mut d: u32 = 0;
        let mut divisor: u64 = 1;
        while m >= 0x100_0000
            invariant
                0x100_0000 <= v < 0x8_0000_0000_0000,
                m == (v as nat) / pow2(d as nat),
                divisor == pow2(d as nat),
                (v as nat) >= pow2(23 + d as nat),
            decreases m,
        {
            proof {
                lemma_pow2_pos(d as nat);
                lemma_pow2_adds(d as nat, 1);
                lemma2_to64();
                vstd::arithmetic::div_mod::lemma_div_denominator(
                    v as int,
                    pow2(d as nat) as int,
                    2,
                );
                lemma_fundamental_div_mod(v as int, pow2(d as nat) as int);
                assert((v as nat) >= pow2(24 + d as nat)) by {
                    vstd::arithmetic::mul::lemma_mul_inequality(
                        0x100_0000,
                        m as int,
                        pow2(d as nat) as int,
                    );
                    vstd::arithmetic::mul::lemma_mul_is_commutative(
                        m as int,
                        pow2(d as nat) as int,
                    );
                    lemma_pow2_adds(24, d as nat);
                    vstd::arithmetic::mul::lemma_mul_is_commutative(
                        0x100_0000,
                        pow2(d as nat) as int,
                    );
                }
                assert(24 + d as nat <= 51) by {
                    if 24 + d as nat >= 52 {
                        vstd::arithmetic::power2::lemma2_to64_rest();
                        if 24 + d as nat > 52 {
                            lemma_pow2_strictly_increases(52, 24 + d as nat);
                        }
                    }
                }
            }
            m = m / 2;
            divisor = divisor * 2;
            d = d + 1;
        }
        proof {
            lemma_pow2_pos(d as nat);
            lemma_fundamental_div_mod(v as int, pow2(d as nat) as int);
            assert((v as nat) < pow2(24 + d as nat)) by {
                vstd::arithmetic::mul::lemma_mul_inequality(
                    (m + 1) as int,
                    0x100_0000,
                    pow2(d as nat) as int,
                );
                vstd::arithmetic::mul::lemma_mul_is_commutative(
                    (m + 1) as int,
                    pow2(d as nat) as int,
                );
                vstd::arithmetic::mul::lemma_mul_is_commutative(0x100_0000, pow2(d as nat) as int);
                lemma_pow2_adds(24, d as nat);
                vstd::arithmetic::mul::lemma_mul_is_distributive_add_other_way(
                    pow2(d as nat) as int,
                    m as int,
                    1,
                );
            }
            lemma_down_shift_unique(v as nat, d as nat);
            assert(m >= 0x80_0000) by {
                lemma_pow2_adds(23, d as nat);
                vstd::arithmetic::div_mod::lemma_div_by_multiple(
                    0x80_0000,
                    pow2(d as nat) as int,
                );
                vstd::arithmetic::div_mod::lemma_div_is_ordered(
                    (0x80_0000 * pow2(d as nat)) as int,
                    v as int,
                    pow2(d as nat) as int,
                );
                vstd::arithmetic::mul::lemma_mul_is_commutative(0x80_0000, pow2(d as nat) as int);
            }
            assert(d <= 28) by {
                if 23 + d as nat >= 52 {
                    vstd::arithmetic::power2::lemma2_to64_rest();
                    if 23 + d as nat > 52 {
                        lemma_pow2_strictly_increases(52, 23 + d as nat);
                    }
                }
            }
        }
        let e32: i32 = 150 + e + (d as i32);
        if e32 >= 255 {
            (s as u32) * 0x8000_0000 + 0x7F80_0000
        } else {
            let q: u64 = m;
            let rem: u64 = v % divisor;
            let up: bool = 2 * rem > divisor || (2 * rem == divisor && q % 2 == 1);
            let sig: u32 = if up {
                (q + 1) as u32
            } else {
                q as u32
            };
            proof {
                assert(d >= 1) by {
                    if d == 0 {
                        assert(pow2(0) == 1);
                    }
                }
            }
            (s as u32) * 0x8000_0000 + (e32 as u32) * 0x80_0000 + (sig - 0x80_0000)
        }
    }
}

} // verus!
