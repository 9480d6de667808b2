//! Round-to-nearest-even over powers of two: the arithmetic core that every
//! wide-to-narrow conversion shares, together with the normalization count
//! used when a subnormal mantissa is widened.

use vstd::arithmetic::div_mod::{
    lemma_fundamental_div_mod, lemma_fundamental_div_mod_converse,
};
use vstd::arithmetic::power2::{lemma2_to64, lemma_pow2_adds, lemma_pow2_pos, pow2};
use vstd::bits::lemma_u64_shl_is_mul;
use vstd::prelude::*;

verus! {

/// `x / 2^k` rounded to the nearest integer; an exact tie goes to the even
/// neighbour.
pub open spec fn rne(x: nat, k: nat) -> nat {
    let q = x / pow2(k);
    let r = x % pow2(k);
    if 2 * r > pow2(k) || (2 * r == pow2(k) && q % 2 == 1) {
        q + 1
    } else {
        q
    }
}

/// Discarding only zero bits rounds exactly.
pub proof fn lemma_rne_exact(x: nat, k: nat)
    requires
        x % pow2(k) == 0,
    ensures
        rne(x, k) == x / pow2(k),
        rne(x, k) * pow2(k) == x,
{
    lemma_pow2_pos(k);
    lemma_fundamental_div_mod(x as int, pow2(k) as int);
}

/// A multiple of `2^k` is recovered exactly.
pub proof fn lemma_rne_of_multiple(a: nat, k: nat)
    ensures
        rne(a * pow2(k), k) == a,
{
    lemma_pow2_pos(k);
    lemma_fundamental_div_mod_converse((a * pow2(k)) as int, pow2(k) as int, a as int, 0);
    lemma_rne_exact(a * pow2(k), k);
}

/// Anything strictly below half of `2^k` rounds down to zero.
pub proof fn lemma_rne_zero(x: nat, k: nat)
    requires
        2 * x < pow2(k),
    ensures
        rne(x, k) == 0,
{
    lemma_pow2_pos(k);
    lemma_fundamental_div_mod_converse(x as int, pow2(k) as int, 0, x as int);
}

/// The rounded value never exceeds a bound that the input keeps clear of.
pub proof fn lemma_rne_bound(x: nat, k: nat, a: nat)
    requires
        x < a * pow2(k),
    ensures
        rne(x, k) <= a,
{
    lemma_pow2_pos(k);
    lemma_fundamental_div_mod(x as int, pow2(k) as int);
    let q = x / pow2(k);
    assert(q < a) by {
        if q >= a {
            vstd::arithmetic::mul::lemma_mul_inequality(
                a as int,
                q as int,
                pow2(k) as int,
            );
        }
    }
}

/// The rounded value reaches any bound that the input covers.
pub proof fn lemma_rne_low(x: nat, k: nat, a: nat)
    requires
        x >= a * pow2(k),
    ensures
        rne(x, k) >= a,
{
    lemma_pow2_pos(k);
    lemma_fundamental_div_mod(x as int, pow2(k) as int);
    let q = x / pow2(k);
    assert(q >= a) by {
        if q < a {
            vstd::arithmetic::mul::lemma_mul_inequality((q + 1) as int, a as int, pow2(k) as int);
            vstd::arithmetic::mul::lemma_mul_is_commutative(q as int, pow2(k) as int);
            vstd::arithmetic::mul::lemma_mul_is_commutative(a as int, pow2(k) as int);
            vstd::arithmetic::mul::lemma_mul_is_distributive_add_other_way(
                pow2(k) as int,
                q as int,
                1,
            );
        }
    }
}

/// Computes `rne(m, sh)` on machine words.
pub fn rne_u64(m: u64, sh: u64) -> (r: u64)
    requires
        sh < 64,
        m < 0x8000_0000_0000_0000,
    ensures
        r == rne(m as nat, sh as nat),
        r <= 0x8000_0000_0000_0000u64,
{
    proof {
        vstd::bits::lemma_u64_pow2_no_overflow(sh as nat);
        lemma_u64_shl_is_mul(1u64, sh);
        lemma_pow2_pos(sh as nat);
    }
    let divisor: u64 = 1u64 << sh;
    let q: u64 = m / divisor;
    let rem: u64 = m % divisor;
    proof {
        if sh < 63 {
            vstd::arithmetic::power2::lemma_pow2_strictly_increases(sh as nat, 63);
        }
        lemma2_to64();
        vstd::arithmetic::power2::lemma2_to64_rest();
    }
    let up: bool = 2 * rem > divisor || (2 * rem == divisor && q % 2 == 1);
    proof {
        lemma_fundamental_div_mod(m as int, divisor as int);
    }
    if up {
        q + 1
    } else {
        q
    }
}

/// How many doublings a positive mantissa needs before it reaches `top`:
/// the number of left shifts that normalization performs.
pub open spec fn norm_shift(m: nat, top: nat) -> nat
    recommends
        1 <= m < top,
    decreases top - m,
{
    if m >= top || m == 0 {
        0
    } else if 2 * m >= top {
        1
    } else {
        1 + norm_shift(2 * m, top)
    }
}

/// Normalization lands in `[top, 2*top)` and shifts at least once.
pub proof fn lemma_norm_shift(m: nat, top: nat)
    requires
        1 <= m < top,
    ensures
        1 <= norm_shift(m, top),
        top <= m * pow2(norm_shift(m, top)) < 2 * top,
    decreases top - m,
{
    let c = norm_shift(m, top);
    if 2 * m >= top {
        assert(c == 1);
        lemma2_to64();
        assert(m * pow2(1) == 2 * m);
    } else {
        lemma_norm_shift(2 * m, top);
        let c2 = norm_shift(2 * m, top);
        lemma_pow2_adds(1, c2);
        lemma2_to64();
        assert(m * pow2(c) == m * (2 * pow2(c2))) by {
            assert(pow2(c) == pow2(1) * pow2(c2));
        }
        assert(m * (2 * pow2(c2)) == (2 * m) * pow2(c2)) by {
            vstd::arithmetic::mul::lemma_mul_is_associative(m as int, 2, pow2(c2) as int);
        }
    }
}

/// `p / d` rounded to the nearest integer; an exact tie goes to the even
/// neighbour. The rational counterpart of [`rne`], used where a quotient of
/// significands is rounded.
pub open spec fn rne_frac(p: nat, d: nat) -> nat
    recommends
        d > 0,
{
    let q = p / d;
    let r = p % d;
    if 2 * r > d || (2 * r == d && q % 2 == 1) {
        q + 1
    } else {
        q
    }
}

/// Anything strictly below half of the divisor rounds down to zero.
pub proof fn lemma_rne_frac_zero(p: nat, d: nat)
    requires
        2 * p < d,
    ensures
        rne_frac(p, d) == 0,
{
    lemma_fundamental_div_mod_converse(p as int, d as int, 0, p as int);
}

/// The rounded quotient never exceeds a bound that the dividend keeps clear
/// of.
pub proof fn lemma_rne_frac_bound(p: nat, d: nat, a: nat)
    requires
        d > 0,
        p < a * d,
    ensures
        rne_frac(p, d) <= a,
{
    lemma_fundamental_div_mod(p as int, d as int);
    let q = p / d;
    assert(q < a) by {
        if q >= a {
            vstd::arithmetic::mul::lemma_mul_inequality(a as int, q as int, d as int);
            vstd::arithmetic::mul::lemma_mul_is_commutative(q as int, d as int);
            vstd::arithmetic::mul::lemma_mul_is_commutative(a as int, d as int);
        }
    }
}

/// The rounded quotient reaches any bound that the dividend covers.
pub proof fn lemma_rne_frac_low(p: nat, d: nat, a: nat)
    requires
        d > 0,
        p >= a * d,
    ensures
        rne_frac(p, d) >= a,
{
    lemma_fundamental_div_mod(p as int, d as int);
    let q = p / d;
    assert(q >= a) by {
        if q < a {
            vstd::arithmetic::mul::lemma_mul_inequality((q + 1) as int, a as int, d as int);
            vstd::arithmetic::mul::lemma_mul_is_commutative(q as int, d as int);
            vstd::arithmetic::mul::lemma_mul_is_commutative(a as int, d as int);
            vstd::arithmetic::mul::lemma_mul_is_distributive_add_other_way(d as int, q as int, 1);
        }
    }
}

/// Computes `rne_frac(p, d)` on machine words.
pub fn rne_frac_u64(p: u64, d: u64) -> (r: u64)
    requires
        1 <= d < 0x8000_0000_0000_0000,
    ensures
        r == rne_frac(p as nat, d as nat),
{
    let q: u64 = p / d;
    let rem: u64 = p % d;
    proof {
        lemma_fundamental_div_mod(p as int, d as int);
    }
    let up: bool = 2 * rem > d || (2 * rem == d && q % 2 == 1);
    if up {
        proof {
            vstd::arithmetic::div_mod::lemma_div_is_ordered_by_denominator(p as int, 2, d as int);
        }
        q + 1
    } else {
        q
    }
}

/// Shifts a positive subnormal mantissa left until it reaches `[top, 2*top)`,
/// returning the normalized mantissa and the shift count.
pub fn normalize(f: u32, top: u32) -> (r: (u32, u32))
    requires
        1 <= f < top,
        top <= 0x8000,
    ensures
        r.1 == norm_shift(f as nat, top as nat),
        r.0 == f * pow2(r.1 as nat),
        top <= r.0 < 2 * top,
        pow2(r.1 as nat) <= r.0,
{
    proof {
        lemma2_to64();
    }
    let mut m: u32 = f;
    let mut c: u32 = 0;
    while m < top
        invariant
            1 <= f < top,
            top <= 0x8000,
            m == f * pow2(c as nat),
            1 <= m,
            pow2(c as nat) <= m < 2 * top,
        decreases 2 * top - m,
    {
        proof {
            lemma_pow2_adds(c as nat, 1);
            lemma2_to64();
            vstd::arithmetic::mul::lemma_mul_is_associative(
                f as int,
                pow2(c as nat) as int,
                2,
            );
            if c >= 15 {
                if c > 15 {
                    vstd::arithmetic::power2::lemma_pow2_strictly_increases(15, c as nat);
                }
            }
        }
        m = m * 2;
        c = c + 1;
    }
    proof {
        lemma_norm_shift_unique(f as nat, top as nat, c as nat);
    }
    (m, c)
}

/// Only one shift count lands the mantissa in `[top, 2*top)`.
pub proof fn lemma_norm_shift_unique(m: nat, top: nat, c: nat)
    requires
        1 <= m < top,
        top <= m * pow2(c) < 2 * top,
    ensures
        norm_shift(m, top) == c,
{
    let c0 = norm_shift(m, top);
    lemma_norm_shift(m, top);
    if c0 < c {
        lemma_pow2_adds(c0, (c - c0) as nat);
        lemma_pow2_pos((c - c0) as nat);
        assert(pow2((c - c0) as nat) >= 2) by {
            vstd::arithmetic::power2::lemma_pow2_strictly_increases(0, (c - c0) as nat);
            lemma2_to64();
        }
        assert(m * pow2(c) == (m * pow2(c0)) * pow2((c - c0) as nat)) by {
            vstd::arithmetic::mul::lemma_mul_is_associative(
                m as int,
                pow2(c0) as int,
                pow2((c - c0) as nat) as int,
            );
        }
        assert((m * pow2(c0)) * pow2((c - c0) as nat) >= (m * pow2(c0)) * 2) by {
            vstd::arithmetic::mul::lemma_mul_inequality(
                2,
                pow2((c - c0) as nat) as int,
                (m * pow2(c0)) as int,
            );
            vstd::arithmetic::mul::lemma_mul_is_commutative(
                (m * pow2(c0)) as int,
                pow2((c - c0) as nat) as int,
            );
            vstd::arithmetic::mul::lemma_mul_is_commutative((m * pow2(c0)) as int, 2);
        }
    } else if c < c0 {
        lemma_pow2_adds(c, (c0 - c) as nat);
        lemma_pow2_pos((c0 - c) as nat);
        assert(pow2((c0 - c) as nat) >= 2) by {
            vstd::arithmetic::power2::lemma_pow2_strictly_increases(0, (c0 - c) as nat);
            lemma2_to64();
        }
        assert(m * pow2(c0) == (m * pow2(c)) * pow2((c0 - c) as nat)) by {
            vstd::arithmetic::mul::lemma_mul_is_associative(
                m as int,
                pow2(c) as int,
                pow2((c0 - c) as nat) as int,
            );
        }
        assert((m * pow2(c)) * pow2((c0 - c) as nat) >= (m * pow2(c)) * 2) by {
            vstd::arithmetic::mul::lemma_mul_inequality(
                2,
                pow2((c0 - c) as nat) as int,
                (m * pow2(c)) as int,
            );
            vstd::arithmetic::mul::lemma_mul_is_commutative(
                (m * pow2(c)) as int,
                pow2((c0 - c) as nat) as int,
            );
            vstd::arithmetic::mul::lemma_mul_is_commutative((m * pow2(c)) as int, 2);
        }
    }
}

} // verus!
