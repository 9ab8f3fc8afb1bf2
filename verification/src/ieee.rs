//! The order of IEEE-754 single-precision numbers, over their bit patterns.
//!
//! A sensor value or a computed one reaches a rule as the 32 bits of an f32.
//! What the rules ask of it is only how it compares with a threshold.

use vstd::arithmetic::power2::{
    lemma2_to64, lemma_pow2_adds, lemma_pow2_pos, lemma_pow2_strictly_increases, pow2,
};
use vstd::prelude::*;

verus! {

/// The bits below the sign: exponent and fraction.
pub open spec fn magnitude_bits(bits: u32) -> int {
    bits as int % 0x8000_0000
}

/// The pattern stands for no number.
pub open spec fn is_nan(bits: u32) -> bool {
    magnitude_bits(bits) > 0x7f80_0000
}

/// The absolute value in units of 2^-149, the smallest step there is. The
/// pattern of infinity gives a value above all finite ones.
pub open spec fn scaled_magnitude(m: int) -> int {
    let exponent = m / 0x80_0000;
    let fraction = m % 0x80_0000;
    if exponent == 0 {
        fraction
    } else {
        (0x80_0000 + fraction) * pow2((exponent - 1) as nat)
    }
}

/// The value in units of 2^-149.
pub open spec fn scaled(bits: u32) -> int {
    if bits >= 0x8000_0000 {
        -scaled_magnitude(magnitude_bits(bits))
    } else {
        scaled_magnitude(magnitude_bits(bits))
    }
}

/// A whole number in units of 2^-149.
pub open spec fn scaled_int(n: int) -> int {
    n * pow2(149)
}

/// More magnitude bits, more magnitude.
proof fn lemma_magnitude_order(a: int, b: int)
    requires
        0 <= a < b,
    ensures
        0 <= scaled_magnitude(a) < scaled_magnitude(b),
{
    let e = a / 0x80_0000;
    let f = b / 0x80_0000;
    let p = a % 0x80_0000;
    let q = b % 0x80_0000;
    assert(e <= f);
    if e == f {
        assert(p < q);
        if e > 0 {
            let unit = pow2((e - 1) as nat);
            lemma_pow2_pos((e - 1) as nat);
            assert(0 < (0x80_0000 + p) * unit < (0x80_0000 + q) * unit) by (nonlinear_arith)
                requires
                    0 <= p < q,
                    unit > 0,
            ;
        }
    } else {
        let above = pow2((f - 1) as nat);
        lemma_pow2_pos((f - 1) as nat);
        assert(scaled_magnitude(b) >= 0x80_0000 * above) by (nonlinear_arith)
            requires
                scaled_magnitude(b) == (0x80_0000 + q) * above,
                q >= 0,
                above > 0,
        ;
        if e > 0 {
            let below = pow2((e - 1) as nat);
            lemma_pow2_pos((e - 1) as nat);
            vstd::arithmetic::power2::lemma_pow2_unfold(e as nat);
            assert(pow2(e as nat) == 2 * below);
            if e < f - 1 {
                lemma_pow2_strictly_increases(e as nat, (f - 1) as nat);
            }
            assert(2 * below <= above);
            assert(0 < (0x80_0000 + p) * below < 0x80_0000 * above) by (nonlinear_arith)
                requires
                    0 <= p < 0x80_0000,
                    0 < below,
                    2 * below <= above,
            ;
        }
    }
}

/// Whether the number with the pattern `a` is at most the one with the pattern
/// `b`. Not a number is at most nothing, and nothing is at most it.
pub fn at_most(a: u32, b: u32) -> (yes: bool)
    ensures
        yes == (!is_nan(a) && !is_nan(b) && scaled(a) <= scaled(b)),
{
    let m: u32 = a % 0x8000_0000;
    let n: u32 = b % 0x8000_0000;
    if m > 0x7f80_0000 || n > 0x7f80_0000 {
        return false;
    }
    proof {
        if m < n {
            lemma_magnitude_order(m as int, n as int);
        }
        if n < m {
            lemma_magnitude_order(n as int, m as int);
        }
        if 0 < m {
            lemma_magnitude_order(0, m as int);
        }
        if 0 < n {
            lemma_magnitude_order(0, n as int);
        }
    }
    if a < 0x8000_0000 {
        if b < 0x8000_0000 {
            m <= n
        } else {
            m == 0 && n == 0
        }
    } else {
        if b < 0x8000_0000 {
            true
        } else {
            n <= m
        }
    }
}

/// Whether the number with the pattern `a` is less than the one with the
/// pattern `b`. Not a number is less than nothing, and nothing is less than it.
pub fn less(a: u32, b: u32) -> (yes: bool)
    ensures
        yes == (!is_nan(a) && !is_nan(b) && scaled(a) < scaled(b)),
{
    at_most(a, b) && !at_most(b, a)
}

/// The pattern of a whole number `mantissa / 2^23 * 2^(exponent - 127)`.
proof fn lemma_whole(bits: u32, exponent: int, significand: int, n: int, shift: nat)
    requires
        bits < 0x7f80_0000,
        exponent == bits as int / 0x80_0000,
        exponent > 0,
        significand == 0x80_0000 + bits as int % 0x80_0000,
        exponent - 1 <= 149,
        shift == 149 - (exponent - 1),
        significand == n * pow2(shift),
    ensures
        !is_nan(bits),
        scaled(bits) == scaled_int(n),
{
    lemma_pow2_adds(shift, (exponent - 1) as nat);
    let a = pow2(shift) as int;
    let b = pow2((exponent - 1) as nat) as int;
    assert((n * a) * b == n * (a * b)) by (nonlinear_arith);
}

/// The patterns of the whole numbers that the rules compare with.
pub proof fn lemma_thresholds()
    ensures
        scaled(0x4000_0000) == scaled_int(2),
        scaled(0x4120_0000) == scaled_int(10),
        scaled(0x43d2_0000) == scaled_int(420),
        scaled(0x4422_8000) == scaled_int(650),
        scaled(0x447a_0000) == scaled_int(1000),
        scaled(0x44bb_8000) == scaled_int(1500),
        !is_nan(0x4000_0000),
        !is_nan(0x4120_0000),
        !is_nan(0x43d2_0000),
        !is_nan(0x4422_8000),
        !is_nan(0x447a_0000),
        !is_nan(0x44bb_8000),
{
    lemma2_to64();
    lemma_whole(0x4000_0000, 128, 0x80_0000, 2, 22);
    lemma_whole(0x4120_0000, 130, 0xa0_0000, 10, 20);
    lemma_whole(0x43d2_0000, 135, 0xd2_0000, 420, 15);
    lemma_whole(0x4422_8000, 136, 0xa2_8000, 650, 14);
    lemma_whole(0x447a_0000, 136, 0xfa_0000, 1000, 14);
    lemma_whole(0x44bb_8000, 137, 0xbb_8000, 1500, 13);
}

// ---------------------------------------------------------------------------
// Laws
// ---------------------------------------------------------------------------

/// The values go up step by step with the patterns: from zero, each step is one unit below
/// the first power of two that has a full significand, and doubles at every further one.
pub proof fn law_values_step_up(bits: u32)
    requires
        bits < 0x7f80_0000,
    ensures
        scaled(0) == 0,
        scaled((bits + 1) as u32) - scaled(bits) == pow2(
            if bits < 0x80_0000 {
                0
            } else {
                (bits as int / 0x80_0000 - 1) as nat
            },
        ),
{
    lemma2_to64();
    let e = bits as int / 0x80_0000;
    let f = bits as int % 0x80_0000;
    let up = bits as int + 1;
    if f == 0x7f_ffff {
        assert(up / 0x80_0000 == e + 1 && up % 0x80_0000 == 0);
        if e > 0 {
            let unit = pow2((e - 1) as nat) as int;
            vstd::arithmetic::power2::lemma_pow2_unfold(e as nat);
            assert(pow2(e as nat) == 2 * unit);
            assert(0x80_0000 * (2 * unit) - (0x80_0000 + 0x7f_ffff) * unit == unit)
                by (nonlinear_arith);
        }
    } else {
        assert(up / 0x80_0000 == e && up % 0x80_0000 == f + 1);
        if e > 0 {
            let unit = pow2((e - 1) as nat) as int;
            assert((0x80_0000 + (f + 1)) * unit - (0x80_0000 + f) * unit == unit)
                by (nonlinear_arith);
        }
    }
}

/// Whole numbers are multiples of one, which is 2^149 of the smallest steps.
pub proof fn law_whole_numbers(a: int, b: int)
    ensures
        scaled_int(1) == pow2(149),
        scaled_int(a + b) == scaled_int(a) + scaled_int(b),
{
    assert((a + b) * pow2(149) == a * pow2(149) + b * pow2(149)) by (nonlinear_arith);
}

/// The top bit turns a value into its negative, and nothing but a number has a value: past
/// the pattern of infinity there is none.
pub proof fn law_sign_and_nan(bits: u32)
    requires
        bits < 0x8000_0000,
    ensures
        scaled((bits + 0x8000_0000) as u32) == -scaled(bits),
        is_nan(bits) <==> bits > 0x7f80_0000,
        is_nan((bits + 0x8000_0000) as u32) <==> is_nan(bits),
{
}

} // verus!
