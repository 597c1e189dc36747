//! Numbers as they arrive in control messages: double-precision values, carried as their
//! IEEE 754 bit patterns.

use vstd::arithmetic::power2::{lemma2_to64, lemma2_to64_rest, lemma_pow2_pos, lemma_pow2_strictly_increases, pow2};
use vstd::bits::{lemma_u64_shl_is_mul, lemma_u64_shr_is_div};
use vstd::prelude::*;

verus! {

/// 2^52, the weight of the lowest exponent bit and of the implicit leading one.
pub const HIDDEN_BIT: u64 = 0x10_0000_0000_0000;

/// 2^63, the weight of the sign bit.
pub const SIGN_BIT: u64 = 0x8000_0000_0000_0000;

/// The biased exponent of the double with bit pattern `bits`.
pub open spec fn double_exponent(bits: u64) -> int {
    (bits as int / HIDDEN_BIT as int) % 2048
}

/// The fraction bits of the double with bit pattern `bits`.
pub open spec fn double_fraction(bits: u64) -> int {
    bits as int % HIDDEN_BIT as int
}

/// Whether `bits` encodes no number.
pub open spec fn double_is_nan(bits: u64) -> bool {
    double_exponent(bits) == 2047 && double_fraction(bits) != 0
}

/// The integer part of the absolute value of the finite double with bit pattern `bits`: its
/// significand times a power of two, rounded down.
pub open spec fn double_magnitude(bits: u64) -> int {
    let exponent = double_exponent(bits);
    let significand = double_fraction(bits) + if exponent == 0 { 0 } else { HIDDEN_BIT as int };
    let scale = if exponent == 0 { 1 - 1075 } else { exponent - 1075 };
    if scale >= 0 {
        significand * pow2(scale as nat)
    } else {
        significand / (pow2((-scale) as nat) as int)
    }
}

/// The double with bit pattern `bits`, rounded toward zero and limited to the range of `i64`;
/// 0 when it is no number.
pub open spec fn double_to_integer(bits: u64) -> int {
    let infinite = double_exponent(bits) == 2047;
    if double_is_nan(bits) {
        0
    } else if bits >= SIGN_BIT {
        if infinite || -double_magnitude(bits) < i64::MIN {
            i64::MIN as int
        } else {
            -double_magnitude(bits)
        }
    } else {
        if infinite || double_magnitude(bits) > i64::MAX {
            i64::MAX as int
        } else {
            double_magnitude(bits)
        }
    }
}

/// Below 1 the integer part is 0, and from 2^63 on it is out of reach of `i64`.
proof fn lemma_magnitude_range(bits: u64)
    ensures
        double_exponent(bits) < 1023 ==> double_magnitude(bits) == 0,
        1086 <= double_exponent(bits) ==> double_magnitude(bits) >= SIGN_BIT,
{
    let exponent = double_exponent(bits);
    let fraction = double_fraction(bits);
    lemma2_to64();
    lemma2_to64_rest();
    if exponent < 1023 {
        let significand = fraction + if exponent == 0 { 0 } else { HIDDEN_BIT as int };
        let down = if exponent == 0 { 1074nat } else { (1075 - exponent) as nat };
        if down > 53 {
            lemma_pow2_strictly_increases(53, down);
        }
        vstd::arithmetic::div_mod::lemma_basic_div(significand, pow2(down) as int);
    } else if 1086 <= exponent {
        let significand = fraction + HIDDEN_BIT;
        let up = (exponent - 1075) as nat;
        if up > 11 {
            lemma_pow2_strictly_increases(11, up);
        }
        assert(pow2(11) == 2048);
        assert(significand * pow2(up) >= HIDDEN_BIT * 2048) by (nonlinear_arith)
            requires
                significand >= HIDDEN_BIT,
                pow2(up) >= 2048,
        ;
    }
}

/// Converts the double with bit pattern `bits` to an integer.
pub fn integer_of_double(bits: u64) -> (r: i64)
    ensures
        r == double_to_integer(bits),
{
    let exponent: u64 = (bits / HIDDEN_BIT) % 2048;
    let fraction: u64 = bits % HIDDEN_BIT;
    let negative = bits >= SIGN_BIT;
    proof {
        lemma_magnitude_range(bits);
    }
    if exponent == 2047 && fraction != 0 {
        0
    } else if exponent < 1023 {
        0
    } else if exponent >= 1086 {
        if negative {
            i64::MIN
        } else {
            i64::MAX
        }
    } else {
        let significand: u64 = fraction + HIDDEN_BIT;
        let magnitude: u64 = if exponent >= 1075 {
            let up: u64 = exponent - 1075;
            proof {
                lemma2_to64();
                lemma_pow2_pos(up as nat);
                if up < 10 {
                    lemma_pow2_strictly_increases(up as nat, 10);
                }
                assert(significand * pow2(up as nat) < SIGN_BIT) by (nonlinear_arith)
                    requires
                        significand < 2 * HIDDEN_BIT,
                        0 < pow2(up as nat) <= 1024,
                ;
                lemma_u64_shl_is_mul(significand, up);
            }
            significand << up
        } else {
            let down: u64 = 1075 - exponent;
            proof {
                lemma_pow2_pos(down as nat);
                lemma_u64_shr_is_div(significand, down);
                vstd::arithmetic::div_mod::lemma_div_is_ordered_by_denominator(
                    significand as int,
                    1,
                    pow2(down as nat) as int,
                );
            }
            significand >> down
        };
        if negative {
            -(magnitude as i64)
        } else {
            magnitude as i64
        }
    }
}

/// A double stands for its sign, 52 bits of fraction below a leading one, and a power of two.
/// As an integer it keeps its sign and loses what is behind the point: it is 0 below 1, exact
/// from 2^52 on, and limited to the range of `i64` from 2^63 on; what is no number is 0.
pub proof fn law_integer_of_double(bits: u64)
    ensures
        ({
            let r = double_to_integer(bits);
            let size = if r < 0 { -r } else { r };
            let negative = bits >= 0x8000_0000_0000_0000;
            let exponent = (bits as int / 0x10_0000_0000_0000) % 2048;
            let fraction = bits as int % 0x10_0000_0000_0000;
            let significand = 0x10_0000_0000_0000 + fraction;
            &&& negative ==> r <= 0
            &&& !negative ==> r >= 0
            &&& exponent == 2047 && fraction != 0 ==> r == 0
            &&& exponent < 1023 ==> r == 0
            &&& 1023 <= exponent < 1075 ==> size * pow2((1075 - exponent) as nat) <= significand < (
            size + 1) * pow2((1075 - exponent) as nat)
            &&& 1075 <= exponent < 1086 ==> size == significand * pow2((exponent - 1075) as nat)
            &&& 1086 <= exponent && !(exponent == 2047 && fraction != 0) ==> r == (if negative {
                -0x8000_0000_0000_0000
            } else {
                0x7FFF_FFFF_FFFF_FFFF
            })
        }),
{
    let exponent = double_exponent(bits);
    let significand = HIDDEN_BIT + double_fraction(bits);
    lemma_magnitude_range(bits);
    if 1023 <= exponent < 1075 {
        let unit = pow2((1075 - exponent) as nat) as int;
        lemma_pow2_pos((1075 - exponent) as nat);
        vstd::arithmetic::div_mod::lemma_fundamental_div_mod(significand, unit);
        vstd::arithmetic::div_mod::lemma_mod_bound(significand, unit);
        vstd::arithmetic::div_mod::lemma_div_is_ordered_by_denominator(significand, 1, unit);
        vstd::arithmetic::div_mod::lemma_div_pos_is_pos(significand, unit);
        let size = significand / unit;
        vstd::arithmetic::mul::lemma_mul_is_commutative(size, unit);
        vstd::arithmetic::mul::lemma_mul_is_distributive_add_other_way(unit, size, 1);
    } else if 1075 <= exponent < 1086 {
        let up = (exponent - 1075) as nat;
        lemma2_to64();
        lemma_pow2_pos(up);
        if up < 10 {
            lemma_pow2_strictly_increases(up, 10);
        }
        assert(0 < significand * pow2(up) < SIGN_BIT) by (nonlinear_arith)
            requires
                0 < significand < 2 * HIDDEN_BIT,
                0 < pow2(up) <= 1024,
        ;
    }
}

} // verus!
