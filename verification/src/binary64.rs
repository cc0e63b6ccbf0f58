//! The binary64 floating-point format, on its bit patterns.
//!
//! A pattern is a `u64`: one sign bit, eleven exponent bits, fifty-two
//! fraction bits. The magnitude of a finite pattern is stated as a natural
//! number in units of `2^-1074`, the weight of the last fraction bit of a
//! subnormal number, so that every finite value is a whole number of units.

use vstd::prelude::*;
use vstd::arithmetic::power2::{
    pow2,
    lemma2_to64,
    lemma2_to64_rest,
    lemma_pow2_adds,
    lemma_pow2_pos,
    lemma_pow2_unfold,
};
use vstd::arithmetic::div_mod::{
    lemma_div_is_ordered,
    lemma_fundamental_div_mod,
    lemma_fundamental_div_mod_converse,
};
use vstd::bits::{
    lemma_u64_shl_is_mul,
    lemma_u64_shr_is_div,
};
use crate::rounding::{
    add_aligned,
    half_bias,
    lemma_biased_sum,
    lemma_pow2_monotonic,
    lemma_round_aligned,
    lemma_scaled_quotient,
    round_nearest_even,
};

verus! {

/// The sign bit.
pub const SIGN_MASK: u64 = 0x8000_0000_0000_0000;

/// Everything but the sign bit.
pub const MAGNITUDE_MASK: u64 = 0x7FFF_FFFF_FFFF_FFFF;

/// The fraction bits.
pub const FRACTION_MASK: u64 = 0x000F_FFFF_FFFF_FFFF;

/// The bit that a normal number's significand has above its fraction.
pub const HIDDEN_BIT: u64 = 0x0010_0000_0000_0000;

/// The first fraction bit, which marks a NaN as quiet.
pub const QUIET_BIT: u64 = 0x0008_0000_0000_0000;

/// The pattern of positive infinity.
pub const INFINITY: u64 = 0x7FF0_0000_0000_0000;

/// The pattern of the positive quiet NaN with an empty payload.
pub const QUIET_NAN: u64 = 0x7FF8_0000_0000_0000;

/// Whether the sign bit is set.
pub open spec fn is_negative(x: u64) -> bool {
    x >= 0x8000_0000_0000_0000
}

/// The eleven exponent bits, as a number.
pub open spec fn exponent_field(x: u64) -> nat {
    ((x / 0x10_0000_0000_0000) % 0x800) as nat
}

/// The fifty-two fraction bits, as a number.
pub open spec fn fraction(x: u64) -> nat {
    (x % 0x10_0000_0000_0000) as nat
}

pub open spec fn is_nan(x: u64) -> bool {
    exponent_field(x) == 2047 && fraction(x) != 0
}

pub open spec fn is_infinite(x: u64) -> bool {
    exponent_field(x) == 2047 && fraction(x) == 0
}

/// Zero, subnormal or normal.
pub open spec fn is_finite(x: u64) -> bool {
    exponent_field(x) < 2047
}

/// The significand as a whole number: the fraction, with the hidden bit above
/// it unless the exponent field is zero.
pub open spec fn significand(x: u64) -> nat {
    if exponent_field(x) == 0 {
        fraction(x)
    } else {
        fraction(x) + 0x10_0000_0000_0000
    }
}

/// The power of two that the significand is multiplied by, in units of
/// `2^-1074`.
pub open spec fn scale(x: u64) -> nat {
    if exponent_field(x) == 0 {
        0
    } else {
        (exponent_field(x) - 1) as nat
    }
}

/// The magnitude of a finite pattern in units of `2^-1074`. On the pattern of
/// an infinity it is `2^2098`, the least power of two beyond every finite
/// magnitude.
pub open spec fn magnitude(x: u64) -> nat {
    significand(x) * pow2(scale(x))
}

/// The least magnitude that is too large to be finite: `2^1024`, in units of
/// `2^-1074`.
pub open spec fn overflow_threshold() -> nat {
    pow2(2098)
}

/// The pattern with the other sign.
pub open spec fn negated(x: u64) -> u64 {
    if x >= 0x8000_0000_0000_0000 {
        (x - 0x8000_0000_0000_0000) as u64
    } else {
        (x + 0x8000_0000_0000_0000) as u64
    }
}

/// `v` clamped to the range of `i64`.
pub open spec fn saturated(v: int) -> int {
    if v < -0x8000_0000_0000_0000 {
        -0x8000_0000_0000_0000
    } else if v > 0x7FFF_FFFF_FFFF_FFFF {
        0x7FFF_FFFF_FFFF_FFFF
    } else {
        v
    }
}

/// `n` with the sign of the pattern `x`.
pub open spec fn with_sign_of(x: u64, n: nat) -> int {
    if is_negative(x) {
        -(n as int)
    } else {
        n as int
    }
}

/// The value of the saturating conversion to `i64`: the whole part of the
/// number, toward zero, clamped to the range of `i64`; zero for a NaN.
pub open spec fn truncated(x: u64) -> int {
    if is_nan(x) {
        0
    } else {
        saturated(with_sign_of(x, magnitude(x) / pow2(1074)))
    }
}

/// The nearest whole number, halves away from zero, clamped to the range of
/// `i64`; zero for a NaN.
pub open spec fn rounded_half_away(x: u64) -> int {
    if is_nan(x) {
        0
    } else {
        saturated(with_sign_of(x, (magnitude(x) + pow2(1073)) / pow2(1074)))
    }
}

/// Whether rounding `x` to the nearest whole number leaves the range in which
/// every `i64` has its negative: the rounded magnitude is `2^63` or more.
pub open spec fn saturates(x: u64) -> bool {
    !is_nan(x) && (magnitude(x) + pow2(1073)) / pow2(1074) >= 0x8000_0000_0000_0000
}

/// The end of the range of `i64` on the side of `x`.
pub open spec fn range_end(x: u64) -> int {
    if is_negative(x) {
        -0x8000_0000_0000_0000
    } else {
        0x7FFF_FFFF_FFFF_FFFF
    }
}

/// Whether `r` is the sum of `a` and `b`, two patterns of one sign, rounded to
/// nearest, ties to even: a NaN operand gives the quiet NaN of that sign, an
/// infinite operand gives the infinity, and a finite sum that rounds to the
/// overflow threshold or beyond gives the infinity too.
pub open spec fn is_sum_of_same_sign(a: u64, b: u64, r: u64) -> bool {
    &&& is_negative(r) == is_negative(a)
    &&& if is_nan(a) || is_nan(b) {
        r % 0x8000_0000_0000_0000 == QUIET_NAN
    } else if is_infinite(a) || is_infinite(b) {
        is_infinite(r)
    } else {
        let s = round_nearest_even(magnitude(a) + magnitude(b), 53);
        if s < overflow_threshold() {
            is_finite(r) && magnitude(r) == s
        } else {
            is_infinite(r)
        }
    }
}

proof fn lemma_masks(x: u64)
    by (bit_vector)
    ensures
        x & 0x8000_0000_0000_0000 == (if x >= 0x8000_0000_0000_0000 {
            0x8000_0000_0000_0000u64
        } else {
            0u64
        }),
        x & 0x7FFF_FFFF_FFFF_FFFF == x % 0x8000_0000_0000_0000,
        x & 0x000F_FFFF_FFFF_FFFF == x % 0x10_0000_0000_0000,
        (x >> 52) & 0x7FF == (x / 0x10_0000_0000_0000) % 0x800,
{
}

proof fn lemma_fields_join(sign: u64, exponent: u64, fraction: u64)
    by (bit_vector)
    requires
        sign == 0 || sign == 0x8000_0000_0000_0000,
        exponent <= 2047,
        fraction < 0x10_0000_0000_0000,
    ensures
        sign | (exponent << 52) | fraction == sign + exponent * 0x10_0000_0000_0000 + fraction,
{
}

/// The sign bit of `x`, in place.
pub fn sign_of(x: u64) -> (s: u64)
    ensures
        s == if is_negative(x) {
            SIGN_MASK
        } else {
            0
        },
{
    proof {
        lemma_masks(x);
    }
    x & SIGN_MASK
}

/// `x` with the sign bit cleared.
pub fn magnitude_bits(x: u64) -> (m: u64)
    ensures
        m == x % 0x8000_0000_0000_0000,
        !is_negative(m),
        exponent_field(m) == exponent_field(x),
        fraction(m) == fraction(x),
{
    proof {
        lemma_masks(x);
    }
    x & MAGNITUDE_MASK
}

/// The exponent field of `x`.
pub fn exponent_of(x: u64) -> (e: u64)
    ensures
        e == exponent_field(x),
{
    proof {
        lemma_masks(x);
    }
    (x >> 52) & 0x7FF
}

/// The fraction field of `x`.
pub fn fraction_of(x: u64) -> (f: u64)
    ensures
        f == fraction(x),
{
    proof {
        lemma_masks(x);
    }
    x & FRACTION_MASK
}

/// The pattern with the given sign bit, exponent field and fraction.
fn assemble(sign: u64, exponent: u64, fraction: u64) -> (r: u64)
    requires
        sign == 0 || sign == SIGN_MASK,
        exponent <= 2047,
        fraction < 0x10_0000_0000_0000,
    ensures
        r == sign + exponent * 0x10_0000_0000_0000 + fraction,
        is_negative(r) == (sign == SIGN_MASK),
        exponent_field(r) == exponent,
        self::fraction(r) == fraction,
{
    proof {
        lemma_fields_join(sign, exponent, fraction);
    }
    sign | (exponent << 52) | fraction
}

/// Bounds on a magnitude from bounds on its significand and scale.
proof fn lemma_magnitude_bounds(sig: nat, j: nat)
    ensures
        sig < 0x20_0000_0000_0000 && j <= 2045 ==> sig * pow2(j) < overflow_threshold(),
        sig >= 0x10_0000_0000_0000 && j >= 2046 ==> sig * pow2(j) >= overflow_threshold(),
{
    lemma2_to64();
    lemma2_to64_rest();
    lemma_pow2_pos(j);
    if j <= 2045 {
        lemma_pow2_monotonic(j, 2045);
        lemma_pow2_adds(53, 2045);
        assert(sig < 0x20_0000_0000_0000 ==> sig * pow2(j) < 0x20_0000_0000_0000 * pow2(2045)) by (nonlinear_arith)
            requires
                0 < pow2(j) <= pow2(2045),
        ;
    } else {
        lemma_pow2_monotonic(2046, j);
        lemma_pow2_adds(52, 2046);
        assert(sig >= 0x10_0000_0000_0000 ==> sig * pow2(j) >= 0x10_0000_0000_0000 * pow2(2046)) by (nonlinear_arith)
            requires
                pow2(j) >= pow2(2046),
        ;
    }
}

/// A magnitude of a larger scale, with its leading bit set, exceeds every
/// magnitude of a smaller scale.
proof fn lemma_scale_orders(m1: nat, j1: nat, m2: nat, j2: nat)
    requires
        m1 < 0x20_0000_0000_0000,
        m2 >= 0x10_0000_0000_0000,
        j1 < j2,
    ensures
        m1 * pow2(j1) < m2 * pow2(j2),
{
    lemma_pow2_pos(j1);
    lemma_pow2_unfold(j1 + 1);
    lemma_pow2_monotonic(j1 + 1, j2);
    assert(m1 * pow2(j1) < m2 * pow2(j2)) by (nonlinear_arith)
        requires
            m1 < 0x20_0000_0000_0000,
            m2 >= 0x10_0000_0000_0000,
            pow2(j1) > 0,
            pow2(j2) >= 2 * pow2(j1),
    ;
}

/// Two finite patterns of one sign and one magnitude are the same pattern.
pub proof fn lemma_magnitude_injective(x: u64, y: u64)
    requires
        is_finite(x),
        is_finite(y),
        is_negative(x) == is_negative(y),
        magnitude(x) == magnitude(y),
    ensures
        x == y,
{
    let mx = significand(x);
    let my = significand(y);
    let jx = scale(x);
    let jy = scale(y);
    if jx < jy {
        lemma_scale_orders(mx, jx, my, jy);
    } else if jy < jx {
        lemma_scale_orders(my, jy, mx, jx);
    } else {
        lemma_pow2_pos(jx);
        assert(mx == my) by (nonlinear_arith)
            requires
                mx * pow2(jx) == my * pow2(jx),
                pow2(jx) > 0,
        ;
    }
}

/// The sum of two patterns of one sign is one pattern.
pub proof fn lemma_sum_is_unique(a: u64, b: u64, r1: u64, r2: u64)
    requires
        is_sum_of_same_sign(a, b, r1),
        is_sum_of_same_sign(a, b, r2),
    ensures
        r1 == r2,
{
    if is_finite(r1) && is_finite(r2) {
        lemma_magnitude_injective(r1, r2);
    }
}

/// The pattern of the given sign whose magnitude is `sig * 2^j`, or the
/// infinity of that sign where the magnitude is too large to be finite.
fn from_magnitude(sign: u64, sig: u64, j: u64) -> (r: u64)
    requires
        sign == 0 || sign == SIGN_MASK,
        sig <= 0x20_0000_0000_0000,
        j <= 2046,
        sig < 0x10_0000_0000_0000 ==> j == 0,
    ensures
        is_negative(r) == (sign == SIGN_MASK),
        sig * pow2(j as nat) < overflow_threshold() ==> is_finite(r) && magnitude(r) == sig * pow2(
            j as nat,
        ),
        sig * pow2(j as nat) >= overflow_threshold() ==> is_infinite(r),
{
    let mut sig: u64 = sig;
    let mut j: u64 = j;
    let ghost value = sig * pow2(j as nat);
    if sig == 0x20_0000_0000_0000 {
        proof {
            let unit = pow2(j as nat);
            lemma_pow2_unfold((j + 1) as nat);
            assert(0x20_0000_0000_0000 * unit == 0x10_0000_0000_0000 * (2 * unit)) by (nonlinear_arith);
            assert(value == 0x20_0000_0000_0000 * unit);
            assert(value == 0x10_0000_0000_0000 * pow2((j + 1) as nat));
        }
        sig = HIDDEN_BIT;
        j = j + 1;
    }
    assert(value == sig * pow2(j as nat));
    proof {
        lemma2_to64();
        lemma2_to64_rest();
        lemma_magnitude_bounds(sig as nat, j as nat);
    }
    if sig < HIDDEN_BIT {
        assemble(sign, 0, sig)
    } else if j >= 2046 {
        assemble(sign, 2047, 0)
    } else {
        assemble(sign, j + 1, sig - HIDDEN_BIT)
    }
}

/// The sum of two finite magnitudes `mh * 2^jh` and `ml * 2^jl`, the first
/// one not below the second, as a rounded significand and its scale.
fn add_magnitudes(mh: u64, jh: u64, ml: u64, jl: u64) -> (r: (u64, u64))
    requires
        mh < 0x20_0000_0000_0000,
        ml < 0x20_0000_0000_0000,
        jl <= jh <= 2045,
        jh > 0 ==> mh >= 0x10_0000_0000_0000,
    ensures
        r.0 * pow2(r.1 as nat) == round_nearest_even(
            mh as nat * pow2(jh as nat) + ml as nat * pow2(jl as nat),
            53,
        ),
        r.0 <= 0x20_0000_0000_0000,
        r.1 <= 2046,
        r.0 < 0x10_0000_0000_0000 ==> r.1 == 0,
{
    let d: u64 = jh - jl;
    proof {
        lemma2_to64();
        lemma2_to64_rest();
        lemma_pow2_pos(d as nat);
        lemma_round_aligned(mh as nat, ml as nat, jh as nat, jl as nat, 53);
    }
    if d > 54 {
        proof {
            lemma_pow2_monotonic(55, d as nat);
            lemma_fundamental_div_mod_converse(ml as int, pow2(d as nat) as int, 0, ml as int);
        }
        (mh, jh)
    } else {
        let (sig, up): (u64, u64) = add_aligned(mh, ml, d, 53);
        (sig, jh + up)
    }
}

/// The sum of two patterns of one sign, rounded to nearest, ties to even.
///
/// The smaller operand is aligned to the larger one: its significand is split
/// at the bit where the larger one's last place lies, the upper part is added
/// and the lower part decides the rounding.
pub fn add_same_sign(a: u64, b: u64) -> (r: u64)
    requires
        is_negative(a) == is_negative(b),
    ensures
        is_sum_of_same_sign(a, b, r),
{
    let sign: u64 = sign_of(a);
    let abs_a: u64 = magnitude_bits(a);
    let abs_b: u64 = magnitude_bits(b);
    let hi: u64 = if abs_a >= abs_b {
        abs_a
    } else {
        abs_b
    };
    let lo: u64 = if abs_a >= abs_b {
        abs_b
    } else {
        abs_a
    };
    let eh: u64 = exponent_of(hi);
    let el: u64 = exponent_of(lo);
    let fh: u64 = fraction_of(hi);
    let fl: u64 = fraction_of(lo);
    assert(magnitude(a) + magnitude(b) == magnitude(hi) + magnitude(lo));
    assert(hi == eh * 0x10_0000_0000_0000 + fh && lo == el * 0x10_0000_0000_0000 + fl);
    if eh == 2047 {
        if fh != 0 {
            return assemble(sign, 2047, QUIET_BIT);
        } else {
            return assemble(sign, 2047, 0);
        }
    }
    let mh: u64 = if eh == 0 {
        fh
    } else {
        fh + HIDDEN_BIT
    };
    let ml: u64 = if el == 0 {
        fl
    } else {
        fl + HIDDEN_BIT
    };
    let jh: u64 = if eh == 0 {
        0
    } else {
        eh - 1
    };
    let jl: u64 = if el == 0 {
        0
    } else {
        el - 1
    };
    let (sig, j): (u64, u64) = add_magnitudes(mh, jh, ml, jl);
    from_magnitude(sign, sig, j)
}

/// The saturating conversion to `i64`: the whole part of the number, toward
/// zero; the nearest end of the range where that does not fit; zero for a
/// NaN.
pub fn to_i64_saturating(x: u64) -> (r: i64)
    ensures
        r == truncated(x),
{
    let negative: bool = sign_of(x) != 0;
    let e: u64 = exponent_of(x);
    let f: u64 = fraction_of(x);
    if e == 2047 && f != 0 {
        return 0;
    }
    let m: u64 = if e == 0 {
        f
    } else {
        f + HIDDEN_BIT
    };
    let ghost j: nat = scale(x);
    proof {
        lemma2_to64();
        lemma2_to64_rest();
        lemma_scaled_quotient(m as nat, j, 1074);
    }
    if e < 1023 {
        proof {
            lemma_pow2_monotonic(53, (1074 - j) as nat);
            lemma_fundamental_div_mod_converse(
                m as int,
                pow2((1074 - j) as nat) as int,
                0,
                m as int,
            );
        }
        return 0;
    }
    if e >= 1086 {
        proof {
            lemma_pow2_monotonic(11, (j - 1074) as nat);
            assert(m * pow2((j - 1074) as nat) >= 0x8000_0000_0000_0000) by (nonlinear_arith)
                requires
                    m >= 0x10_0000_0000_0000,
                    pow2((j - 1074) as nat) >= 0x800,
            ;
        }
        return if negative {
            i64::MIN
        } else {
            i64::MAX
        };
    }
    let n: u64 = if e >= 1075 {
        proof {
            lemma_pow2_monotonic((e - 1075) as nat, 10);
            assert(m * pow2((e - 1075) as nat) < 0x8000_0000_0000_0000) by (nonlinear_arith)
                requires
                    m < 0x20_0000_0000_0000,
                    pow2((e - 1075) as nat) <= 0x400,
            ;
            lemma_u64_shl_is_mul(m, (e - 1075) as u64);
        }
        m << (e - 1075)
    } else {
        proof {
            lemma_u64_shr_is_div(m, (1075 - e) as u64);
        }
        m >> (1075 - e)
    };
    if negative {
        -(n as i64)
    } else {
        n as i64
    }
}

/// The whole part `n` of a magnitude is the whole number with
/// `n <= |x| < n + 1`.
pub proof fn lemma_whole_part(x: u64)
    ensures
        ({
            let n = magnitude(x) / pow2(1074);
            n * pow2(1074) <= magnitude(x) < (n + 1) * pow2(1074)
        }),
{
    let unit = pow2(1074);
    let n = magnitude(x) / unit;
    lemma_pow2_pos(1074);
    lemma_fundamental_div_mod(magnitude(x) as int, unit as int);
    assert(n * unit == unit * n && (n + 1) * unit == unit * n + unit) by (nonlinear_arith);
}

/// The rounded magnitude `n` is the whole number with
/// `n - 1/2 <= |x| < n + 1/2`: the nearest one, and of two equally near ones
/// the larger.
pub proof fn lemma_nearest_whole(x: u64)
    ensures
        ({
            let n = (magnitude(x) + pow2(1073)) / pow2(1074);
            2 * n * pow2(1074) - pow2(1074) <= 2 * magnitude(x) < 2 * n * pow2(1074) + pow2(1074)
        }),
{
    let unit = pow2(1074);
    let n = (magnitude(x) + pow2(1073)) / unit;
    lemma_pow2_pos(1074);
    lemma_pow2_unfold(1074);
    lemma_fundamental_div_mod((magnitude(x) + pow2(1073)) as int, unit as int);
    assert(2 * n * unit == 2 * (unit * n)) by (nonlinear_arith);
}

/// A number of magnitude `2^63` or more, an infinity among them, converts and
/// rounds to the end of the range of `i64` on its side.
pub proof fn lemma_beyond_range(x: u64)
    requires
        !is_nan(x),
        magnitude(x) >= pow2(1137),
    ensures
        truncated(x) == range_end(x),
        rounded_half_away(x) == range_end(x),
{
    let unit = pow2(1074);
    lemma2_to64();
    lemma2_to64_rest();
    lemma_pow2_pos(1074);
    lemma_scaled_quotient(1, 1137, 1074);
    assert(1 * pow2(1137) == pow2(1137) && 1 * pow2(63) == pow2(63));
    lemma_div_is_ordered(pow2(1137) as int, magnitude(x) as int, unit as int);
    lemma_div_is_ordered(magnitude(x) as int, (magnitude(x) + pow2(1073)) as int, unit as int);
}

/// The magnitude that the pattern of an infinity stands for lies beyond the
/// range of `i64`.
pub proof fn lemma_infinite_magnitude(x: u64)
    requires
        is_infinite(x),
    ensures
        magnitude(x) == overflow_threshold(),
        magnitude(x) >= pow2(1137),
{
    lemma_pow2_adds(52, 2046);
    lemma2_to64();
    lemma2_to64_rest();
    lemma_pow2_monotonic(1137, 2098);
}

/// Rounding is odd: the pattern with the other sign rounds to the negative,
/// unless the rounded magnitude is `2^63` or more, where the two ends of the
/// range of `i64` differ in magnitude.
pub proof fn lemma_sign_symmetry(x: u64)
    requires
        !saturates(x),
    ensures
        rounded_half_away(negated(x)) == -rounded_half_away(x),
{
    let y = negated(x);
    let n = (magnitude(x) + pow2(1073)) / pow2(1074);
    lemma_pow2_pos(1074);
    assert(exponent_field(y) == exponent_field(x));
    assert(fraction(y) == fraction(x));
    assert(magnitude(y) == magnitude(x));
    assert(is_negative(y) != is_negative(x));
    assert(n >= 0);
}

/// The rounding trick on binary64. Let `bias` be the largest number below one
/// half, `0.5 - 2^-54`, with the sign of `x`, and `sum` the sum of `x` and
/// `bias` rounded to nearest, ties to even. Then the saturating conversion of
/// `sum` is `x` rounded to the nearest whole number, halves away from zero,
/// saturated.
pub proof fn lemma_biased_sum_rounds(x: u64, bias: u64, sum: u64)
    requires
        is_negative(bias) == is_negative(x),
        bias % 0x8000_0000_0000_0000 == crate::F64_ROUND,
        is_sum_of_same_sign(x, bias, sum),
    ensures
        truncated(sum) == rounded_half_away(x),
{
    lemma2_to64();
    lemma2_to64_rest();
    assert(exponent_field(bias) == 1021 && fraction(bias) == 0xF_FFFF_FFFF_FFFF);
    assert(magnitude(bias) == half_bias(53, 1073));
    if is_nan(x) {
        assert(is_nan(sum));
    } else if is_infinite(x) {
        lemma_infinite_magnitude(x);
        lemma_infinite_magnitude(sum);
        lemma_beyond_range(x);
        lemma_beyond_range(sum);
    } else {
        let m = significand(x);
        let j = scale(x);
        let s = round_nearest_even(magnitude(x) + magnitude(bias), 53);
        lemma_biased_sum(m, j, 53, 1073);
        lemma_magnitude_bounds(m, j);
        lemma_pow2_monotonic(1127, 2098);
        assert(s < overflow_threshold());
    }
}

} // verus!
