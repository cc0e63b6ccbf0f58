//! Rounding a floating-point number to the nearest integer, halves away
//! from zero, by one addition and one truncation.
//!
//! A number just under one half, with the sign of the input, is added to the
//! input; the sum, rounded to nearest even as floating-point addition rounds
//! it, is converted to an integer by dropping its fraction and saturating.
//! The library states this on bit patterns: `binary32` and `binary64` model
//! the two formats, their addition and their conversion to an integer, and
//! `rounding` holds the arithmetic that both rest on.

use vstd::prelude::*;
use vstd::arithmetic::power2::pow2;

pub mod binary32;
pub mod binary64;
pub mod rounding;

verus! {

/// The pattern of the largest binary32 number below one half,
/// `0.5 - 2^-25`.
pub const F32_ROUND: u32 = 0x3EFF_FFFF;

/// The pattern of the largest binary64 number below one half,
/// `0.5 - 2^-54`.
pub const F64_ROUND: u64 = 0x3FDF_FFFF_FFFF_FFFF;

/// The rounding bias for `x`: the number of `F32_ROUND` with the sign of `x`.
#[inline(always)]
pub fn signed_bias_f32(x: u32) -> (r: u32)
    ensures
        r == F32_ROUND + (if binary32::is_negative(x) {
            0x8000_0000u32
        } else {
            0u32
        }),
{
    assert((x & (1u32 << 31)) | 0x3EFF_FFFF == 0x3EFF_FFFF + (if x >= 0x8000_0000 {
        0x8000_0000u32
    } else {
        0u32
    })) by (bit_vector);
    (x & (1u32 << 31)) | F32_ROUND
}

/// The binary32 number with the pattern `x`, rounded to the nearest integer,
/// halves away from zero, and saturated to the range of `i32`; zero for a
/// NaN.
#[inline(always)]
pub fn fast_inline_round_f32(x: u32) -> (r: i32)
    ensures
        r == binary32::rounded_half_away(x),
        binary32::is_nan(x) ==> r == 0,
        !binary32::is_nan(x) && binary32::magnitude(x) >= pow2(180) ==> r == binary32::range_end(
            x,
        ),
{
    let bias: u32 = signed_bias_f32(x);
    let sum: u32 = binary32::add_same_sign(x, bias);
    proof {
        binary32::lemma_biased_sum_rounds(x, bias, sum);
        if !binary32::is_nan(x) && binary32::magnitude(x) >= pow2(180) {
            binary32::lemma_beyond_range(x);
        }
    }
    binary32::to_i32_saturating(sum)
}

/// The rounding bias for `x`: the number of `F64_ROUND` with the sign of `x`.
#[inline(always)]
pub fn signed_bias_f64(x: u64) -> (r: u64)
    ensures
        r == F64_ROUND + (if binary64::is_negative(x) {
            0x8000_0000_0000_0000u64
        } else {
            0u64
        }),
{
    assert((x & (1u64 << 63)) | 0x3FDF_FFFF_FFFF_FFFF == 0x3FDF_FFFF_FFFF_FFFF + (if x
        >= 0x8000_0000_0000_0000 {
        0x8000_0000_0000_0000u64
    } else {
        0u64
    })) by (bit_vector);
    (x & (1u64 << 63)) | F64_ROUND
}

/// The binary64 number with the pattern `x`, rounded to the nearest integer,
/// halves away from zero, and saturated to the range of `i64`; zero for a
/// NaN.
#[inline(always)]
pub fn fast_inline_round_f64(x: u64) -> (r: i64)
    ensures
        r == binary64::rounded_half_away(x),
        binary64::is_nan(x) ==> r == 0,
        !binary64::is_nan(x) && binary64::magnitude(x) >= pow2(1137) ==> r == binary64::range_end(
            x,
        ),
{
    let bias: u64 = signed_bias_f64(x);
    let sum: u64 = binary64::add_same_sign(x, bias);
    proof {
        binary64::lemma_biased_sum_rounds(x, bias, sum);
        if !binary64::is_nan(x) && binary64::magnitude(x) >= pow2(1137) {
            binary64::lemma_beyond_range(x);
        }
    }
    binary64::to_i64_saturating(sum)
}

} // verus!
