use float_quickly::{
    fast_inline_round_f32, fast_inline_round_f64, signed_bias_f32, signed_bias_f64, F32_ROUND,
    F64_ROUND,
};

// See: https://github.com/skeeto/hash-prospector
pub fn hash_u32(mut val: u32) -> u32 {
    val = val ^ (val >> 15);
    val = val.wrapping_mul(0x2C1B3C6D);
    val = val ^ (val >> 12);
    val = val.wrapping_mul(0x297A2D39);
    val = val ^ (val >> 15);
    return val;
}

pub fn hash_u64(mut val: u64) -> u64 {
    val = val ^ (val >> 30);
    val = val.wrapping_mul(0xBF58476D1CE4E5B9);
    val = val ^ (val >> 27);
    val = val.wrapping_mul(0x94D049BB133111EB);
    val = val ^ (val >> 31);
    return val;
}

fn generate_u32() -> Vec<u32> {
    let mut result: Vec<u32> = Vec::with_capacity(256 * 17);
    for idx in 0_u32..256_u32 {
        let values = [
            idx as u32,
            hash_u32(idx as u32),
            hash_u32(hash_u32(idx as u32)),
            hash_u32(hash_u32(hash_u32(idx as u32))),
            hash_u32(hash_u32(hash_u32(hash_u32(idx as u32)))),
            hash_u32(hash_u32(hash_u32(hash_u32(hash_u32(idx as u32))))),
            hash_u32(hash_u32(hash_u32(hash_u32(hash_u32(hash_u32(idx as u32)))))),
            (1 as u32).wrapping_shl(idx).wrapping_sub(1),
            ((1 as u32).wrapping_shl(idx).wrapping_sub(1)).wrapping_shl(1),
            (1 as u32).wrapping_shl(idx).wrapping_mul(0x01_u8 as u32),
            (1 as u32).wrapping_shl(idx).wrapping_mul(0x02_u8 as u32),
            (1 as u32).wrapping_shl(idx).wrapping_mul(0x05_u8 as u32),
            (1 as u32).wrapping_shl(idx).wrapping_mul(0x0A_u8 as u32),
            (1 as u32).wrapping_shl(idx).wrapping_mul(0x15_u8 as u32),
            (1 as u32).wrapping_shl(idx).wrapping_mul(0x2A_u8 as u32),
            (1 as u32).wrapping_shl(idx).wrapping_mul(0x55_u8 as u32),
            (1 as u32).wrapping_shl(idx).wrapping_mul(0xAA_u8 as u32),
        ];
        result.extend_from_slice(&values);
    }
    return result;
}

fn generate_u64() -> Vec<u64> {
    let mut result: Vec<u64> = Vec::with_capacity(256 * 17);
    for idx in 0_u32..256_u32 {
        let values = [
            idx as u64,
            hash_u64(idx as u64),
            hash_u64(hash_u64(idx as u64)),
            hash_u64(hash_u64(hash_u64(idx as u64))),
            hash_u64(hash_u64(hash_u64(hash_u64(idx as u64)))),
            hash_u64(hash_u64(hash_u64(hash_u64(hash_u64(idx as u64))))),
            hash_u64(hash_u64(hash_u64(hash_u64(hash_u64(hash_u64(idx as u64)))))),
            (1 as u64).wrapping_shl(idx).wrapping_sub(1),
            ((1 as u64).wrapping_shl(idx).wrapping_sub(1)).wrapping_shl(1),
            (1 as u64).wrapping_shl(idx).wrapping_mul(0x01_u8 as u64),
            (1 as u64).wrapping_shl(idx).wrapping_mul(0x02_u8 as u64),
            (1 as u64).wrapping_shl(idx).wrapping_mul(0x05_u8 as u64),
            (1 as u64).wrapping_shl(idx).wrapping_mul(0x0A_u8 as u64),
            (1 as u64).wrapping_shl(idx).wrapping_mul(0x15_u8 as u64),
            (1 as u64).wrapping_shl(idx).wrapping_mul(0x2A_u8 as u64),
            (1 as u64).wrapping_shl(idx).wrapping_mul(0x55_u8 as u64),
            (1 as u64).wrapping_shl(idx).wrapping_mul(0xAA_u8 as u64),
        ];
        result.extend_from_slice(&values);
    }
    return result;
}

fn round_f32(x: f32) -> i32 {
    fast_inline_round_f32(x.to_bits())
}

fn round_f64(x: f64) -> i64 {
    fast_inline_round_f64(x.to_bits())
}

#[test]
fn test_brute_force_f32() {
    for value in generate_u32() {
        let float = f32::from_bits(value);

        assert_eq!(float.round() as i32, round_f32(float));
        assert_eq!((float - f32::EPSILON).round() as i32, round_f32(float - f32::EPSILON));
        assert_eq!((float + f32::EPSILON).round() as i32, round_f32(float + f32::EPSILON));
    }
}

#[test]
fn test_brute_force_f64() {
    for value in generate_u64() {
        let float = f64::from_bits(value);

        assert_eq!(float.round() as i64, round_f64(float));
        assert_eq!((float - f64::EPSILON).round() as i64, round_f64(float - f64::EPSILON));
        assert_eq!((float + f64::EPSILON).round() as i64, round_f64(float + f64::EPSILON));
    }
}

#[test]
fn test_epsilon_sensitivity_f32() {
    assert_ne!(0.5, 0.5 + f32::EPSILON);
    assert_ne!(0.5, 0.5 - f32::EPSILON);

    assert_ne!((0.5 as f32).round(), (0.5 - f32::EPSILON).round());
    assert_eq!((0.5 as f32).round(), (0.5 + f32::EPSILON).round());

    assert_ne!(round_f32(0.5), round_f32(0.5 - f32::EPSILON));
    assert_eq!(round_f32(0.5), round_f32(0.5 + f32::EPSILON));

    assert_eq!((0.5 as f32).round() as i32, round_f32(0.5));
    assert_eq!((0.5 - f32::EPSILON).round() as i32, round_f32(0.5 - f32::EPSILON));
    assert_eq!((0.5 + f32::EPSILON).round() as i32, round_f32(0.5 + f32::EPSILON));
}

#[test]
fn test_epsilon_sensitivity_f64() {
    assert_ne!(0.5, 0.5 + f64::EPSILON);
    assert_ne!(0.5, 0.5 - f64::EPSILON);

    assert_ne!((0.5 as f64).round(), (0.5 - f64::EPSILON).round());
    assert_eq!((0.5 as f64).round(), (0.5 + f64::EPSILON).round());

    assert_ne!(round_f64(0.5), round_f64(0.5 - f64::EPSILON));
    assert_eq!(round_f64(0.5), round_f64(0.5 + f64::EPSILON));

    assert_eq!((0.5 as f64).round() as i64, round_f64(0.5));
    assert_eq!((0.5 - f64::EPSILON).round() as i64, round_f64(0.5 - f64::EPSILON));
    assert_eq!((0.5 + f64::EPSILON).round() as i64, round_f64(0.5 + f64::EPSILON));
}

#[test]
fn epsilon_sensitivity_has_exact_values() {
    assert_eq!(round_f32(0.5 - f32::EPSILON), 0);
    assert_eq!(round_f32(0.5 + f32::EPSILON), 1);
    assert_eq!(round_f64(0.5 - f64::EPSILON), 0);
    assert_eq!(round_f64(0.5 + f64::EPSILON), 1);
}

#[test]
fn one_step_below_one_half_rounds_to_zero() {
    assert_eq!(fast_inline_round_f32(F32_ROUND), 0);
    assert_eq!(fast_inline_round_f32(F32_ROUND | 0x8000_0000), 0);
    assert_eq!(fast_inline_round_f32(F32_ROUND + 1), 1);
    assert_eq!(fast_inline_round_f64(F64_ROUND), 0);
    assert_eq!(fast_inline_round_f64(F64_ROUND | 0x8000_0000_0000_0000), 0);
    assert_eq!(fast_inline_round_f64(F64_ROUND + 1), 1);
}

#[test]
fn halves_round_away_from_zero_f32() {
    assert_eq!(round_f32(0.5), 1);
    assert_eq!(round_f32(-0.5), -1);
    assert_eq!(round_f32(1.5), 2);
    assert_eq!(round_f32(2.5), 3);
    assert_eq!(round_f32(-1.5), -2);
    assert_eq!(round_f32(-2.5), -3);
    assert_eq!(round_f32(3.5), 4);
    assert_eq!(round_f32(4_194_303.5), 4_194_304);
    assert_eq!(round_f32(8_388_607.5), 8_388_608);
}

#[test]
fn halves_round_away_from_zero_f64() {
    assert_eq!(round_f64(0.5), 1);
    assert_eq!(round_f64(-0.5), -1);
    assert_eq!(round_f64(1.5), 2);
    assert_eq!(round_f64(2.5), 3);
    assert_eq!(round_f64(-1.5), -2);
    assert_eq!(round_f64(-2.5), -3);
    assert_eq!(round_f64(4_503_599_627_370_495.5), 4_503_599_627_370_496);
}

#[test]
fn concrete_scenario() {
    assert_eq!(round_f32(0.5), 1);
    assert_eq!(round_f32(-0.5), -1);
    assert_eq!(round_f32(2.5), 3);
    assert_eq!(round_f64(f64::MAX), i64::MAX);
    assert_eq!(round_f32(f32::NAN), 0);
}

#[test]
fn ordinary_values_round_to_nearest() {
    assert_eq!(round_f32(0.0), 0);
    assert_eq!(round_f32(-0.0), 0);
    assert_eq!(round_f32(0.25), 0);
    assert_eq!(round_f32(0.75), 1);
    assert_eq!(round_f32(1.0), 1);
    assert_eq!(round_f32(1.25), 1);
    assert_eq!(round_f32(-1.75), -2);
    assert_eq!(round_f32(123_456.7), 123_457);
    assert_eq!(round_f32(16_777_216.0), 16_777_216);
    assert_eq!(round_f32(-16_777_218.0), -16_777_218);
    assert_eq!(round_f64(0.0), 0);
    assert_eq!(round_f64(0.49), 0);
    assert_eq!(round_f64(0.51), 1);
    assert_eq!(round_f64(-7.5), -8);
    assert_eq!(round_f64(1e15 + 0.5), 1_000_000_000_000_001);
    assert_eq!(round_f64(9_007_199_254_740_992.0), 9_007_199_254_740_992);
}

#[test]
fn subnormals_round_to_zero() {
    assert_eq!(fast_inline_round_f32(1), 0);
    assert_eq!(fast_inline_round_f32(0x007F_FFFF), 0);
    assert_eq!(fast_inline_round_f32(0x0080_0000), 0);
    assert_eq!(fast_inline_round_f32(0x8000_0001), 0);
    assert_eq!(fast_inline_round_f64(1), 0);
    assert_eq!(fast_inline_round_f64(0x000F_FFFF_FFFF_FFFF), 0);
    assert_eq!(fast_inline_round_f64(0x8000_0000_0000_0001), 0);
}

#[test]
fn out_of_range_saturates_f32() {
    assert_eq!(round_f32(2_147_483_648.0), i32::MAX);
    assert_eq!(round_f32(-2_147_483_648.0), i32::MIN);
    assert_eq!(round_f32(2_147_483_520.0), 2_147_483_520);
    assert_eq!(round_f32(-2_147_483_904.0), i32::MIN);
    assert_eq!(round_f32(3e9), i32::MAX);
    assert_eq!(round_f32(-3e9), i32::MIN);
    assert_eq!(round_f32(f32::MAX), i32::MAX);
    assert_eq!(round_f32(f32::MIN), i32::MIN);
    assert_eq!(round_f32(f32::INFINITY), i32::MAX);
    assert_eq!(round_f32(f32::NEG_INFINITY), i32::MIN);
}

#[test]
fn out_of_range_saturates_f64() {
    assert_eq!(round_f64(9_223_372_036_854_775_808.0), i64::MAX);
    assert_eq!(round_f64(-9_223_372_036_854_775_808.0), i64::MIN);
    assert_eq!(round_f64(9_223_372_036_854_774_784.0), 9_223_372_036_854_774_784);
    assert_eq!(round_f64(1e300), i64::MAX);
    assert_eq!(round_f64(-1e300), i64::MIN);
    assert_eq!(round_f64(f64::MAX), i64::MAX);
    assert_eq!(round_f64(f64::MIN), i64::MIN);
    assert_eq!(round_f64(f64::INFINITY), i64::MAX);
    assert_eq!(round_f64(f64::NEG_INFINITY), i64::MIN);
}

#[test]
fn nan_rounds_to_zero() {
    assert_eq!(round_f32(f32::NAN), 0);
    assert_eq!(round_f32(-f32::NAN), 0);
    assert_eq!(fast_inline_round_f32(0x7F80_0001), 0);
    assert_eq!(fast_inline_round_f32(0xFFFF_FFFF), 0);
    assert_eq!(round_f64(f64::NAN), 0);
    assert_eq!(round_f64(-f64::NAN), 0);
    assert_eq!(fast_inline_round_f64(0x7FF0_0000_0000_0001), 0);
    assert_eq!(fast_inline_round_f64(0xFFFF_FFFF_FFFF_FFFF), 0);
}

#[test]
fn rounding_is_odd_inside_the_range() {
    for value in generate_u32() {
        let r = fast_inline_round_f32(value);
        if r != i32::MIN && r != i32::MAX {
            assert_eq!(fast_inline_round_f32(value ^ 0x8000_0000), -r);
        }
    }
    for value in generate_u64() {
        let r = fast_inline_round_f64(value);
        if r != i64::MIN && r != i64::MAX {
            assert_eq!(fast_inline_round_f64(value ^ 0x8000_0000_0000_0000), -r);
        }
    }
    assert_eq!(round_f32(-3.5), -round_f32(3.5));
    assert_eq!(round_f64(-3.5), -round_f64(3.5));
}

#[test]
fn saturation_is_not_symmetric() {
    assert_eq!(round_f32(2_147_483_648.0), 2_147_483_647);
    assert_eq!(round_f32(-2_147_483_648.0), -2_147_483_648);
    assert_eq!(round_f64(9_223_372_036_854_775_808.0), 9_223_372_036_854_775_807);
    assert_eq!(round_f64(-9_223_372_036_854_775_808.0), -9_223_372_036_854_775_808);
}

#[test]
fn bias_takes_the_sign_of_the_input() {
    assert_eq!(F32_ROUND, 0x3EFF_FFFF);
    assert_eq!(F64_ROUND, 0x3FDF_FFFF_FFFF_FFFF);
    assert_eq!(f32::from_bits(F32_ROUND), 0.5 - 0.25 * f32::EPSILON);
    assert_eq!(f64::from_bits(F64_ROUND), 0.5 - 0.25 * f64::EPSILON);
    assert_eq!(signed_bias_f32(0), 0x3EFF_FFFF);
    assert_eq!(signed_bias_f32(0x8000_0000), 0xBEFF_FFFF);
    assert_eq!(signed_bias_f32((1.5f32).to_bits()), 0x3EFF_FFFF);
    assert_eq!(signed_bias_f32((-1.5f32).to_bits()), 0xBEFF_FFFF);
    assert_eq!(signed_bias_f32(0xFFFF_FFFF), 0xBEFF_FFFF);
    assert_eq!(signed_bias_f64(0), 0x3FDF_FFFF_FFFF_FFFF);
    assert_eq!(signed_bias_f64(0x8000_0000_0000_0000), 0xBFDF_FFFF_FFFF_FFFF);
    assert_eq!(signed_bias_f64((-2.0f64).to_bits()), 0xBFDF_FFFF_FFFF_FFFF);
}

#[test]
fn agrees_with_the_hardware_formula_f32() {
    for value in generate_u32() {
        let x = f32::from_bits(value);
        let bias = f32::from_bits(signed_bias_f32(value));
        assert_eq!((x + bias) as i32, fast_inline_round_f32(value));
    }
}

#[test]
fn agrees_with_the_hardware_formula_f64() {
    for value in generate_u64() {
        let x = f64::from_bits(value);
        let bias = f64::from_bits(signed_bias_f64(value));
        assert_eq!((x + bias) as i64, fast_inline_round_f64(value));
    }
}

#[test]
fn every_step_around_small_integers_f32() {
    for n in 0..2048_i32 {
        let base = (n as f32) * 0.5;
        let mut bits = base.to_bits().saturating_sub(4);
        for _ in 0..9 {
            let x = f32::from_bits(bits);
            assert_eq!(x.round() as i32, fast_inline_round_f32(bits));
            assert_eq!((-x).round() as i32, fast_inline_round_f32(bits | 0x8000_0000));
            bits += 1;
        }
    }
}

#[test]
fn every_step_around_small_integers_f64() {
    for n in 0..2048_i64 {
        let base = (n as f64) * 0.5;
        let mut bits = base.to_bits().saturating_sub(4);
        for _ in 0..9 {
            let x = f64::from_bits(bits);
            assert_eq!(x.round() as i64, fast_inline_round_f64(bits));
            assert_eq!((-x).round() as i64, fast_inline_round_f64(bits | 0x8000_0000_0000_0000));
            bits += 1;
        }
    }
}
