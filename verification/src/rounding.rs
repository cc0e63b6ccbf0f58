//! Round-to-nearest, ties-to-even, on natural numbers.
//!
//! A finite binary floating-point magnitude is a natural number once it is
//! scaled by a fixed power of two: `m * 2^j` with a significand `m` of at most
//! `p` bits. This module defines rounding of an arbitrary natural number to
//! `p` significant bits and proves the facts about it that the bit-level
//! models of the two formats rest on.

use vstd::prelude::*;
use vstd::arithmetic::power2::{
    pow2,
    lemma2_to64,
    lemma_pow2_adds,
    lemma_pow2_pos,
    lemma_pow2_strictly_increases,
    lemma_pow2_unfold,
};
use vstd::bits::{
    low_bits_mask,
    lemma_u64_low_bits_mask_is_mod,
    lemma_u64_pow2_no_overflow,
    lemma_u64_shl_is_mul,
    lemma_u64_shr_is_div,
};
use vstd::arithmetic::div_mod::{
    lemma_div_is_ordered,
    lemma_div_multiples_vanish_quotient,
    lemma_fundamental_div_mod,
    lemma_fundamental_div_mod_converse,
};

verus! {

/// How many low-order bits `n` has beyond `p` significant ones: the least `k`
/// with `n < 2^(p + k)`.
pub open spec fn excess_bits(n: nat, p: nat) -> nat
    decreases n,
{
    if n == 0 || n < pow2(p) {
        0
    } else {
        1 + excess_bits(n / 2, p)
    }
}

/// The multiple of `2^k` nearest to `n`; of two equally near ones, the even
/// multiple.
pub open spec fn round_at(n: nat, k: nat) -> nat {
    let q = n / pow2(k);
    let r = n % pow2(k);
    if 2 * r < pow2(k) || (2 * r == pow2(k) && q % 2 == 0) {
        q * pow2(k)
    } else {
        (q + 1) * pow2(k)
    }
}

/// `n` rounded to `p` significant bits, to nearest, ties to even.
pub open spec fn round_nearest_even(n: nat, p: nat) -> nat {
    round_at(n, excess_bits(n, p))
}

/// The significand of the rounding of `total * 2^a + rest * 2^(a - d)`, where
/// `rest < 2^d`: `total` is kept when it has at most `p` bits and halved when
/// it has one more, and `rest` decides the direction. It may come out as
/// `2^p`.
pub open spec fn rounded_significand(total: nat, rest: nat, d: nat, p: nat) -> nat {
    if total < pow2(p) {
        if 2 * rest < pow2(d) || (2 * rest == pow2(d) && total % 2 == 0) {
            total
        } else {
            total + 1
        }
    } else if total % 2 == 1 && (rest > 0 || (total / 2) % 2 == 1) {
        total / 2 + 1
    } else {
        total / 2
    }
}

/// By how much the scale grows when `total` is rounded to `p` bits.
pub open spec fn carry(total: nat, p: nat) -> nat {
    if total < pow2(p) {
        0
    } else {
        1
    }
}

/// The rounding of `total * 2^a + rest * 2^(a - d)`, where `rest < 2^d`, read
/// off the two parts.
pub open spec fn rounded_from_parts(total: nat, rest: nat, d: nat, a: nat, p: nat) -> nat {
    rounded_significand(total, rest, d, p) * pow2(a + carry(total, p))
}

/// The magnitude just under one half that is added before truncation, in
/// units of `2^-(h + 1)`: `2^h - 2^(h - p)`, the largest `p`-bit magnitude
/// below `2^h`.
pub open spec fn half_bias(p: nat, h: nat) -> nat {
    ((pow2(p) - 1) * pow2((h - p) as nat)) as nat
}

proof fn lemma_mul_mono(x: nat, y: nat, c: nat)
    by (nonlinear_arith)
    requires
        x <= y,
    ensures
        x * c <= y * c,
{
}

proof fn lemma_mul_strict(x: nat, y: nat, c: nat)
    by (nonlinear_arith)
    requires
        x < y,
        c > 0,
    ensures
        x * c < y * c,
{
}

proof fn lemma_mul_succ(x: nat, c: nat)
    by (nonlinear_arith)
    ensures
        (x + 1) * c == x * c + c,
{
}

proof fn lemma_mul_halves(x: nat, c: nat)
    by (nonlinear_arith)
    ensures
        x * c == (x / 2) * (2 * c) + (x % 2) * c,
        (x % 2) * c == if x % 2 == 0 {
            0
        } else {
            c
        },
{
}

proof fn lemma_mul_assoc(x: nat, y: nat, z: nat)
    by (nonlinear_arith)
    ensures
        (x * y) * z == x * (y * z),
{
}

proof fn lemma_mul_distributes(x: nat, y: nat, c: nat)
    by (nonlinear_arith)
    ensures
        (x + y) * c == x * c + y * c,
{
}

proof fn lemma_mul_order_reflects(x: nat, y: nat, c: nat)
    by (nonlinear_arith)
    requires
        c > 0,
    ensures
        x * c < y * c <==> x < y,
        x * c == y * c <==> x == y,
{
}

/// Powers of two grow with the exponent.
pub proof fn lemma_pow2_monotonic(a: nat, b: nat)
    requires
        a <= b,
    ensures
        pow2(a) <= pow2(b),
{
    if a < b {
        lemma_pow2_strictly_increases(a, b);
    }
}

/// The quotient of `m * 2^j` by `2^u`: `m * 2^(j - u)` where `j` is not below
/// `u`, and the quotient of `m` by `2^(u - j)` where it is.
pub proof fn lemma_scaled_quotient(m: nat, j: nat, u: nat)
    ensures
        j >= u ==> (m * pow2(j)) / pow2(u) == m * pow2((j - u) as nat),
        j < u ==> (m * pow2(j)) / pow2(u) == m / pow2((u - j) as nat),
{
    lemma_pow2_pos(j);
    lemma_pow2_pos(u);
    if j >= u {
        let e = (j - u) as nat;
        lemma_pow2_adds(e, u);
        lemma_mul_assoc(m, pow2(e), pow2(u));
        lemma_fundamental_div_mod_converse(
            (m * pow2(j)) as int,
            pow2(u) as int,
            (m * pow2(e)) as int,
            0,
        );
    } else {
        let e = (u - j) as nat;
        lemma_pow2_pos(e);
        lemma_pow2_adds(j, e);
        lemma_div_multiples_vanish_quotient(pow2(j) as int, m as int, pow2(e) as int);
        assert(pow2(j) * m == m * pow2(j)) by (nonlinear_arith);
    }
}

/// A number between `2^(p + k - 1)` and `2^(p + k)` has `k` excess bits.
pub proof fn lemma_excess_bits(n: nat, p: nat, k: nat)
    requires
        k == 0 ==> n < pow2(p),
        k > 0 ==> pow2((p + k - 1) as nat) <= n < pow2(p + k),
    ensures
        excess_bits(n, p) == k,
    decreases k,
{
    lemma_pow2_pos(p);
    if k > 0 {
        lemma_pow2_unfold(p + k);
        lemma_pow2_monotonic(p, (p + k - 1) as nat);
        if k > 1 {
            lemma_pow2_unfold((p + k - 1) as nat);
        }
        lemma_excess_bits(n / 2, p, (k - 1) as nat);
    }
}

/// The converse: `n` lies below `2^p` when it has no excess bits, and between
/// `2^(p + k - 1)` and `2^(p + k)` when it has `k` of them.
pub proof fn lemma_excess_bits_bounds(n: nat, p: nat)
    ensures
        excess_bits(n, p) == 0 ==> n < pow2(p),
        excess_bits(n, p) > 0 ==> pow2((p + excess_bits(n, p) - 1) as nat) <= n < pow2(
            p + excess_bits(n, p),
        ),
    decreases n,
{
    lemma_pow2_pos(p);
    if n != 0 && n >= pow2(p) {
        let k = excess_bits(n / 2, p);
        lemma_excess_bits_bounds(n / 2, p);
        lemma_pow2_unfold(p + k + 1);
        if k > 0 {
            lemma_pow2_unfold(p + k);
        }
    }
}

/// `round_at(n, k)` is a multiple of `2^k` that lies at most half of `2^k`
/// away from `n`, and an even multiple where it lies exactly that far away.
pub proof fn lemma_round_at_is_nearest(n: nat, k: nat)
    ensures
        round_at(n, k) == (round_at(n, k) / pow2(k)) * pow2(k),
        2 * (round_at(n, k) - n) <= pow2(k),
        2 * (n - round_at(n, k)) <= pow2(k),
        2 * (round_at(n, k) - n) == pow2(k) || 2 * (n - round_at(n, k)) == pow2(k) ==> (round_at(
            n,
            k,
        ) / pow2(k)) % 2 == 0,
{
    let unit = pow2(k);
    let q = n / unit;
    let r = n % unit;
    lemma_pow2_pos(k);
    lemma_fundamental_div_mod(n as int, unit as int);
    assert(n == q * unit + r) by (nonlinear_arith)
        requires
            n == unit * q + r,
    ;
    lemma_mul_succ(q, unit);
    lemma_fundamental_div_mod_converse((q * unit) as int, unit as int, q as int, 0);
    lemma_fundamental_div_mod_converse(((q + 1) * unit) as int, unit as int, (q + 1) as int, 0);
}

/// `round_nearest_even(n, p)` has at most `p` significant bits: it is a
/// multiple of `2^k`, for the number `k` of excess bits of `n`, by a factor of
/// at most `2^p`.
pub proof fn lemma_rounded_fits(n: nat, p: nat)
    ensures
        round_nearest_even(n, p) == (round_nearest_even(n, p) / pow2(excess_bits(n, p))) * pow2(
            excess_bits(n, p),
        ),
        round_nearest_even(n, p) / pow2(excess_bits(n, p)) <= pow2(p),
{
    let k = excess_bits(n, p);
    let unit = pow2(k);
    let q = n / unit;
    lemma_pow2_pos(k);
    lemma_pow2_pos(p);
    lemma_excess_bits_bounds(n, p);
    lemma_round_at_is_nearest(n, k);
    lemma_pow2_adds(p, k);
    lemma_fundamental_div_mod(n as int, unit as int);
    assert(q < pow2(p)) by (nonlinear_arith)
        requires
            n == unit * q + n % unit,
            n < pow2(p) * unit,
            unit > 0,
            n % unit >= 0,
    ;
    lemma_fundamental_div_mod_converse((q * unit) as int, unit as int, q as int, 0);
    lemma_mul_succ(q, unit);
    lemma_fundamental_div_mod_converse(((q + 1) * unit) as int, unit as int, (q + 1) as int, 0);
}

/// `round_at` read off a quotient and a remainder.
pub proof fn lemma_round_at(n: nat, k: nat, q: nat, r: nat)
    requires
        n == q * pow2(k) + r,
        r < pow2(k),
    ensures
        round_at(n, k) == if 2 * r < pow2(k) || (2 * r == pow2(k) && q % 2 == 0) {
            q * pow2(k)
        } else {
            (q + 1) * pow2(k)
        },
{
    lemma_pow2_pos(k);
    lemma_fundamental_div_mod_converse(n as int, pow2(k) as int, q as int, r as int);
}

/// Rounding `hi * 2^a + rest` to `p` bits, where `hi` has `p` or `p + 1` bits
/// and `rest` lies below `2^a`.
pub proof fn lemma_round_split(hi: nat, rest: nat, a: nat, p: nat)
    requires
        p >= 1,
        hi < pow2(p + 1),
        rest < pow2(a),
        a > 0 ==> hi >= pow2((p - 1) as nat),
    ensures
        round_nearest_even(hi * pow2(a) + rest, p) == rounded_from_parts(hi, rest, a, a, p),
{
    let n = hi * pow2(a) + rest;
    let unit = pow2(a);
    lemma2_to64();
    lemma_pow2_pos(a);
    lemma_pow2_unfold(a + 1);
    lemma_pow2_unfold(p + 1);
    lemma_pow2_unfold(p);
    lemma_mul_succ(hi, unit);
    if hi < pow2(p) {
        if a > 0 {
            lemma_mul_mono(pow2((p - 1) as nat), hi, unit);
            lemma_pow2_adds((p - 1) as nat, a);
        }
        lemma_mul_mono(hi + 1, pow2(p), unit);
        lemma_pow2_adds(p, a);
        lemma_excess_bits(n, p, a);
        lemma_round_at(n, a, hi, rest);
    } else {
        let q = hi / 2;
        let low = (hi % 2) * unit + rest;
        lemma_mul_halves(hi, unit);
        lemma_mul_mono(pow2(p), hi, unit);
        lemma_mul_mono(hi + 1, pow2(p + 1), unit);
        lemma_pow2_adds(p, a);
        lemma_pow2_adds(p + 1, a);
        assert(pow2(p + a) <= n < pow2(p + 1 + a));
        lemma_excess_bits(n, p, a + 1);
        assert(n == q * pow2(a + 1) + low);
        lemma_round_at(n, a + 1, q, low);
    }
}

/// Rounding the sum of two magnitudes `mh * 2^a` and `ml * 2^b`, `b <= a`,
/// after the smaller one has been aligned to the larger: `ml` is split at bit
/// `a - b`, its upper part is added to `mh`, and its lower part decides the
/// rounding.
pub proof fn lemma_round_aligned(mh: nat, ml: nat, a: nat, b: nat, p: nat)
    requires
        p >= 1,
        b <= a,
        mh < pow2(p),
        ml < pow2(p),
        a > 0 ==> mh >= pow2((p - 1) as nat),
    ensures
        round_nearest_even(mh * pow2(a) + ml * pow2(b), p) == rounded_from_parts(
            mh + ml / pow2((a - b) as nat),
            ml % pow2((a - b) as nat),
            (a - b) as nat,
            a,
            p,
        ),
{
    let d = (a - b) as nat;
    let upper = ml / pow2(d);
    let lower = ml % pow2(d);
    let total = mh + upper;
    let rest = lower * pow2(b);
    lemma_pow2_pos(d);
    lemma_pow2_pos(b);
    lemma_pow2_adds(d, b);
    lemma_pow2_unfold(p + 1);
    lemma_fundamental_div_mod(ml as int, pow2(d) as int);
    assert(ml == upper * pow2(d) + lower) by (nonlinear_arith)
        requires
            ml == pow2(d) * upper + lower,
    ;
    assert(upper <= ml) by (nonlinear_arith)
        requires
            ml == upper * pow2(d) + lower,
            pow2(d) > 0,
    ;
    lemma_mul_strict(lower, pow2(d), pow2(b));
    lemma_mul_distributes(upper * pow2(d), lower, pow2(b));
    lemma_mul_assoc(upper, pow2(d), pow2(b));
    lemma_mul_distributes(mh, upper, pow2(a));
    assert(mh * pow2(a) + ml * pow2(b) == total * pow2(a) + rest);
    lemma_round_split(total, rest, a, p);
    lemma_mul_order_reflects(2 * lower, pow2(d), pow2(b));
    lemma_mul_assoc(2, lower, pow2(b));
    lemma_mul_order_reflects(0, lower, pow2(b));
}

/// An even number and its successor have the same quotient by an even
/// divisor.
proof fn lemma_even_successor_quotient(x: nat, d: nat)
    requires
        x % 2 == 0,
        d % 2 == 0,
        d > 0,
    ensures
        (x + 1) / d == x / d,
{
    let q = x / d;
    let r = x % d;
    lemma_fundamental_div_mod(x as int, d as int);
    let half = d / 2;
    assert(d * q == 2 * (half * q)) by (nonlinear_arith)
        requires
            d == 2 * half,
    ;
    assert(r % 2 == 0);
    assert(x + 1 == q * d + (r + 1)) by (nonlinear_arith)
        requires
            x == d * q + r,
    ;
    lemma_fundamental_div_mod_converse((x + 1) as int, d as int, q as int, (r + 1) as int);
}

/// The bias as a difference of two powers of two.
proof fn lemma_half_bias(p: nat, h: nat)
    requires
        p >= 1,
        h >= p,
    ensures
        half_bias(p, h) + pow2((h - p) as nat) == pow2(h),
        half_bias(p, h) == (pow2(p) - 1) * pow2((h - p) as nat),
        0 < pow2((h - p) as nat) < pow2(h),
{
    let c = (h - p) as nat;
    lemma_pow2_pos(p);
    lemma_pow2_pos(c);
    lemma_pow2_adds(p, c);
    lemma_pow2_strictly_increases(c, h);
    assert((pow2(p) - 1) * pow2(c) == pow2(p) * pow2(c) - pow2(c)) by (nonlinear_arith);
}

/// A magnitude of a whole number at least `2^(p - 1)`: the bias is below half
/// a unit in the last place and the sum rounds back to the magnitude.
proof fn lemma_biased_sum_whole(m: nat, j: nat, p: nat, h: nat)
    requires
        p >= 1,
        h >= p,
        m < pow2(p),
        m >= pow2((p - 1) as nat),
        j > h,
    ensures
        round_nearest_even(m * pow2(j) + half_bias(p, h), p) == m * pow2(j),
        (m * pow2(j)) / pow2(h + 1) == (m * pow2(j) + pow2(h)) / pow2(h + 1),
{
    let x = m * pow2(j);
    let bias = half_bias(p, h);
    let u = h + 1;
    lemma_half_bias(p, h);
    lemma_pow2_unfold(u);
    lemma_pow2_unfold(p + 1);
    lemma_pow2_monotonic(u, j);
    lemma_pow2_pos(h);
    lemma_round_split(m, bias, j, p);
    let e = (j - u) as nat;
    let q = m * pow2(e);
    lemma_pow2_adds(e, u);
    lemma_mul_assoc(m, pow2(e), pow2(u));
    lemma_fundamental_div_mod_converse(x as int, pow2(u) as int, q as int, 0);
    lemma_fundamental_div_mod_converse(
        (x + pow2(h)) as int,
        pow2(u) as int,
        q as int,
        pow2(h) as int,
    );
}

/// A magnitude of at least one half with a fraction: the sum lands on the
/// magnitude plus one half, or one step below it when that step has no
/// weight.
proof fn lemma_biased_sum_fraction(m: nat, j: nat, p: nat, h: nat)
    requires
        p >= 1,
        h >= p,
        m < pow2(p),
        m >= pow2((p - 1) as nat),
        h - p < j <= h,
    ensures
        round_nearest_even(m * pow2(j) + half_bias(p, h), p) / pow2(h + 1) == (m * pow2(j) + pow2(
            h,
        )) / pow2(h + 1),
        round_nearest_even(m * pow2(j) + half_bias(p, h), p) <= m * pow2(j) + pow2(h),
{
    let unit = pow2(j);
    let x = m * unit;
    let c = (h - p) as nat;
    let delta = pow2(c);
    let e = (h - j) as nat;
    let g = pow2(e);
    let big = m + g;
    let hi = (big - 1) as nat;
    let rest = (unit - delta) as nat;
    lemma_half_bias(p, h);
    lemma_pow2_pos(j);
    lemma_pow2_pos(e);
    lemma_pow2_adds(e, j);
    lemma_pow2_unfold(p);
    lemma_pow2_unfold(p + 1);
    lemma_pow2_unfold(c + 1);
    lemma_pow2_monotonic(c + 1, j);
    lemma_pow2_monotonic(e, (p - 1) as nat);
    lemma_mul_distributes(m, g, unit);
    lemma_mul_succ(hi, unit);
    assert(x + pow2(h) == big * unit);
    assert(x + half_bias(p, h) == hi * unit + rest);
    lemma_round_split(hi, rest, j, p);
    let s = round_nearest_even(x + half_bias(p, h), p);
    assert(s == rounded_from_parts(hi, rest, j, j, p));
    if hi < pow2(p) {
        if 2 * rest == unit {
            if j > c + 1 {
                lemma_pow2_strictly_increases(c + 1, j);
            }
            assert(e == p - 1);
            assert(hi % 2 == 1);
        }
        assert(s == big * unit);
    } else if hi % 2 == 1 {
        lemma_pow2_unfold(j + 1);
        assert((hi / 2 + 1) * (2 * unit) == (hi + 1) * unit) by (nonlinear_arith)
            requires
                hi % 2 == 1,
        ;
        assert(s == big * unit);
    } else {
        lemma_pow2_unfold(j + 1);
        assert((hi / 2) * (2 * unit) == hi * unit) by (nonlinear_arith)
            requires
                hi % 2 == 0,
        ;
        assert(s == hi * unit);
        let step = pow2(e + 1);
        lemma_pow2_unfold(e + 1);
        lemma_pow2_adds(j, e + 1);
        lemma_div_multiples_vanish_quotient(unit as int, hi as int, step as int);
        lemma_div_multiples_vanish_quotient(unit as int, big as int, step as int);
        assert(unit * hi == hi * unit) by (nonlinear_arith);
        assert(unit * big == big * unit) by (nonlinear_arith);
        lemma_even_successor_quotient(hi, step);
    }
}

/// A magnitude below one half: the sum stays below one.
proof fn lemma_biased_sum_small(m: nat, j: nat, p: nat, h: nat)
    requires
        p >= 1,
        h >= p,
        m < pow2(p),
        j <= h - p,
    ensures
        round_nearest_even(m * pow2(j) + half_bias(p, h), p) < pow2(h + 1),
        m * pow2(j) + pow2(h) < pow2(h + 1),
{
    let c = (h - p) as nat;
    let delta = pow2(c);
    let x = m * pow2(j);
    let bias = half_bias(p, h);
    let n = x + bias;
    let top = (pow2(p) - 1) as nat;
    lemma_half_bias(p, h);
    lemma_pow2_pos(p);
    lemma_pow2_unfold(p);
    lemma_pow2_unfold(p + 1);
    lemma_pow2_unfold(h + 1);
    lemma_pow2_unfold(c + 1);
    lemma_pow2_adds(p, c);
    lemma_pow2_monotonic(j, c);
    lemma_mul_mono(m, top, pow2(j));
    assert(top * pow2(j) <= top * delta) by (nonlinear_arith)
        requires
            pow2(j) <= delta,
    ;
    assert(x <= bias);
    let hi = n / delta;
    let rest = n % delta;
    lemma_fundamental_div_mod(n as int, delta as int);
    assert(n == hi * delta + rest) by (nonlinear_arith)
        requires
            n == delta * hi + rest,
    ;
    lemma_div_is_ordered(bias as int, n as int, delta as int);
    lemma_div_is_ordered(n as int, (2 * bias) as int, delta as int);
    lemma_fundamental_div_mod_converse(bias as int, delta as int, top as int, 0);
    assert(2 * bias == (2 * top) * delta) by (nonlinear_arith)
        requires
            bias == top * delta,
    ;
    lemma_fundamental_div_mod_converse((2 * bias) as int, delta as int, (2 * top) as int, 0);
    assert(top <= hi <= 2 * top);
    lemma_round_split(hi, rest, c, p);
    let s = round_nearest_even(n, p);
    assert(s == rounded_from_parts(hi, rest, c, c, p));
    if hi < pow2(p) {
        lemma_mul_mono(hi + 1, pow2(p), delta);
    } else {
        lemma_mul_mono(hi / 2 + 1, pow2(p), 2 * delta);
        lemma_mul_strict(hi / 2, pow2(p), 2 * delta);
        lemma_mul_assoc(pow2(p), 2, delta);
        assert(pow2(p) * (2 * delta) == 2 * pow2(h)) by (nonlinear_arith)
            requires
                pow2(p) * delta == pow2(h),
        ;
        if hi % 2 == 1 {
            lemma_mul_strict(hi / 2 + 1, pow2(p), 2 * delta);
        }
    }
}

/// The rounding trick. Let `x = m * 2^j` be a magnitude with a significand of
/// `p` bits, in units of `2^-(h + 1)`. Adding the bias `2^h - 2^(h - p)`,
/// rounding the sum to `p` bits to nearest even and dropping the fraction
/// gives `x` rounded to the nearest whole number, halves upward. The rounded
/// sum is `x` itself when `x` is a whole number of at least `2^(p - 1)`, and
/// stays below `2^(p + h + 1)` otherwise.
pub proof fn lemma_biased_sum(m: nat, j: nat, p: nat, h: nat)
    requires
        p >= 1,
        h >= p,
        m < pow2(p),
        j > 0 ==> m >= pow2((p - 1) as nat),
    ensures
        round_nearest_even(m * pow2(j) + half_bias(p, h), p) / pow2(h + 1) == (m * pow2(j) + pow2(
            h,
        )) / pow2(h + 1),
        j > h ==> round_nearest_even(m * pow2(j) + half_bias(p, h), p) == m * pow2(j),
        j <= h ==> round_nearest_even(m * pow2(j) + half_bias(p, h), p) < pow2(p + h + 1),
{
    let x = m * pow2(j);
    let s = round_nearest_even(x + half_bias(p, h), p);
    lemma_pow2_pos(h + 1);
    lemma_pow2_monotonic(h + 1, p + h + 1);
    if j > h {
        lemma_biased_sum_whole(m, j, p, h);
    } else if j > h - p {
        lemma_biased_sum_fraction(m, j, p, h);
        lemma_pow2_pos(j);
        lemma_mul_strict(m, pow2(p), pow2(j));
        lemma_pow2_adds(p, j);
        lemma_pow2_monotonic(p + j, p + h);
        lemma_pow2_monotonic(h, p + h);
        lemma_pow2_unfold(p + h + 1);
    } else {
        lemma_biased_sum_small(m, j, p, h);
        lemma_fundamental_div_mod_converse(s as int, pow2(h + 1) as int, 0, s as int);
        lemma_fundamental_div_mod_converse(
            (x + pow2(h)) as int,
            pow2(h + 1) as int,
            0,
            (x + pow2(h)) as int,
        );
    }
}

/// Adds two significands of `p` bits after shifting the second one down by
/// `d` bits, and rounds the sum to `p` bits, to nearest, ties to even, by the
/// bits that were shifted out. Returns the rounded significand, which may be
/// `2^p`, and the growth of the scale.
pub(crate) fn add_aligned(mh: u64, ml: u64, d: u64, p: u64) -> (r: (u64, u64))
    requires
        1 <= p <= 61,
        d <= 61,
        mh < pow2(p as nat),
        ml < pow2(p as nat),
    ensures
        r.0 == rounded_significand(
            mh as nat + ml as nat / pow2(d as nat),
            ml as nat % pow2(d as nat),
            d as nat,
            p as nat,
        ),
        r.1 == carry(mh as nat + ml as nat / pow2(d as nat), p as nat),
        r.0 <= pow2(p as nat),
{
    proof {
        lemma_u64_pow2_no_overflow(p as nat);
        lemma_u64_pow2_no_overflow(d as nat);
        lemma_u64_pow2_no_overflow((d + 1) as nat);
        lemma_u64_pow2_no_overflow((p + 1) as nat);
        lemma_pow2_unfold((d + 1) as nat);
        lemma_pow2_unfold((p + 1) as nat);
        lemma_u64_shl_is_mul(1, p);
        lemma_u64_shl_is_mul(1, d);
        lemma_u64_shr_is_div(ml, d);
        lemma_u64_low_bits_mask_is_mod(ml, d as nat);
        lemma_fundamental_div_mod(ml as int, pow2(d as nat) as int);
        assert(ml as nat / pow2(d as nat) <= ml) by (nonlinear_arith)
            requires
                ml == pow2(d as nat) * (ml as nat / pow2(d as nat)) + ml as nat % pow2(d as nat),
                pow2(d as nat) > 0,
        ;
    }
    let limit: u64 = 1u64 << p;
    let unit: u64 = 1u64 << d;
    assert(low_bits_mask(d as nat) == unit - 1);
    let upper: u64 = ml >> d;
    let lower: u64 = ml & (unit - 1);
    let total: u64 = mh + upper;
    if total < limit {
        if 2 * lower > unit || (2 * lower == unit && total % 2 == 1) {
            (total + 1, 0)
        } else {
            (total, 0)
        }
    } else if total % 2 == 1 && (lower > 0 || (total / 2) % 2 == 1) {
        (total / 2 + 1, 1)
    } else {
        (total / 2, 1)
    }
}

} // verus!
