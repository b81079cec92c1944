//! Fixed-point power kernel: `pow(base, y) = exp(y · ln base)`.
//!
//! Domain: `base ∈ (0, 1]`, `y ∈ (0, 99]`. The `exp` argument is always
//! `<= 0` and every result lands in `[0, 1]`, so no large-argument `exp`
//! code is needed.
//!
//! The pipeline runs at `LN_SCALE` = 62 bits and rounds once at the end.
//! One `pow` costs exactly one division (forming `t` inside `ln`);
//! everything else is shifts, multiplies and precomputed constants.

use vstd::prelude::*;
use vstd::arithmetic::power2::{pow2, lemma_pow2_pos, lemma_pow2_strictly_increases};
use vstd::arithmetic::div_mod::{lemma_fundamental_div_mod_converse, lemma_div_is_ordered};
use crate::arith::{lemma_pow2_values, lemma_u128_shr_is_div};
use crate::fixed::{Fixed, ONE, SCALE, unit};
use crate::series::{
    one_62, ln2_62, sqrt2_half_62, exp_coeff, exp_last, exp_horner, exp_lo, exp_hi, s_max,
    exp_table_ok, lemma_exp_horner_bounds, lemma_tables, atanh_coeff, atanh_last,
    atanh_horner, atanh_lo, atanh_hi, atanh_table_ok, lemma_atanh_horner_bounds, u_max, t_max,
    normalize, atanh_arg, ln_approx, ln_bound, exp_approx, lemma_exp_approx_range,
    lemma_ln_approx_range, base_floor_70, ln_upper_70, lemma_ln_approx_upper_70,
    ln_lower_half, lemma_ln_approx_lower_half, lemma_normalize, lemma_atanh_arg_bounds,
    lemma_horner_step, min0, max0,
};
use crate::wide;

verus! {

/// Internal working scale for the ln/exp pipeline.
pub const LN_SCALE: u32 = 62;

const ONE_62: i128 = 0x4000_0000_0000_0000;

/// round(ln(2) · 2^62)
const LN2_62: i128 = 3_196_577_161_300_663_915;

/// round(2^30 / ln(2))
const INV_LN2_30: u128 = 1_549_082_005;

/// round(2^62 / sqrt(2))
const SQRT2_HALF_62: i128 = 3_260_954_456_333_195_553;

/// Largest argument accepted by [`exp_inner`], `2^76`.
pub open spec fn exp_arg_bound() -> int {
    0x1000_0000_0000_0000_0000
}

/// Arithmetic right shift by 62 is floored division by `2^62`.
proof fn lemma_shr62(v: i128)
    ensures
        v >> 62u32 == v as int / one_62(),
{
    assert(v >> 62u32 == v / 0x4000_0000_0000_0000i128) by (bit_vector);
}

/// The `exp` Taylor coefficient `i`.
fn exp_coeff_at(i: usize) -> (c: i128)
    requires
        i <= 19,
    ensures
        c == exp_coeff(i as int),
{
    match i {
        0 => 4_611_686_018_427_387_904,
        1 => -4_611_686_018_427_387_904,
        2 => 2_305_843_009_213_693_952,
        3 => -768_614_336_404_564_651,
        4 => 192_153_584_101_141_163,
        5 => -38_430_716_820_228_233,
        6 => 6_405_119_470_038_039,
        7 => -915_017_067_148_291,
        8 => 114_377_133_393_536,
        9 => -12_708_570_377_060,
        10 => 1_270_857_037_706,
        11 => -115_532_457_973,
        12 => 9_627_704_831,
        13 => -740_592_679,
        14 => 52_899_477,
        15 => -3_526_632,
        16 => 220_414,
        17 => -12_966,
        18 => 720,
        _ => -38,
    }
}

/// `exp(-neg_arg)` at `LN_SCALE`, for `0 <= neg_arg < 2^76` at `LN_SCALE`.
///
/// Range-reduce by `ln2` with one multiply by `1/ln2` (no division), then
/// the alternating Taylor series on the remainder `s ∈ [0, ln2)`. `k > 62`
/// underflows the 62-bit grid and returns 0.
pub fn exp_inner(neg_arg: i128) -> (r: i128)
    requires
        0 <= neg_arg < exp_arg_bound(),
    ensures
        r == exp_approx(neg_arg as int),
        0 <= r <= one_62(),
{
    let prod = (neg_arg as u128) * INV_LN2_30;
    proof {
        lemma_u128_shr_is_div(prod, 92);
        lemma_pow2_values();
        vstd::arithmetic::power2::lemma_pow2_adds(64, 28);
        vstd::arithmetic::power2::lemma2_to64();
        assert(pow2(92) == 0x1000_0000_0000_0000_0000_0000);
        assert(prod < 0x1000_0000_0000_0000_0000_0000_0000) by (nonlinear_arith)
            requires
                prod == neg_arg * 1_549_082_005,
                0 <= neg_arg < 0x1000_0000_0000_0000_0000,
        ;
        lemma_div_is_ordered(prod as int, 0x1000_0000_0000_0000_0000_0000_0000, 0x1000_0000_0000_0000_0000_0000);
    }
    let mut k = (prod >> (30 + LN_SCALE)) as i128;
    let ghost k0 = k;
    assert(0 <= k <= 0x10000);
    let mut s = neg_arg - k * LN2_62;
    while s < 0
        invariant
            0 <= neg_arg < exp_arg_bound(),
            0 <= k <= k0 <= 0x10000,
            s == neg_arg - k * ln2_62(),
        decreases k,
    {
        k -= 1;
        s += LN2_62;
    }
    while s >= LN2_62
        invariant
            0 <= neg_arg < exp_arg_bound(),
            0 <= k <= 0x10000,
            0 <= s,
            s == neg_arg - k * ln2_62(),
        decreases s,
    {
        assert(k + 1 <= 0x10000) by (nonlinear_arith)
            requires
                (k + 1) * ln2_62() <= neg_arg,
                neg_arg < exp_arg_bound(),
                ln2_62() == 3_196_577_161_300_663_915,
                exp_arg_bound() == 0x1000_0000_0000_0000_0000,
        ;
        k += 1;
        s -= LN2_62;
    }
    proof {
        lemma_fundamental_div_mod_converse(neg_arg as int, ln2_62(), k as int, s as int);
    }
    if k > LN_SCALE as i128 {
        return 0;
    }
    proof {
        lemma_tables();
    }
    let mut acc: i128 = exp_coeff_at(19);
    let mut i: usize = 19;
    while i > 0
        invariant
            i <= 19,
            0 <= s <= s_max(),
            acc == exp_horner(i as int, s as int),
            forall|j: int| 0 <= j <= exp_last() ==> #[trigger] exp_table_ok(j),
        decreases i,
    {
        proof {
            lemma_exp_horner_bounds(i as int, s as int);
            assert(exp_table_ok(i as int));
            crate::series::lemma_horner_step(acc as int, s as int, exp_lo(i as int), exp_hi(i as int), s_max());
            assert(-0x8000_0000_0000_0000 * s_max() <= crate::series::min0(exp_lo(i as int) * s_max())) by (nonlinear_arith)
                requires exp_lo(i as int) >= -0x8000_0000_0000_0000, s_max() > 0;
            assert(crate::series::max0(exp_hi(i as int) * s_max()) <= 0x8000_0000_0000_0000 * s_max()) by (nonlinear_arith)
                requires exp_hi(i as int) <= 0x8000_0000_0000_0000, s_max() > 0;
            lemma_shr62((acc * s) as i128);
        }
        i -= 1;
        acc = exp_coeff_at(i) + ((acc * s) >> LN_SCALE);
    }
    proof {
        lemma_exp_horner_bounds(0, s as int);
        lemma_pow2_pos(k as nat);
    }
    shr_nonneg(acc, k as u32)
}

/// The atanh series coefficient `i`.
fn atanh_coeff_at(i: usize) -> (c: i128)
    requires
        i <= 12,
    ensures
        c == atanh_coeff(i as int),
{
    match i {
        0 => 4_611_686_018_427_387_904,
        1 => 1_537_228_672_809_129_301,
        2 => 922_337_203_685_477_581,
        3 => 658_812_288_346_769_701,
        4 => 512_409_557_603_043_100,
        5 => 419_244_183_493_398_900,
        6 => 354_745_078_340_568_300,
        7 => 307_445_734_561_825_860,
        8 => 271_275_648_142_787_524,
        9 => 242_720_316_759_336_205,
        10 => 219_604_096_115_589_900,
        11 => 200_508_087_757_712_518,
        _ => 184_467_440_737_095_516,
    }
}

/// `-ln(x)` at `LN_SCALE`, for `x` at `SCALE` in `(0, ONE]`. Result `>= 0`.
///
/// Shift-normalize into `m ∈ [√2/2, √2)`, one division for
/// `t = (m-1)/(m+1)`, then the odd atanh series:
/// `-ln x = k·ln2 - 2t·P(t²)`.
pub fn ln_inner(x: i128) -> (r: i128)
    requires
        0 < x <= ONE,
    ensures
        r == ln_approx(x as int),
        0 <= r < ln_bound(),
        x == ONE ==> r == 0,
{
    proof {
        assert(x << 10u32 == x * 0x400) by (bit_vector)
            requires 0 < x <= 0x10_0000_0000_0000;
        lemma_pow2_values();
        lemma_normalize(x * 0x400, 52);
    }
    let mut m = x << (LN_SCALE - SCALE);
    let mut k: i128 = 0;
    let ghost n0 = normalize(x * 0x400);
    while m < SQRT2_HALF_62
        invariant
            0 < m < 2 * sqrt2_half_62(),
            0 <= k,
            k + normalize(m as int).0 == n0.0,
            normalize(m as int).1 == n0.1,
            n0.0 <= 52,
        decreases n0.0 - k,
    {
        proof {
            vstd::arithmetic::power2::lemma2_to64();
            lemma_normalize(2 * m, 62);
            assert(m << 1u32 == 2 * m) by (bit_vector)
                requires 0 < m < 0x4000_0000_0000_0000;
        }
        m <<= 1;
        k += 1;
    }
    proof {
        lemma_atanh_arg_bounds(m as int);
        lemma_tables();
    }
    // t = (m - 1)/(m + 1), truncated toward zero: the one division.
    let d = m + ONE_62;
    let t = if m >= ONE_62 {
        let diff = m - ONE_62;
        proof {
            assert(diff << 62u32 == diff * 0x4000_0000_0000_0000) by (bit_vector)
                requires 0 <= diff < 0x4000_0000_0000_0000;
        }
        (diff << LN_SCALE) / d
    } else {
        let diff = ONE_62 - m;
        proof {
            assert(diff << 62u32 == diff * 0x4000_0000_0000_0000) by (bit_vector)
                requires 0 < diff < 0x4000_0000_0000_0000;
        }
        -((diff << LN_SCALE) / d)
    };
    assert(t == atanh_arg(m as int));
    proof {
        assert(t * t <= t_max() * t_max()) by (nonlinear_arith)
            requires -t_max() <= t <= t_max();
        assert(t * t >= 0) by (nonlinear_arith);
        lemma_shr62((t * t) as i128);
        lemma_div_is_ordered((t * t) as int, t_max() * t_max(), one_62());
        vstd::arithmetic::div_mod::lemma_div_pos_is_pos((t * t) as int, one_62());
    }
    let u = (t * t) >> LN_SCALE;
    let mut p: i128 = atanh_coeff_at(12);
    let mut i: usize = 12;
    while i > 0
        invariant
            i <= 12,
            0 <= u <= u_max(),
            p == atanh_horner(i as int, u as int),
            forall|j: int| 0 <= j <= atanh_last() ==> #[trigger] atanh_table_ok(j),
        decreases i,
    {
        proof {
            lemma_atanh_horner_bounds(i as int, u as int);
            assert(atanh_table_ok(i as int));
            lemma_horner_step(p as int, u as int, atanh_lo(i as int), atanh_hi(i as int), u_max());
            assert(max0(atanh_hi(i as int) * u_max()) <= 0x8000_0000_0000_0000 * u_max()) by (nonlinear_arith)
                requires atanh_hi(i as int) <= 0x8000_0000_0000_0000, u_max() > 0;
            assert(min0(atanh_lo(i as int) * u_max()) == 0) by (nonlinear_arith)
                requires atanh_lo(i as int) >= 0, u_max() > 0;
            lemma_shr62((p * u) as i128);
        }
        i -= 1;
        p = atanh_coeff_at(i) + ((p * u) >> LN_SCALE);
    }
    proof {
        lemma_atanh_horner_bounds(0, u as int);
        assert(-t_max() * 4_657_754_258_317_241_725 <= t * p <= t_max() * 4_657_754_258_317_241_725)
            by (nonlinear_arith)
            requires
                -t_max() <= t <= t_max(),
                0 <= p <= 4_657_754_258_317_241_725,
                t_max() > 0,
        ;
        assert(((t * p) as i128) >> 61u32 == (t * p) / 0x2000_0000_0000_0000) by {
            let v = (t * p) as i128;
            assert(v >> 61u32 == v / 0x2000_0000_0000_0000i128) by (bit_vector);
        }
        if m <= ONE_62 {
            assert(t * p <= 0) by (nonlinear_arith)
                requires t <= 0, p >= 0;
            vstd::arithmetic::div_mod::lemma_div_is_ordered((t * p) as int, 0, 0x2000_0000_0000_0000);
        }
        lemma_div_is_ordered((t * p) as int, t_max() * 4_657_754_258_317_241_725, 0x2000_0000_0000_0000);
        lemma_div_is_ordered(-t_max() * 4_657_754_258_317_241_725, (t * p) as int, 0x2000_0000_0000_0000);
        if k == 0 {
            lemma_normalize(x * 0x400, 52);
        }
    }
    let ln_m = (t * p) >> (LN_SCALE - 1); // 2·t·P(u)
    k * LN2_62 - ln_m
}

/// `v >> k` for a nonnegative `v`, as division by `2^k`.
fn shr_nonneg(v: i128, k: u32) -> (r: i128)
    requires
        0 <= v,
        k < 127,
    ensures
        r == v as int / (pow2(k as nat) as int),
        0 <= r <= v,
{
    proof {
        assert(v >> k == ((v as u128) >> k) as i128) by (bit_vector)
            requires
                0 <= v,
                k < 127,
        ;
        lemma_u128_shr_is_div(v as u128, k);
        lemma_pow2_pos(k as nat);
        vstd::arithmetic::div_mod::lemma_div_is_ordered_by_denominator(v as int, 1, pow2(k as nat) as int);
        vstd::arithmetic::div_mod::lemma_div_basics(v as int);
    }
    v >> k
}

/// Round a nonnegative 62-bit value to the nearest `2^-52` step (ties
/// upward): `floor((v + 2^9) / 2^10)`.
pub open spec fn nearest_52(v: int) -> int {
    (v + 0x200) / 0x400
}

/// Rounds a nonnegative `LN_SCALE` value to `SCALE`, nearest.
fn to_scale_nearest(v62: i128) -> (r: i128)
    requires
        0 <= v62 < ln_bound(),
    ensures
        r == nearest_52(v62 as int),
        0 <= r,
        v62 <= one_62() ==> r <= unit(),
{
    proof {
        let w = (v62 + 0x200) as i128;
        assert(w >> 10u32 == w / 0x400i128) by (bit_vector);
        if v62 <= one_62() {
            lemma_div_is_ordered(w as int, one_62() + 0x200, 0x400);
        }
        lemma_div_is_ordered(w as int, ln_bound() + 0x200, 0x400);
        vstd::arithmetic::div_mod::lemma_div_pos_is_pos(w as int, 0x400);
    }
    (v62 + NEAREST_HALF) >> (LN_SCALE - SCALE)
}

/// Half a `2^-SCALE` step at `LN_SCALE`: `2^(LN_SCALE - SCALE - 1)`.
const NEAREST_HALF: i128 = 0x200;

/// The value of [`ln`]: `-ln(x)` from the 62-bit pipeline, rounded to
/// nearest and negated.
pub open spec fn ln_value(x: int) -> int {
    -nearest_52(ln_approx(x))
}

/// Natural logarithm of `x ∈ (0, 1]`; result `<= 0`, nearest-rounded.
pub fn ln(x: Fixed) -> (r: Fixed)
    requires
        0 < x.0 <= ONE,
    ensures
        r.0 == ln_value(x.0 as int),
        r.0 <= 0,
        x.0 == ONE ==> r.0 == 0,
{
    Fixed(-to_scale_nearest(ln_inner(x.0)))
}

/// `exp`/`expm1` saturate at `x <= -64`, where the true `exp(x) < 2^-92`.
const EXP_SATURATION: i128 = 0x400_0000_0000_0000;

/// Arguments at or below this saturate: `-64` at `SCALE`.
pub open spec fn exp_saturation() -> int {
    64 * unit()
}

/// The value of [`exp`].
pub open spec fn exp_value(x: int) -> int {
    if x <= -exp_saturation() {
        0
    } else {
        nearest_52(exp_approx(-x * 0x400))
    }
}

/// The value of [`expm1`].
pub open spec fn expm1_value(x: int) -> int {
    if x <= -exp_saturation() {
        -unit()
    } else {
        -nearest_52(one_62() - exp_approx(-x * 0x400))
    }
}

/// The series evaluated at zero is its leading coefficient, one.
proof fn lemma_exp_at_zero()
    ensures
        exp_approx(0) == one_62(),
{
    assert(exp_horner(0, 0) == exp_coeff(0) + exp_horner(1, 0) * 0 / one_62());
    assert(exp_horner(1, 0) * 0 == 0);
    assert(0int / one_62() == 0);
    assert(0int / ln2_62() == 0);
    assert(0int % ln2_62() == 0);
    vstd::arithmetic::power2::lemma2_to64();
    assert(exp_horner(0, 0) / (pow2(0) as int) == exp_horner(0, 0));
}

/// `-x · 2^10` for a nonsaturated `x <= 0`.
fn exp_argument(x: Fixed) -> (a: i128)
    requires
        -exp_saturation() < x.0 <= 0,
    ensures
        a == -x.0 * 0x400,
        0 <= a < exp_arg_bound(),
{
    let n = -x.0;
    proof {
        assert(n << 10u32 == n * 0x400) by (bit_vector)
            requires 0 <= n < 0x400_0000_0000_0000;
    }
    n << (LN_SCALE - SCALE)
}

/// Natural exponential of `x <= 0`; result in `[0, 1]`, nearest-rounded
/// (zero means the true value underflows the `2^-SCALE` grid).
pub fn exp(x: Fixed) -> (r: Fixed)
    requires
        x.0 <= 0,
    ensures
        r.0 == exp_value(x.0 as int),
        0 <= r.0 <= ONE,
        x.0 == 0 ==> r.0 == ONE,
{
    if x.0 <= -EXP_SATURATION {
        return Fixed(0);
    }
    proof {
        lemma_exp_at_zero();
    }
    Fixed(to_scale_nearest(exp_inner(exp_argument(x))))
}

/// `exp(x) - 1` for `x <= 0`, accurate near zero; result in `[-1, 0]`.
///
/// Computed as the exact 62-bit complement `1 - exp_inner(-x)`, so there is
/// no cancellation.
pub fn expm1(x: Fixed) -> (r: Fixed)
    requires
        x.0 <= 0,
    ensures
        r.0 == expm1_value(x.0 as int),
        -ONE <= r.0 <= 0,
        x.0 == 0 ==> r.0 == 0,
{
    if x.0 <= -EXP_SATURATION {
        return Fixed(-ONE);
    }
    proof {
        lemma_exp_at_zero();
    }
    let omp62 = ONE_62 - exp_inner(exp_argument(x));
    Fixed(-to_scale_nearest(omp62))
}

/// `exp` and `expm1` agree to one ulp: `|(exp(x) - 1) - expm1(x)| <= 1`,
/// on the whole nonpositive line.
pub proof fn law_exp_expm1_agree(x: int)
    requires
        x <= 0,
    ensures
        -1 <= (exp_value(x) - unit()) - expm1_value(x) <= 1,
{
    if x > -exp_saturation() {
        let e = exp_approx(-x * 0x400);
        let a = nearest_52(e);
        let b = nearest_52(one_62() - e);
        crate::arith::lemma_floor_bounds(e + 0x200, 0x400);
        crate::arith::lemma_floor_bounds(one_62() - e + 0x200, 0x400);
    }
}

/// Pool-favouring pad for the 62-bit swap-path results: `2^-53`.
pub const PAD_62: i128 = 512;

/// Padding applied by `pow_up`/`pow_down`, in ulps at `SCALE`.
pub const POW_PAD_ULPS: i128 = 2;

/// The pipeline's `exp` argument `exponent · (-ln base)` at 62 bits,
/// floored through the widened multiply.
pub open spec fn pow_arg(base: int, exponent: int) -> int {
    exponent * ln_approx(base) / unit()
}

/// `base^exponent` at `LN_SCALE`, unpadded.
pub open spec fn pow_62_value(base: int, exponent: int) -> int {
    exp_approx(pow_arg(base, exponent))
}

/// `1 - base^exponent` at `LN_SCALE`, padded down and floored at zero.
pub open spec fn one_minus_pow_62_value(base: int, exponent: int) -> int {
    let v = one_62() - pow_62_value(base, exponent) - PAD_62;
    if v > 0 { v } else { 0 }
}

/// `base^exponent` at `LN_SCALE`, padded down and floored at zero.
pub open spec fn pow_62_down_value(base: int, exponent: int) -> int {
    let v = pow_62_value(base, exponent) - PAD_62;
    if v > 0 { v } else { 0 }
}

/// `base^exponent` nearest-rounded to `SCALE`.
pub open spec fn pow_value(base: int, exponent: int) -> int {
    nearest_52(pow_62_value(base, exponent))
}

/// `base^exponent` padded down by two ulps, floored at zero.
pub open spec fn pow_down_value(base: int, exponent: int) -> int {
    let v = pow_value(base, exponent) - POW_PAD_ULPS;
    if v > 0 { v } else { 0 }
}

/// `base^exponent` padded up by two ulps, capped at one.
pub open spec fn pow_up_value(base: int, exponent: int) -> int {
    let v = pow_value(base, exponent) + POW_PAD_ULPS;
    if v < unit() { v } else { unit() }
}

/// Largest exponent of the pow domain, `99` at `SCALE`.
pub open spec fn max_exponent() -> int {
    99 * unit()
}

/// The exponent domain `(0, 99]`.
pub open spec fn exponent_in_domain(exponent: int) -> bool {
    0 < exponent <= max_exponent()
}

/// `exponent · (-ln base)` through the widened multiply, which stays inside
/// the `exp_inner` envelope.
fn pow_argument(base: Fixed, exponent: Fixed) -> (a: i128)
    requires
        0 < base.0 <= ONE,
        exponent_in_domain(exponent.0 as int),
    ensures
        a == pow_arg(base.0 as int, exponent.0 as int),
        0 <= a < exp_arg_bound(),
{
    let neg_ln = ln_inner(base.0);
    proof {
        lemma_pow2_values();
        let e = exponent.0 as int;
        let n = neg_ln as int;
        assert(e * n <= 99 * unit() * ln_bound()) by (nonlinear_arith)
            requires 0 < e <= 99 * unit(), 0 <= n < ln_bound();
        assert(e * n >= 0) by (nonlinear_arith)
            requires 0 < e, 0 <= n;
        lemma_div_is_ordered(e * n, 99 * unit() * ln_bound(), unit());
        vstd::arithmetic::div_mod::lemma_div_pos_is_pos(e * n, unit());
        assert((99 * unit() * ln_bound()) / unit() == 99 * ln_bound()) by {
            vstd::arithmetic::div_mod::lemma_div_multiples_vanish(99 * ln_bound(), unit());
        }
    }
    wide::mul_shr(exponent.0 as u128, neg_ln as u128, SCALE) as i128
}

/// `exp(exponent · ln base)` at `LN_SCALE`, unpadded: the shared core of
/// the 62-bit swap paths.
fn pow_62(base: Fixed, exponent: Fixed) -> (r: i128)
    requires
        0 < base.0 < ONE,
        exponent_in_domain(exponent.0 as int),
    ensures
        r == pow_62_value(base.0 as int, exponent.0 as int),
        0 <= r <= one_62(),
{
    exp_inner(pow_argument(base, exponent))
}

/// `1 - base^exponent` at `LN_SCALE`, padded down (pool-favouring), for
/// the payout path. The subtraction is exact, and the guard bits carry
/// small differences into the final widened multiply.
pub fn one_minus_pow_62(base: Fixed, exponent: Fixed) -> (r: i128)
    requires
        0 < base.0 < ONE,
        exponent_in_domain(exponent.0 as int),
    ensures
        r == one_minus_pow_62_value(base.0 as int, exponent.0 as int),
        0 <= r <= one_62(),
{
    let v = ONE_62 - pow_62(base, exponent) - PAD_62;
    if v > 0 { v } else { 0 }
}

/// `base^exponent` at `LN_SCALE`, padded down, for the exact-out payment
/// path: an understated power overstates the payment.
pub fn pow_62_down(base: Fixed, exponent: Fixed) -> (r: i128)
    requires
        0 < base.0 < ONE,
        exponent_in_domain(exponent.0 as int),
    ensures
        r == pow_62_down_value(base.0 as int, exponent.0 as int),
        0 <= r < one_62(),
{
    let v = pow_62(base, exponent) - PAD_62;
    if v > 0 { v } else { 0 }
}

/// `exp(exponent · ln base)`, nearest-rounded to `SCALE`.
fn pow_raw(base: Fixed, exponent: Fixed) -> (r: i128)
    requires
        0 < base.0 <= ONE,
        exponent_in_domain(exponent.0 as int),
    ensures
        r == pow_value(base.0 as int, exponent.0 as int),
        0 <= r <= unit(),
{
    to_scale_nearest(exp_inner(pow_argument(base, exponent)))
}

/// `base^exponent`, both fixed-point, nearest-rounded; use `pow_down` /
/// `pow_up` when the direction matters.
pub fn pow(base: Fixed, exponent: Fixed) -> (r: Fixed)
    requires
        0 < base.0 <= ONE,
        exponent_in_domain(exponent.0 as int),
    ensures
        r.0 == pow_value(base.0 as int, exponent.0 as int),
        0 <= r.0 <= ONE,
{
    Fixed(pow_raw(base, exponent))
}

/// `base^exponent` rounded down (padded below the nearest value).
pub fn pow_down(base: Fixed, exponent: Fixed) -> (r: Fixed)
    requires
        0 < base.0 <= ONE,
        exponent_in_domain(exponent.0 as int),
    ensures
        r.0 == pow_down_value(base.0 as int, exponent.0 as int),
        0 <= r.0 <= ONE,
{
    let v = pow_raw(base, exponent) - POW_PAD_ULPS;
    Fixed(if v > 0 { v } else { 0 })
}

/// `base^exponent` rounded up (padded above the nearest value), capped at
/// one. Never zero.
pub fn pow_up(base: Fixed, exponent: Fixed) -> (r: Fixed)
    requires
        0 < base.0 <= ONE,
        exponent_in_domain(exponent.0 as int),
    ensures
        r.0 == pow_up_value(base.0 as int, exponent.0 as int),
        0 < r.0 <= ONE,
{
    let v = pow_raw(base, exponent) + POW_PAD_ULPS;
    Fixed(if v < ONE { v } else { ONE })
}

/// The directional variants bracket each other inside `(0, 1]`: `pow_up`
/// is positive and at most one, `pow_down` is nonnegative and at most
/// `pow_up`, and the nearest value lies between them.
pub proof fn law_pow_brackets(base: int, exponent: int)
    requires
        0 < base <= unit(),
        exponent_in_domain(exponent),
    ensures
        0 < pow_up_value(base, exponent) <= unit(),
        0 <= pow_down_value(base, exponent) <= pow_value(base, exponent),
        pow_value(base, exponent) <= pow_up_value(base, exponent),
        pow_down_value(base, exponent) <= pow_up_value(base, exponent),
{
    lemma_pow_value_range(base, exponent);
}

/// The 62-bit power lies in `[0, 1]`.
pub proof fn lemma_pow62_range(base: int, exponent: int)
    requires
        0 < base <= unit(),
        exponent_in_domain(exponent),
    ensures
        0 <= pow_arg(base, exponent),
        0 <= pow_62_value(base, exponent) <= one_62(),
{
    lemma_ln_approx_range(base);
    assert(exponent * ln_approx(base) >= 0) by (nonlinear_arith)
        requires exponent > 0, ln_approx(base) >= 0;
    vstd::arithmetic::div_mod::lemma_div_pos_is_pos(exponent * ln_approx(base), unit());
    lemma_exp_approx_range(pow_arg(base, exponent));
}

/// On bases of at least about `0.7` the 62-bit power stays above 628
/// units, even at the largest exponent: `0.7^99` is far above the grid.
pub proof fn lemma_pow62_floor_70(base: int, exponent: int)
    requires
        base_floor_70() <= base <= unit(),
        exponent_in_domain(exponent),
    ensures
        pow_62_value(base, exponent) >= 628,
{
    lemma_ln_approx_range(base);
    lemma_ln_approx_upper_70(base);
    let l = ln_approx(base);
    let a = pow_arg(base, exponent);
    assert(exponent * l <= 99 * unit() * ln_upper_70()) by (nonlinear_arith)
        requires 0 < exponent <= 99 * unit(), 0 <= l <= ln_upper_70();
    assert(exponent * l >= 0) by (nonlinear_arith)
        requires 0 < exponent, 0 <= l;
    lemma_div_is_ordered(exponent * l, 99 * unit() * ln_upper_70(), unit());
    vstd::arithmetic::div_mod::lemma_div_multiples_vanish(99 * ln_upper_70(), unit());
    vstd::arithmetic::div_mod::lemma_div_pos_is_pos(exponent * l, unit());
    assert(a <= 99 * ln_upper_70());
    let k = a / ln2_62();
    let s = a % ln2_62();
    lemma_div_is_ordered(a, 99 * ln_upper_70(), ln2_62());
    assert(99 * ln_upper_70() / ln2_62() == 51);
    vstd::arithmetic::div_mod::lemma_mod_bound(a, ln2_62());
    vstd::arithmetic::div_mod::lemma_div_pos_is_pos(a, ln2_62());
    lemma_tables();
    lemma_exp_horner_bounds(0, s);
    let h = exp_horner(0, s);
    lemma_pow2_pos(k as nat);
    if k < 51 {
        lemma_pow2_strictly_increases(k as nat, 51);
    }
    vstd::arithmetic::power2::lemma2_to64();
    vstd::arithmetic::power2::lemma2_to64_rest();
    assert(pow2(51) == 0x8_0000_0000_0000);
    vstd::arithmetic::div_mod::lemma_div_is_ordered_by_denominator(h, pow2(k as nat) as int, pow2(51) as int);
    lemma_div_is_ordered(1_415_108_857_126_723_990, h, pow2(51) as int);
}

/// Smallest exponent of the weight envelope: `floor(2^52 / 99)`.
pub open spec fn min_exponent() -> int {
    45_490_905_326_974
}

/// How far below one the 62-bit power stays on bases of at most about one
/// half: `1 - 0.5^(1/99)` is about `0.0070`, of which the series keeps at
/// least `0.00457` at 62 bits.
pub open spec fn pow62_gap_half() -> int {
    21_098_261_999_007_014
}

/// On bases of at most about one half, even the smallest exponent keeps the
/// 62-bit power at least [`pow62_gap_half`] below one.
pub proof fn lemma_pow62_ceiling_half(base: int, exponent: int)
    requires
        1 <= base <= unit() / 2 + 2,
        min_exponent() <= exponent <= max_exponent(),
    ensures
        pow_62_value(base, exponent) <= one_62() - pow62_gap_half(),
{
    lemma_ln_approx_range(base);
    lemma_ln_approx_lower_half(base);
    let l = ln_approx(base);
    let a = pow_arg(base, exponent);
    let a_min = 32_288_658_194_955_657int;
    assert(exponent * l >= min_exponent() * ln_lower_half()) by (nonlinear_arith)
        requires exponent >= min_exponent(), l >= ln_lower_half(), min_exponent() > 0, ln_lower_half() > 0;
    lemma_div_is_ordered(min_exponent() * ln_lower_half(), exponent * l, unit());
    assert(min_exponent() * ln_lower_half() / unit() == a_min);
    assert(a >= a_min);
    let k = a / ln2_62();
    let s = a % ln2_62();
    vstd::arithmetic::div_mod::lemma_mod_bound(a, ln2_62());
    vstd::arithmetic::div_mod::lemma_div_pos_is_pos(a, ln2_62());
    vstd::arithmetic::div_mod::lemma_fundamental_div_mod(a, ln2_62());
    lemma_tables();
    lemma_exp_horner_bounds(0, s);
    let h = exp_horner(0, s);
    if k == 0 {
        assert(s == a);
        lemma_exp_horner_bounds(1, s);
        let h1 = exp_horner(1, s);
        assert(h == exp_coeff(0) + h1 * s / one_62());
        assert(h1 * s <= -3_013_397_437_777_055_947 * a_min) by (nonlinear_arith)
            requires h1 <= -3_013_397_437_777_055_947, s >= a_min, a_min > 0;
        lemma_div_is_ordered(h1 * s, -3_013_397_437_777_055_947 * a_min, one_62());
        assert(-3_013_397_437_777_055_947 * a_min / one_62() == -pow62_gap_half());
        vstd::arithmetic::power2::lemma2_to64();
    } else if k <= 62 {
        lemma_pow2_pos(k as nat);
        vstd::arithmetic::power2::lemma2_to64();
        if k > 1 {
            lemma_pow2_strictly_increases(1, k as nat);
        }
        vstd::arithmetic::div_mod::lemma_div_is_ordered_by_denominator(h, 2, pow2(k as nat) as int);
        lemma_div_is_ordered(h, one_62(), 2);
    }
}

/// The nearest-rounded power lies in `[0, 1]`.
pub proof fn lemma_pow_value_range(base: int, exponent: int)
    requires
        0 < base <= unit(),
        exponent_in_domain(exponent),
    ensures
        0 <= pow_value(base, exponent) <= unit(),
{
    lemma_pow62_range(base, exponent);
    let v = pow_62_value(base, exponent);
    lemma_div_is_ordered(v + 0x200, one_62() + 0x200, 0x400);
    vstd::arithmetic::div_mod::lemma_div_pos_is_pos(v + 0x200, 0x400);
}

} // verus!
