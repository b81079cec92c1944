//! The curve invariant `b_in^w_in · b_out^w_out` across a trade, reduced to
//! the one property of the kernel that integer reasoning cannot reach: the
//! side on which the fixed-point power errs.
//!
//! Every other rounding of the two swap paths (the base ratio, the
//! exponent, the final multiply and divisions) is shown here to favour the
//! pool, so each path keeps the curve whenever the power it computes lies on
//! the pool-safe side of the true power of its own fixed-point inputs.

use vstd::prelude::*;
use vstd::arithmetic::power::{pow, lemma_pow_positive, lemma_pow_adds, lemma_pow_multiplies, lemma_pow_distributes};
use crate::arith::{lemma_floor_bounds, lemma_ceil_bounds, lemma_pow2_values};
use crate::fixed::unit;
use crate::harness::curve_preserved;
use crate::pow::{one_minus_pow_62_value, pow_62_down_value, lemma_pow62_range, lemma_pow62_floor_70};
use crate::series::one_62;
use crate::weighted::{
    out_given_in_envelope, out_given_in_value, ratio_up_value, exponent_down,
    law_ratio_up_never_understates, lemma_ratio_up_defined, lemma_exponents,
    in_given_out_envelope, in_given_out_value, in_base_value, exponent_up, in_power_62, in_ratio_62,
    law_ratio_down_never_overstates, lemma_in_base_floor,
};

verus! {

/// `(p / 2^62)^(2^52) >= (base / 2^52)^exponent`: the 62-bit power `p` is
/// at least the true power `(base / 2^52)^(exponent / 2^52)`, compared in
/// integers after raising both sides to the `2^52`-th power.
pub open spec fn power_at_least(p: int, base: int, exponent: int) -> bool {
    pow(p, unit() as nat) * pow(unit(), exponent as nat) >= pow(base, exponent as nat) * pow(one_62(), unit() as nat)
}

/// `(p / 2^62)^(2^52) <= (base / 2^52)^exponent`: the 62-bit power `p` is
/// at most the true power `(base / 2^52)^(exponent / 2^52)`.
pub open spec fn power_at_most(p: int, base: int, exponent: int) -> bool {
    pow(p, unit() as nat) * pow(unit(), exponent as nat) <= pow(base, exponent as nat) * pow(one_62(), unit() as nat)
}

/// Powers of a nonnegative integer are nonnegative.
proof fn lemma_pow_nonneg(x: int, n: nat)
    requires
        x >= 0,
    ensures
        pow(x, n) >= 0,
    decreases n,
{
    reveal(pow);
    if n > 0 {
        lemma_pow_nonneg(x, (n - 1) as nat);
        let q = pow(x, (n - 1) as nat);
        assert(x * q >= 0) by (nonlinear_arith) requires x >= 0, q >= 0;
    }
}

/// `x <= y` implies `x^n <= y^n` on nonnegative integers.
proof fn lemma_pow_mono(x: int, y: int, n: nat)
    requires
        0 <= x <= y,
    ensures
        pow(x, n) <= pow(y, n),
    decreases n,
{
    reveal(pow);
    if n > 0 {
        lemma_pow_mono(x, y, (n - 1) as nat);
        lemma_pow_nonneg(x, (n - 1) as nat);
        let a = pow(x, (n - 1) as nat);
        let b = pow(y, (n - 1) as nat);
        assert(x * a <= y * b) by (nonlinear_arith) requires 0 <= x <= y, 0 <= a <= b;
    }
}

/// `x < y` implies `x^n < y^n` on nonnegative integers, for `n > 0`.
proof fn lemma_pow_strict_mono(x: int, y: int, n: nat)
    requires
        0 <= x < y,
        n > 0,
    ensures
        pow(x, n) < pow(y, n),
    decreases n,
{
    reveal(pow);
    if n == 1 {
        vstd::arithmetic::power::lemma_pow1(x);
        vstd::arithmetic::power::lemma_pow1(y);
    } else {
        lemma_pow_strict_mono(x, y, (n - 1) as nat);
        lemma_pow_nonneg(x, (n - 1) as nat);
        let a = pow(x, (n - 1) as nat);
        let b = pow(y, (n - 1) as nat);
        assert(x * a < y * b) by (nonlinear_arith) requires 0 <= x < y, 0 <= a < b;
    }
}

/// Taking an `n`-th root keeps the order: `x^n <= y^n` implies `x <= y`
/// on nonnegative integers, for `n > 0`.
proof fn lemma_pow_root(x: int, y: int, n: nat)
    requires
        x >= 0,
        y >= 0,
        n > 0,
        pow(x, n) <= pow(y, n),
    ensures
        x <= y,
{
    if x > y {
        lemma_pow_strict_mono(y, x, n);
    }
}

/// For `0 <= b <= s` and `j <= k`: `b^j · s^k >= b^k · s^j`, i.e. a ratio
/// `b / s` at most one shrinks as its exponent grows.
proof fn lemma_ratio_pow_shrinks(b: int, s: int, j: nat, k: nat)
    requires
        0 <= b <= s,
        j <= k,
    ensures
        pow(b, j) * pow(s, k) >= pow(b, k) * pow(s, j),
{
    let d = (k - j) as nat;
    lemma_pow_adds(b, j, d);
    lemma_pow_adds(s, j, d);
    lemma_pow_mono(b, s, d);
    lemma_pow_nonneg(b, j);
    lemma_pow_nonneg(s, j);
    lemma_pow_nonneg(b, d);
    let bj = pow(b, j);
    let sj = pow(s, j);
    let bd = pow(b, d);
    let sd = pow(s, d);
    assert(bj * (sj * sd) >= (bj * bd) * sj) by (nonlinear_arith)
        requires bj >= 0, sj >= 0, 0 <= bd <= sd;
}

/// Raises both sides of `x · y >= z · w` to the `n`-th power.
proof fn lemma_pow_cross(x: int, y: int, z: int, w: int, n: nat)
    requires
        x >= 0,
        y >= 0,
        z >= 0,
        w >= 0,
        x * y >= z * w,
    ensures
        pow(x, n) * pow(y, n) >= pow(z, n) * pow(w, n),
{
    assert(z * w >= 0) by (nonlinear_arith) requires z >= 0, w >= 0;
    lemma_pow_mono(z * w, x * y, n);
    lemma_pow_distributes(x, y, n);
    lemma_pow_distributes(z, w, n);
}

/// The exact-in path keeps the curve whenever the power behind its
/// complement is not understated: the base `balance_in / total` rounds up
/// and the exponent `weight_in / weight_out` rounds down, both of which
/// overstate the power of a base below one, and the payout floors.
///
/// Stated for integer weights (the curve's exponents), on every trade of the
/// exact-in envelope whose quantized power `p = 2^62 - (1 - power)` satisfies
/// `(p / 2^62)^(2^52) >= (base / 2^52)^exponent` for the kernel's own
/// fixed-point base and exponent.
pub proof fn law_exact_in_keeps_curve_given_power_bound(
    balance_in: int,
    weight_in: int,
    balance_out: int,
    weight_out: int,
    amount_in: int,
)
    requires
        amount_in >= 0,
        out_given_in_envelope(balance_in, weight_in, balance_out, weight_out, amount_in),
        ({
            let base = ratio_up_value(balance_in, balance_in + amount_in);
            let e = exponent_down(weight_in, weight_out);
            base < unit() ==> power_at_least(one_62() - one_minus_pow_62_value(base, e), base, e)
        }),
    ensures
        curve_preserved(
            balance_in,
            weight_in,
            balance_out,
            weight_out,
            amount_in,
            out_given_in_value(balance_in, weight_in, balance_out, weight_out, amount_in),
        ),
{
    let bi = balance_in;
    let bo = balance_out;
    let wi = weight_in as nat;
    let wo = weight_out as nat;
    let total = bi + amount_in;
    let s = unit();
    let t = one_62();
    let base = ratio_up_value(bi, total);
    let e = exponent_down(weight_in, weight_out);
    let out = out_given_in_value(bi, weight_in, bo, weight_out, amount_in);
    lemma_pow2_values();
    lemma_pow_nonneg(total, wi);
    lemma_pow_nonneg(bi, wi);
    lemma_pow_nonneg(bo, wo);
    if base >= s {
        assert(out == 0);
        lemma_pow_mono(bi, total, wi);
        let a = pow(bi, wi);
        let b = pow(total, wi);
        let c = pow(bo, wo);
        assert(b * c >= a * c) by (nonlinear_arith) requires 0 <= a <= b, c >= 0;
        return;
    }
    lemma_ratio_up_defined(bi, total);
    law_ratio_up_never_understates(bi, total);
    lemma_exponents(weight_in, weight_out);
    lemma_floor_bounds(weight_in * s, weight_out);
    assert(base > 0) by (nonlinear_arith)
        requires base * total >= bi * s, bi >= 1, total >= 1, s > 0;
    lemma_pow62_range(base, e);
    let omp = one_minus_pow_62_value(base, e);
    let p = t - omp;
    assert(0 <= omp <= t);
    let n = s as nat;
    let en = e as nat;
    let j = (e * weight_out) as nat;
    let k = (weight_in * s) as nat;
    assert(e * weight_out <= weight_in * s);
    // The hypothesis, raised to the weight_out-th power.
    lemma_pow_nonneg(p, n);
    lemma_pow_nonneg(s, en);
    lemma_pow_nonneg(base, en);
    lemma_pow_nonneg(t, n);
    lemma_pow_cross(pow(p, n), pow(s, en), pow(base, en), pow(t, n), wo);
    lemma_pow_multiplies(p, n, wo);
    lemma_pow_multiplies(s, en, wo);
    lemma_pow_multiplies(base, en, wo);
    lemma_pow_multiplies(t, n, wo);
    assert(en * wo == j);
    let x1 = pow(p, n * wo);
    let x2 = pow(s, j);
    let x3 = pow(base, j);
    let x4 = pow(t, n * wo);
    let x5 = pow(s, k);
    let x6 = pow(base, k);
    let x7 = pow(total, k);
    let x8 = pow(bi, k);
    assert(x1 * x2 >= x3 * x4);
    // The exponent rounded down: the base below one loses less.
    lemma_ratio_pow_shrinks(base, s, j, k);
    assert(x3 * x5 >= x6 * x2);
    // The base rounded up: base · total >= balance_in · 2^52.
    lemma_pow_cross(base, total, bi, s, k);
    assert(x6 * x7 >= x8 * x5);
    lemma_pow_positive(s, j);
    lemma_pow_positive(s, k);
    lemma_pow_nonneg(p, n * wo);
    lemma_pow_nonneg(base, j);
    lemma_pow_nonneg(t, n * wo);
    lemma_pow_nonneg(base, k);
    lemma_pow_nonneg(total, k);
    lemma_pow_nonneg(bi, k);
    assert(x1 * x7 >= x8 * x4) by (nonlinear_arith)
        requires
            x1 * x2 >= x3 * x4,
            x3 * x5 >= x6 * x2,
            x6 * x7 >= x8 * x5,
            x2 > 0,
            x5 > 0,
            x1 >= 0,
            x3 >= 0,
            x4 >= 0,
            x6 >= 0,
            x7 >= 0,
            x8 >= 0,
    {
        assert(x1 * x2 * (x5 * x7) >= x3 * x4 * (x5 * x7));
        assert(x3 * x5 * (x4 * x7) >= x6 * x2 * (x4 * x7));
        assert(x6 * x7 * (x2 * x4) >= x8 * x5 * (x2 * x4));
        assert((x1 * x7) * (x2 * x5) >= (x8 * x4) * (x2 * x5));
    }
    // Back from the 2^52-th power: p^wo · total^wi >= balance_in^wi · (2^62)^wo.
    assert(k == wi * n);
    assert(n * wo == wo * n) by (nonlinear_arith);
    lemma_pow_multiplies(p, wo, n);
    lemma_pow_multiplies(total, wi, n);
    lemma_pow_multiplies(bi, wi, n);
    lemma_pow_multiplies(t, wo, n);
    lemma_pow_nonneg(p, wo);
    lemma_pow_nonneg(t, wo);
    let pw = pow(p, wo);
    let tw = pow(t, wo);
    let yi = pow(total, wi);
    let ui = pow(bi, wi);
    lemma_pow_distributes(pw, yi, n);
    lemma_pow_distributes(ui, tw, n);
    assert(pw * yi >= 0) by (nonlinear_arith) requires pw >= 0, yi >= 0;
    assert(ui * tw >= 0) by (nonlinear_arith) requires ui >= 0, tw >= 0;
    lemma_pow_root(ui * tw, pw * yi, n);
    // The payout floors: (balance_out - out) · 2^62 >= balance_out · p.
    lemma_floor_bounds(bo * omp, t);
    assert(out * t <= bo * omp);
    assert(out <= bo) by (nonlinear_arith)
        requires out * t <= bo * omp, omp <= t, t > 0, bo >= 0;
    assert((bo - out) * t >= bo * p) by (nonlinear_arith)
        requires out * t <= bo * omp, p == t - omp;
    assert(p >= 0);
    lemma_pow_cross(bo - out, t, bo, p, wo);
    let z = pow(bo - out, wo);
    let v = pow(bo, wo);
    lemma_pow_nonneg(bo - out, wo);
    lemma_pow_positive(t, wo);
    assert(yi * z >= ui * v) by (nonlinear_arith)
        requires
            pw * yi >= ui * tw,
            z * tw >= v * pw,
            tw > 0,
            yi >= 0,
            ui >= 0,
            v >= 0,
            pw >= 0,
    {
        assert(yi * (z * tw) >= yi * (v * pw));
        assert(v * (pw * yi) >= v * (ui * tw));
        assert((yi * z) * tw >= (ui * v) * tw);
    }
}

/// The exact-out path keeps the curve whenever the power it divides by is
/// not overstated: the base `(balance_out - amount_out) / balance_out`
/// rounds down and the exponent `weight_out / weight_in` rounds up, both of
/// which understate the power of a base below one, and the two divisions
/// that turn `(1 - p) / p` into a payment round up.
///
/// Stated for integer weights (the curve's exponents), on every trade of the
/// exact-out envelope whose padded power `p` satisfies
/// `(p / 2^62)^(2^52) <= (base / 2^52)^exponent` for the kernel's own
/// fixed-point base and exponent.
pub proof fn law_exact_out_keeps_curve_given_power_bound(
    balance_in: int,
    weight_in: int,
    balance_out: int,
    weight_out: int,
    amount_out: int,
)
    requires
        balance_out <= u128::MAX,
        in_given_out_envelope(balance_in, weight_in, balance_out, weight_out, amount_out),
        ({
            let base = in_base_value(balance_out, amount_out);
            let e = exponent_up(weight_in, weight_out);
            amount_out > 0 ==> power_at_most(pow_62_down_value(base, e), base, e)
        }),
    ensures
        curve_preserved(
            balance_in,
            weight_in,
            balance_out,
            weight_out,
            in_given_out_value(balance_in, weight_in, balance_out, weight_out, amount_out),
            amount_out,
        ),
{
    let bi = balance_in;
    let bo = balance_out;
    let ao = amount_out;
    let wi = weight_in as nat;
    let wo = weight_out as nat;
    let s = unit();
    let t = one_62();
    let cost = in_given_out_value(bi, weight_in, bo, weight_out, ao);
    lemma_pow2_values();
    lemma_pow_nonneg(bi, wi);
    lemma_pow_nonneg(bo, wo);
    if ao == 0 {
        assert(cost == 0);
        assert(bi + cost == bi);
        assert(bo - ao == bo);
        return;
    }
    let rest = bo - ao;
    let base = in_base_value(bo, ao);
    let e = exponent_up(weight_in, weight_out);
    lemma_in_base_floor(bo, ao);
    law_ratio_down_never_overstates(rest, bo);
    lemma_exponents(weight_in, weight_out);
    lemma_ceil_bounds(weight_out * s, weight_in);
    lemma_pow62_range(base, e);
    lemma_pow62_floor_70(base, e);
    let p = pow_62_down_value(base, e);
    assert(p == in_power_62(bo, weight_in, weight_out, ao));
    assert(0 < p < t);
    assert(base > 0);
    let n = s as nat;
    let en = e as nat;
    let j = (e * weight_in) as nat;
    let k = (weight_out * s) as nat;
    assert(e * weight_in >= weight_out * s);
    // The hypothesis, raised to the weight_in-th power.
    lemma_pow_nonneg(p, n);
    lemma_pow_nonneg(s, en);
    lemma_pow_nonneg(base, en);
    lemma_pow_nonneg(t, n);
    lemma_pow_cross(pow(base, en), pow(t, n), pow(p, n), pow(s, en), wi);
    lemma_pow_multiplies(p, n, wi);
    lemma_pow_multiplies(s, en, wi);
    lemma_pow_multiplies(base, en, wi);
    lemma_pow_multiplies(t, n, wi);
    assert(en * wi == j);
    let x1 = pow(p, n * wi);
    let x2 = pow(s, j);
    let x3 = pow(base, j);
    let x4 = pow(t, n * wi);
    let x5 = pow(s, k);
    let x6 = pow(base, k);
    let x7 = pow(bo, k);
    let x8 = pow(rest, k);
    assert(x3 * x4 >= x1 * x2);
    // The exponent rounded up: the base below one shrinks further.
    lemma_ratio_pow_shrinks(base, s, k, j);
    assert(x6 * x2 >= x3 * x5);
    // The base rounded down: rest · 2^52 >= base · balance_out.
    assert(rest >= 0);
    lemma_pow_cross(rest, s, base, bo, k);
    assert(x8 * x5 >= x6 * x7);
    lemma_pow_positive(s, j);
    lemma_pow_positive(s, k);
    lemma_pow_nonneg(p, n * wi);
    lemma_pow_nonneg(base, j);
    lemma_pow_nonneg(t, n * wi);
    lemma_pow_nonneg(base, k);
    lemma_pow_nonneg(bo, k);
    lemma_pow_nonneg(rest, k);
    assert(x8 * x4 >= x1 * x7) by (nonlinear_arith)
        requires
            x3 * x4 >= x1 * x2,
            x6 * x2 >= x3 * x5,
            x8 * x5 >= x6 * x7,
            x2 > 0,
            x5 > 0,
            x1 >= 0,
            x3 >= 0,
            x4 >= 0,
            x6 >= 0,
            x7 >= 0,
            x8 >= 0,
    {
        assert(x3 * x4 * (x5 * x7) >= x1 * x2 * (x5 * x7));
        assert(x6 * x2 * (x4 * x7) >= x3 * x5 * (x4 * x7));
        assert(x8 * x5 * (x2 * x4) >= x6 * x7 * (x2 * x4));
        assert((x8 * x4) * (x2 * x5) >= (x1 * x7) * (x2 * x5));
    }
    // Back from the 2^52-th power: p^wi · balance_out^wo <= rest^wo · (2^62)^wi.
    assert(k == wo * n);
    assert(n * wi == wi * n) by (nonlinear_arith);
    lemma_pow_multiplies(p, wi, n);
    lemma_pow_multiplies(bo, wo, n);
    lemma_pow_multiplies(rest, wo, n);
    lemma_pow_multiplies(t, wi, n);
    lemma_pow_nonneg(p, wi);
    lemma_pow_nonneg(t, wi);
    lemma_pow_nonneg(rest, wo);
    let pw = pow(p, wi);
    let tw = pow(t, wi);
    let v = pow(bo, wo);
    let z = pow(rest, wo);
    lemma_pow_distributes(pw, v, n);
    lemma_pow_distributes(z, tw, n);
    assert(pw * v >= 0) by (nonlinear_arith) requires pw >= 0, v >= 0;
    assert(z * tw >= 0) by (nonlinear_arith) requires z >= 0, tw >= 0;
    lemma_pow_root(pw * v, z * tw, n);
    // The payment rounds up twice: (balance_in + cost) · p >= balance_in · 2^62.
    let r = in_ratio_62(p);
    lemma_ceil_bounds((t - p) * t, p);
    lemma_ceil_bounds(bi * r, t);
    assert(cost * t >= bi * r);
    assert(r * p >= (t - p) * t);
    assert(cost * p >= bi * (t - p)) by (nonlinear_arith)
        requires
            cost * t >= bi * r,
            r * p >= (t - p) * t,
            bi >= 1,
            p > 0,
            t > 0,
    {
        assert(cost * t * p >= bi * r * p);
        assert(bi * (r * p) >= bi * ((t - p) * t));
        assert((cost * p) * t >= (bi * (t - p)) * t);
    }
    assert(cost >= 0) by (nonlinear_arith)
        requires cost * p >= bi * (t - p), bi >= 1, p > 0, t > p;
    assert((bi + cost) * p >= bi * t) by (nonlinear_arith)
        requires cost * p >= bi * (t - p);
    lemma_pow_cross(bi + cost, p, bi, t, wi);
    let y = pow(bi + cost, wi);
    let u = pow(bi, wi);
    lemma_pow_nonneg(bi + cost, wi);
    lemma_pow_positive(t, wi);
    assert(y * z >= u * v) by (nonlinear_arith)
        requires
            y * pw >= u * tw,
            z * tw >= pw * v,
            tw > 0,
            y >= 0,
            u >= 0,
            v >= 0,
            pw >= 0,
    {
        assert(y * (z * tw) >= y * (pw * v));
        assert(v * (y * pw) >= v * (u * tw));
        assert((y * z) * tw >= (u * v) * tw);
    }
}

} // verus!
