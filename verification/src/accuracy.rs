//! What the `ln`/`exp`/`pow` pipeline computes, stated independently of
//! how it computes it: Taylor-type bounds that the true functions satisfy,
//! proved for the kernel's 62-bit series and carried through the public
//! rounding.
//!
//! The bounds are the classical ones, `e^-z >= 1 - z + z²/2 - z³/6` and
//! `e^-z <= 1 - z + z²/2` for `z >= 0`, and `1 - 1/y <= ln y <= y - 1`;
//! each is scaled to integers so that it can be checked exactly.

use vstd::prelude::*;
use vstd::arithmetic::power2::pow2;
use crate::arith::lemma_floor_bounds;
use crate::fixed::unit;
use crate::pow::{
    exp_value, expm1_value, exp_saturation, nearest_52, ln_value, pow_value, pow_arg, pow_62_value,
    one_minus_pow_62_value, pow_62_down_value, exponent_in_domain, max_exponent, PAD_62,
};
use crate::series::{
    one_62, ln2_62, exp_horner, exp_coeff, exp_approx, s_max, lemma_exp_horner_bounds, lemma_tables,
    normalize, atanh_arg, atanh_horner, atanh_coeff, ln_approx, sqrt2_half_62, t_max, u_max, p_max,
    lemma_normalize, lemma_atanh_arg_bounds, lemma_atanh_horner_bounds,
};

verus! {

/// The 62-bit exp series at a reduced argument `s in [0, ln2)` is
/// bracketed by its Taylor polynomials:
/// `1 - σ + σ²/2 - σ³/6 - 4/2^62 <= h(s)/2^62 <= 1 - σ + σ²/2` for
/// `σ = s / 2^62`.
pub proof fn lemma_exp_series_brackets(s: int)
    requires
        0 <= s <= s_max(),
    ensures
        6 * one_62() * one_62() * exp_horner(0, s)
            >= 6 * one_62() * one_62() * one_62() - 6 * one_62() * one_62() * s + 3 * one_62() * s * s
            - s * s * s - 24 * one_62() * one_62(),
        2 * one_62() * exp_horner(0, s) <= 2 * one_62() * one_62() - 2 * one_62() * s + s * s,
{
    let t = one_62();
    lemma_tables();
    lemma_exp_horner_bounds(4, s);
    lemma_exp_horner_bounds(3, s);
    assert(s < t);
    let h4 = exp_horner(4, s);
    let h3 = exp_horner(3, s);
    let h2 = exp_horner(2, s);
    let h1 = exp_horner(1, s);
    let h0 = exp_horner(0, s);
    assert(h3 == exp_coeff(3) + h4 * s / t);
    assert(h2 == exp_coeff(2) + h3 * s / t);
    assert(h1 == exp_coeff(1) + h2 * s / t);
    assert(h0 == exp_coeff(0) + h1 * s / t);
    let c3 = exp_coeff(3);
    assert(c3 == -768_614_336_404_564_651);
    assert(h4 >= 0);
    assert(h3 <= 0);
    // lower chain
    assert(h4 * s >= 0) by (nonlinear_arith) requires h4 >= 0, s >= 0;
    vstd::arithmetic::div_mod::lemma_div_pos_is_pos(h4 * s, t);
    assert(h3 >= c3);
    assert(h3 * s >= c3 * s) by (nonlinear_arith) requires h3 >= c3, s >= 0;
    lemma_floor_bounds(h3 * s, t);
    lemma_floor_bounds(h2 * s, t);
    lemma_floor_bounds(h1 * s, t);
    assert(h2 * t >= t / 2 * t + c3 * s - t);
    assert(h1 * t >= -t * t + h2 * s - t);
    assert(h0 * t >= t * t + h1 * s - t);
    let a0 = h0 * t * t * t;
    let a1 = h1 * t * t * s;
    let a2 = h2 * t * s * s;
    let t4 = t * t * t * t;
    let t3s = t * t * t * s;
    let t3 = t * t * t;
    let t2s = t * t * s;
    let t2s2 = t * t * s * s;
    assert(t2s2 == t * (t * s * s)) by (nonlinear_arith) requires t2s2 == t * t * s * s;
    let ts2 = t * s * s;
    let s3 = s * s * s;
    assert(a0 >= t4 + a1 - t3) by (nonlinear_arith)
        requires h0 * t >= t * t + h1 * s - t, t > 0, a0 == h0 * t * t * t, a1 == h1 * t * t * s,
            t4 == t * t * t * t, t3 == t * t * t;
    assert(a1 >= -t3s + a2 - t2s) by (nonlinear_arith)
        requires h1 * t >= -t * t + h2 * s - t, t > 0, s >= 0, a1 == h1 * t * t * s,
            a2 == h2 * t * s * s, t3s == t * t * t * s, t2s == t * t * s;
    assert(a2 >= t / 2 * ts2 + c3 * s3 - ts2) by (nonlinear_arith)
        requires h2 * t >= t / 2 * t + c3 * s - t, s >= 0, a2 == h2 * t * s * s,
            s3 == s * s * s, ts2 == t * s * s;
    assert(a0 >= t4 - t3s + t / 2 * ts2 + c3 * s3 - ts2 - t2s - t3);
    assert(6 * a0 >= 6 * t4 - 6 * t3s + 3 * t2s2 - t * s3 - 24 * t3) by (nonlinear_arith)
        requires
            a0 >= t4 - t3s + t / 2 * ts2 + c3 * s3 - ts2 - t2s - t3,
            t3 == t * t * t,
            t2s == t * t * s,
            t2s2 == t * ts2,
            ts2 == t * s * s,
            s3 == s * s * s,
            c3 == -768_614_336_404_564_651,
            t == 0x4000_0000_0000_0000,
            0 <= s < t,
    {
        assert(6 * c3 * s3 == -t * s3 - 2 * s3);
        assert(s3 <= t3) by (nonlinear_arith) requires s3 == s * s * s, t3 == t * t * t, 0 <= s < t;
        assert(ts2 <= t3) by (nonlinear_arith) requires ts2 == t * s * s, t3 == t * t * t, 0 <= s < t;
        assert(t2s <= t3) by (nonlinear_arith) requires t2s == t * t * s, t3 == t * t * t, 0 <= s < t;
    }
    let x = 6 * t * t * h0;
    let y = 6 * t * t * t - 6 * t * t * s + 3 * t * s * s - s * s * s - 24 * t * t;
    let q = x - y;
    vstd::arithmetic::mul::lemma_mul_is_distributive_sub(t, x, y);
    assert(t * x == 6 * a0) by (nonlinear_arith) requires x == 6 * t * t * h0, a0 == h0 * t * t * t;
    let y1 = 6 * t * t * t;
    let y2 = 6 * t * t * s;
    let y3 = 3 * t * s * s;
    let y4 = s * s * s;
    let y5 = 24 * t * t;
    assert(t * y1 == 6 * t4) by (nonlinear_arith) requires y1 == 6 * t * t * t, t4 == t * t * t * t;
    assert(t * y2 == 6 * t3s) by (nonlinear_arith) requires y2 == 6 * t * t * s, t3s == t * t * t * s;
    assert(t * y3 == 3 * t2s2) by (nonlinear_arith) requires y3 == 3 * t * s * s, t2s2 == t * t * s * s;
    assert(t * y4 == t * s3) by (nonlinear_arith) requires y4 == s * s * s, s3 == s * s * s;
    assert(t * y5 == 24 * t3) by (nonlinear_arith) requires y5 == 24 * t * t, t3 == t * t * t;
    assert(t * y == t * y1 - t * y2 + t * y3 - t * y4 - t * y5) by (nonlinear_arith)
        requires y == y1 - y2 + y3 - y4 - y5;
    assert(t * q >= 0);
    assert(q >= 0) by (nonlinear_arith) requires t * q >= 0, t > 0;
    // upper chain
    assert(h3 * s <= 0) by (nonlinear_arith) requires h3 <= 0, s >= 0;
    assert(h3 * s / t <= 0) by {
        vstd::arithmetic::div_mod::lemma_div_is_ordered(h3 * s, 0, t);
    }
    assert(h2 <= t / 2);
    assert(h2 * s <= t / 2 * s) by (nonlinear_arith) requires h2 <= t / 2, s >= 0;
    assert(h1 * t <= -t * t + t / 2 * s);
    assert(h1 * s * t <= (-t * t + t / 2 * s) * s) by (nonlinear_arith)
        requires h1 * t <= -t * t + t / 2 * s, s >= 0;
    assert(h0 * t <= t * t + h1 * s);
    assert(2 * t * h0 <= 2 * t * t - 2 * t * s + s * s) by (nonlinear_arith)
        requires
            h0 * t <= t * t + h1 * s,
            h1 * s * t <= (-t * t + t / 2 * s) * s,
            t == 0x4000_0000_0000_0000,
    {
        assert(h0 * t * t <= t * t * t + h1 * s * t);
    }
}

/// On reduced arguments the 62-bit exp is its series, unshifted.
proof fn lemma_exp_approx_reduced(a: int)
    requires
        0 <= a <= s_max(),
    ensures
        exp_approx(a) == exp_horner(0, a),
{
    assert(a / ln2_62() == 0) by {
        vstd::arithmetic::div_mod::lemma_basic_div(a, ln2_62());
    }
    assert(a % ln2_62() == a) by {
        vstd::arithmetic::div_mod::lemma_small_mod(a as nat, ln2_62() as nat);
    }
    vstd::arithmetic::power2::lemma2_to64();
    assert(pow2(0) == 1);
    assert(exp_horner(0, a) / 1 == exp_horner(0, a));
}

/// The cubic of the exp bracket at `a = -x · 2^10`, `t = u · 2^10`, in
/// terms of `x` and `u`.
proof fn lemma_bracket_scaling(x: int, u: int, t: int, a: int)
    requires
        t == 0x400 * u,
        a == -x * 0x400,
    ensures
        6 * t * t * t - 6 * t * t * a + 3 * t * a * a - a * a * a
            == 0x4000_0000 * (6 * u * u * u + 6 * u * u * x + 3 * u * x * x + x * x * x),
{
    assert(6 * t * t * t == 0x4000_0000 * (6 * u * u * u)) by (nonlinear_arith) requires t == 0x400 * u;
    assert(6 * t * t * a == 0x4000_0000 * (-(6 * u * u * x))) by (nonlinear_arith)
        requires t == 0x400 * u, a == -x * 0x400;
    assert(3 * t * a * a == 0x4000_0000 * (3 * u * x * x)) by (nonlinear_arith)
        requires t == 0x400 * u, a == -x * 0x400;
    assert(a * a * a == 0x4000_0000 * (-(x * x * x))) by (nonlinear_arith)
        requires a == -x * 0x400;
}

/// `exp(x)` is at least its third-order Taylor polynomial, less an ulp:
/// `exp(x) >= 1 + x + x²/2 + x³/6 - 2^-52` for `x` in `(-ln2, 0]`, written
/// at `SCALE` and multiplied through by `6 · 2^104`.
pub proof fn law_exp_third_order(x: int)
    requires
        x <= 0,
        -x * 0x400 <= s_max(),
    ensures
        6 * unit() * unit() * exp_value(x)
            >= 6 * unit() * unit() * (unit() + x) + 3 * unit() * x * x + x * x * x - 6 * unit() * unit(),
{
    let u = unit();
    let t = one_62();
    let a = -x * 0x400;
    lemma_exp_approx_reduced(a);
    lemma_exp_series_brackets(a);
    assert(x > -exp_saturation());
    let h = exp_approx(a);
    let ev = exp_value(x);
    assert(ev == (h + 0x200) / 0x400);
    lemma_floor_bounds(h + 0x200, 0x400);
    let p = 6 * u * u * (u + x) + 3 * u * x * x + x * x * x;
    lemma_bracket_scaling(x, u, t, a);
    assert(p == 6 * u * u * u + 6 * u * u * x + 3 * u * x * x + x * x * x) by (nonlinear_arith)
        requires p == 6 * u * u * (u + x) + 3 * u * x * x + x * x * x;
    assert(6 * t * t * h >= 0x4000_0000 * p - 24 * t * t);
    assert(6 * u * u * h >= 0x400 * p - 24 * u * u) by (nonlinear_arith)
        requires
            6 * t * t * h >= 0x4000_0000 * p - 24 * t * t,
            t == 0x400 * u,
            u > 0,
    ;
    assert(6 * u * u * ev >= p - 6 * u * u) by (nonlinear_arith)
        requires
            6 * u * u * h >= 0x400 * p - 24 * u * u,
            h + 0x200 < (ev + 1) * 0x400,
            u == 0x10_0000_0000_0000,
    ;
}

/// `expm1(x)` is at least its third-order Taylor polynomial, less an ulp:
/// `exp(x) - 1 >= x + x²/2 + x³/6 - 2^-52` for `x` in `(-ln2, 0]`.
pub proof fn law_expm1_third_order(x: int)
    requires
        x <= 0,
        -x * 0x400 <= s_max(),
    ensures
        6 * unit() * unit() * expm1_value(x) >= 6 * unit() * unit() * x + 3 * unit() * x * x + x * x * x
            - 6 * unit() * unit(),
{
    let u = unit();
    let t = one_62();
    let a = -x * 0x400;
    lemma_exp_approx_reduced(a);
    lemma_exp_series_brackets(a);
    assert(x > -exp_saturation());
    let h = exp_approx(a);
    let em = expm1_value(x);
    let w = (t - h + 0x200) / 0x400;
    assert(em == -w);
    lemma_floor_bounds(t - h + 0x200, 0x400);
    let p = 6 * u * u * x + 3 * u * x * x + x * x * x;
    lemma_bracket_scaling(x, u, t, a);
    assert(6 * t * t * t == 0x4000_0000 * (6 * u * u * u)) by (nonlinear_arith)
        requires t == 0x400 * u;
    assert(6 * t * t * (h - t) == 6 * t * t * h - 6 * t * t * t) by (nonlinear_arith);
    assert(6 * t * t * (h - t) >= 0x4000_0000 * p - 24 * t * t);
    assert(6 * u * u * (h - t) >= 0x400 * p - 24 * u * u) by (nonlinear_arith)
        requires
            6 * t * t * (h - t) >= 0x4000_0000 * p - 24 * t * t,
            t == 0x400 * u,
            u > 0,
    ;
    assert(6 * u * u * em >= p - 6 * u * u) by (nonlinear_arith)
        requires
            6 * u * u * (h - t) >= 0x400 * p - 24 * u * u,
            w * 0x400 <= t - h + 0x200,
            em == -w,
            u == 0x10_0000_0000_0000,
    ;
}

/// The parts of the 62-bit `-ln x`: the doubling count `k`, the mantissa
/// `m = x · 2^(10 + k)` in `[√2/2, √2)`, `t ≈ (m - 1)/(m + 1)` truncated
/// toward zero, and the series value `p` in `[1, 1 + 0.34 t²]`.
pub proof fn lemma_ln_parts(x: int)
    requires
        0 < x <= unit(),
    ensures
        ({
            let n = normalize(x * 0x400);
            let m = n.1;
            let t = atanh_arg(m);
            let u = t * t / one_62();
            let p = atanh_horner(0, u);
            &&& 0 <= n.0 <= 52
            &&& sqrt2_half_62() <= m < 2 * sqrt2_half_62()
            &&& m == x * 0x400 * pow2(n.0 as nat)
            &&& (n.0 == 0 ==> m == x * 0x400)
            &&& -t_max() <= t <= t_max()
            &&& 0 <= u <= u_max()
            &&& u * one_62() <= t * t
            &&& one_62() <= p <= p_max()
            &&& p * one_62() <= one_62() * one_62() + 1_564_964_033_890_176_904 * u
            &&& (m >= one_62() ==> 0 <= t && t * (m + one_62()) <= (m - one_62()) * one_62()
                && (m - one_62()) * one_62() < (t + 1) * (m + one_62()))
            &&& (m <= one_62() ==> t <= 0 && -t * (m + one_62()) <= (one_62() - m) * one_62()
                && (one_62() - m) * one_62() < (-t + 1) * (m + one_62()))
            &&& ln_approx(x) == n.0 * ln2_62() - t * p / 0x2000_0000_0000_0000
        }),
{
    let t62 = one_62();
    crate::arith::lemma_pow2_values();
    vstd::arithmetic::power2::lemma2_to64();
    lemma_normalize(x * 0x400, 52);
    let n = normalize(x * 0x400);
    let m = n.1;
    if n.0 == 0 {
        assert(pow2(0) == 1);
        assert(m == x * 0x400 * 1);
    }
    lemma_atanh_arg_bounds(m);
    lemma_tables();
    let t = atanh_arg(m);
    assert(t * t <= t_max() * t_max()) by (nonlinear_arith)
        requires -t_max() <= t <= t_max();
    assert(t * t >= 0) by (nonlinear_arith);
    let u = t * t / t62;
    vstd::arithmetic::div_mod::lemma_div_is_ordered(t * t, t_max() * t_max(), t62);
    vstd::arithmetic::div_mod::lemma_div_pos_is_pos(t * t, t62);
    lemma_floor_bounds(t * t, t62);
    lemma_atanh_horner_bounds(0, u);
    lemma_atanh_horner_bounds(1, u);
    let p = atanh_horner(0, u);
    let h1 = atanh_horner(1, u);
    assert(p == atanh_coeff(0) + h1 * u / t62);
    lemma_floor_bounds(h1 * u, t62);
    assert(h1 * u <= 1_564_964_033_890_176_904 * u) by (nonlinear_arith)
        requires h1 <= 1_564_964_033_890_176_904, u >= 0;
    if m >= t62 {
        lemma_floor_bounds((m - t62) * t62, m + t62);
    } else {
        lemma_floor_bounds((t62 - m) * t62, m + t62);
    }
}

/// The 62-bit `-ln x` is at least `1 - x`, less two units.
pub proof fn lemma_neg_ln_at_least(x: int)
    requires
        0 < x <= unit(),
    ensures
        ln_approx(x) >= one_62() - x * 0x400 - 2,
{
    let t62 = one_62();
    let h = 0x2000_0000_0000_0000int;
    lemma_ln_parts(x);
    let n = normalize(x * 0x400);
    let k = n.0;
    let m = n.1;
    let t = atanh_arg(m);
    let u = t * t / t62;
    let p = atanh_horner(0, u);
    let l = ln_approx(x);
    let w = x * 0x400;
    lemma_floor_bounds(t * p, h);
    let q = t * p / h;
    // the target: l >= 2^62 - w - 512
    if k == 0 {
        assert(m == w);
        assert(t * p <= 0) by (nonlinear_arith) requires t <= 0, p >= 0;
        assert(q * h <= t * p);
        assert(t * p <= t * t62) by (nonlinear_arith) requires t <= 0, p >= t62;
        assert(-q >= 2 * -t) by (nonlinear_arith)
            requires q * h <= t * t62, t62 == 2 * h, h > 0;
        assert(2 * -t >= t62 - m - 2) by (nonlinear_arith)
            requires
                (t62 - m) * t62 < (-t + 1) * (m + t62),
                0 < m <= t62,
                t62 > 0,
        {
            assert(2 * (-t + 1) * (m + t62) > 2 * (t62 - m) * t62);
            assert(2 * (t62 - m) * t62 >= (t62 - m) * (m + t62));
        }
        assert(l >= t62 - w - 2);
    } else {
        crate::arith::lemma_pow2_values();
        vstd::arithmetic::power2::lemma_pow2_pos(k as nat);
        if t <= 0 {
            assert(t * p <= 0) by (nonlinear_arith) requires t <= 0, p >= 0;
            assert(q <= 0) by {
                vstd::arithmetic::div_mod::lemma_div_is_ordered(t * p, 0, h);
            }
            assert(k * ln2_62() >= ln2_62()) by (nonlinear_arith) requires k >= 1;
            if k == 1 {
                vstd::arithmetic::power2::lemma2_to64();
                assert(m == w * 2);
                assert(l >= t62 - w);
            } else {
                assert(k * ln2_62() >= 2 * ln2_62()) by (nonlinear_arith) requires k >= 2;
                assert(w > 0);
                assert(l >= t62 - w);
            }
        } else {
            assert(t * p <= t * p_max()) by (nonlinear_arith) requires t > 0, p <= p_max();
            assert(q * h <= t * p_max());
            if k == 1 {
                vstd::arithmetic::power2::lemma2_to64();
                assert(m == w * 2);
                // (LN2 - T + w)(2w + T) 2^61 >= (2w - T) T p_max on [T/2, √2/2)
                let d = w - t62 / 2;
                assert(d >= 0);
                assert(d < 955_111_447_119_501_601);
                assert(t * (m + t62) <= (m - t62) * t62);
                assert(l >= t62 - w) by (nonlinear_arith)
                    requires
                        l == ln2_62() - q,
                        q * h <= t * p_max(),
                        t * (m + t62) <= (m - t62) * t62,
                        m == 2 * w,
                        w == t62 / 2 + d,
                        0 <= d < 955_111_447_119_501_601,
                        t > 0,
                        t62 == 0x4000_0000_0000_0000,
                        h == 0x2000_0000_0000_0000,
                        ln2_62() == 3_196_577_161_300_663_915,
                        p_max() == 4_657_754_258_317_241_725,
                {
                    assert(q * h * (m + t62) <= t * (m + t62) * p_max());
                    assert(t * (m + t62) * p_max() <= (m - t62) * t62 * p_max());
                    assert((ln2_62() - t62 + w) * (m + t62) * h >= (m - t62) * t62 * p_max());
                }
            } else {
                assert(t * p_max() <= t_max() * p_max()) by (nonlinear_arith)
                    requires 0 < t <= t_max(), p_max() > 0;
                assert(k * ln2_62() >= 2 * ln2_62()) by (nonlinear_arith) requires k >= 2;
                assert(q * h <= 3_685_402_550_398_645_216_872_211_191_425_845_775);
                assert(q <= 1_598_288_580_650_331_955) by (nonlinear_arith)
                    requires q * h <= 3_685_402_550_398_645_216_872_211_191_425_845_775, h == 0x2000_0000_0000_0000;
                assert(l >= t62 - w);
            }
        }
    }
}

/// `ln y <= y - 1`: the natural logarithm lies on or below its tangent at
/// one, `ln(x) <= x - 1` at `SCALE`, for every `x` in `(0, 1]`.
pub proof fn law_ln_below_tangent(x: int)
    requires
        0 < x <= unit(),
    ensures
        ln_value(x) <= x - unit(),
{
    lemma_neg_ln_at_least(x);
    let l = ln_approx(x);
    assert(l + 0x200 >= (unit() - x) * 0x400);
    lemma_floor_bounds(l + 0x200, 0x400);
    assert((l + 0x200) / 0x400 >= unit() - x) by (nonlinear_arith)
        requires l + 0x200 >= (unit() - x) * 0x400, l + 0x200 < ((l + 0x200) / 0x400 + 1) * 0x400;
}

/// The 62-bit exp never exceeds its second-order Taylor polynomial,
/// `e^-σ <= 1 - σ + σ²/2`, and past the first reduction step it is at
/// most one half.
pub proof fn lemma_exp_approx_at_most(a: int)
    requires
        a >= 0,
    ensures
        2 * one_62() * exp_approx(a) <= 2 * one_62() * one_62() - 2 * one_62() * a + a * a,
        a > s_max() ==> 2 * one_62() * exp_approx(a) <= one_62() * one_62(),
        exp_approx(a) >= 0,
{
    let t = one_62();
    if a <= s_max() {
        lemma_exp_approx_reduced(a);
        lemma_exp_series_brackets(a);
        lemma_tables();
        lemma_exp_horner_bounds(0, a);
    } else {
        let k = a / ln2_62();
        let s = a % ln2_62();
        vstd::arithmetic::div_mod::lemma_fundamental_div_mod(a, ln2_62());
        vstd::arithmetic::div_mod::lemma_mod_bound(a, ln2_62());
        assert(k >= 1) by (nonlinear_arith)
            requires a == ln2_62() * k + s, s < ln2_62(), a > s_max(), s_max() == ln2_62() - 1;
        assert(2 * t * t - 2 * t * a + a * a >= t * t) by (nonlinear_arith)
            requires t > 0;
        if k <= 62 {
            lemma_tables();
            lemma_exp_horner_bounds(0, s);
            let h = exp_horner(0, s);
            let p = pow2(k as nat) as int;
            vstd::arithmetic::power2::lemma2_to64();
            if k > 1 {
                vstd::arithmetic::power2::lemma_pow2_strictly_increases(1, k as nat);
            }
            assert(p >= 2);
            lemma_floor_bounds(h, p);
            vstd::arithmetic::div_mod::lemma_div_pos_is_pos(h, p);
            assert(h / p * 2 <= t) by (nonlinear_arith)
                requires (h / p) * p <= h, h <= t, p >= 2, h / p >= 0;
        }
    }
}

/// `base^exponent` at 62 bits is at most `1 - z + z²/2` for the first-order
/// exponent `z = exponent · (1 - base)`, up to `398` units:
/// `2^63 · u² · p <= 2^125 u² - 2^63 u Z + Z² + 398 · 2^62 u²` with
/// `Z = exponent · (2^62 - 2^10 base)`.
proof fn lemma_pow62_at_most(base: int, exponent: int)
    requires
        0 < base <= unit(),
        exponent_in_domain(exponent),
    ensures
        ({
            let t = one_62();
            let u = unit();
            let z = exponent * (t - base * 0x400);
            2 * t * u * u * pow_62_value(base, exponent) <= 2 * t * t * u * u - 2 * t * z * u + z * z + 398 * t * u * u
        }),
        pow_62_value(base, exponent) >= 0,
{
    let t = one_62();
    let u = unit();
    let e = exponent;
    let w = base * 0x400;
    let z = e * (t - w);
    lemma_neg_ln_at_least(base);
    crate::series::lemma_ln_approx_range(base);
    let l = ln_approx(base);
    let a = pow_arg(base, e);
    assert(a == e * l / u);
    lemma_floor_bounds(e * l, u);
    assert(e * l >= e * (t - w - 2)) by (nonlinear_arith) requires l >= t - w - 2, e > 0;
    assert(e * l >= 0) by (nonlinear_arith) requires l >= 0, e > 0;
    vstd::arithmetic::div_mod::lemma_div_pos_is_pos(e * l, u);
    assert(a * u >= z - 199 * u) by (nonlinear_arith)
        requires
            e * l < (a + 1) * u,
            e * l >= e * (t - w - 2),
            z == e * (t - w),
            0 < e <= 99 * u,
            u > 0,
    ;
    lemma_exp_approx_at_most(a);
    let pv = exp_approx(a);
    assert(pv == pow_62_value(base, e));
    let g = 2 * t * t * u * u - 2 * t * z * u + z * z;
    assert(g >= t * t * u * u) by (nonlinear_arith)
        requires g == 2 * t * t * u * u - 2 * t * z * u + z * z, t > 0, u > 0
    {
        assert(g - t * t * u * u == (t * u - z) * (t * u - z));
    }
    if a > s_max() {
        assert(2 * t * u * u * pv <= t * t * u * u) by (nonlinear_arith)
            requires 2 * t * pv <= t * t, u > 0;
    } else {
        assert(a <= t);
        // G(a) u² <= G(z/u) u² + 398 t u², as G decreases below t
        let au = a * u;
        let tu = t * u;
        assert(0 <= au <= tu) by (nonlinear_arith) requires 0 <= a <= t, u > 0, au == a * u, tu == t * u;
        assert(z >= 0) by (nonlinear_arith) requires z == e * (t - w), e > 0, t >= w;
        let ea = u * u * (2 * t * t - 2 * t * a + a * a);
        assert(ea == 2 * tu * tu - 2 * tu * au + au * au) by (nonlinear_arith)
            requires ea == u * u * (2 * t * t - 2 * t * a + a * a), au == a * u, tu == t * u;
        assert(g == 2 * tu * tu - 2 * tu * z + z * z) by (nonlinear_arith)
            requires g == 2 * t * t * u * u - 2 * t * z * u + z * z, tu == t * u;
        let dl = au - z;
        let fc = 2 * tu - au - z;
        assert(g - ea == dl * fc) by (nonlinear_arith)
            requires
                g == 2 * tu * tu - 2 * tu * z + z * z,
                ea == 2 * tu * tu - 2 * tu * au + au * au,
                dl == au - z,
                fc == 2 * tu - au - z,
        ;
        if dl >= 0 {
            assert(fc >= 0);
            assert(dl * fc >= 0) by (nonlinear_arith) requires dl >= 0, fc >= 0;
        } else {
            assert(-dl <= 199 * u);
            if fc >= 0 {
                assert(fc <= 2 * tu);
                assert(dl * fc >= -(199 * u) * (2 * tu)) by (nonlinear_arith)
                    requires -199 * u <= dl < 0, 0 <= fc <= 2 * tu;
                assert((199 * u) * (2 * tu) == 398 * t * u * u) by (nonlinear_arith) requires tu == t * u;
            } else {
                assert(dl * fc > 0) by (nonlinear_arith) requires dl < 0, fc < 0;
            }
        }
        assert(ea <= g + 398 * t * u * u);
        assert(2 * t * u * u * pv <= u * u * (2 * t * t - 2 * t * a + a * a)) by (nonlinear_arith)
            requires 2 * t * pv <= 2 * t * t - 2 * t * a + a * a, u > 0;
    }
}

/// A power of a base below one is at most `1 - ζ + ζ²/2` for the
/// first-order exponent `ζ = exponent · (1 - base)` (since
/// `b^y = e^(y ln b) <= e^-ζ`), plus one ulp:
/// `2u³ · pow <= 2u⁴ - 2u² D + D² + 2u³` with `D = exponent · (u - base)`.
pub proof fn law_pow_at_most_quadratic(base: int, exponent: int)
    requires
        0 < base <= unit(),
        exponent_in_domain(exponent),
    ensures
        ({
            let u = unit();
            let d = exponent * (u - base);
            2 * u * u * u * pow_value(base, exponent) <= 2 * u * u * u * u - 2 * u * u * d + d * d + 2 * u * u * u
        }),
{
    let t = one_62();
    let u = unit();
    let d = exponent * (u - base);
    let z = exponent * (t - base * 0x400);
    lemma_pow62_at_most(base, exponent);
    let pv = pow_62_value(base, exponent);
    assert(z == 0x400 * d) by (nonlinear_arith)
        requires z == exponent * (t - base * 0x400), d == exponent * (u - base), t == 0x400 * u;
    let r = pow_value(base, exponent);
    assert(r == (pv + 0x200) / 0x400);
    lemma_floor_bounds(pv + 0x200, 0x400);
    assert(2 * u * u * u * r <= 2 * u * u * u * u - 2 * u * u * d + d * d + 2 * u * u * u) by (nonlinear_arith)
        requires
            2 * t * u * u * pv <= 2 * t * t * u * u - 2 * t * z * u + z * z + 398 * t * u * u,
            r * 0x400 <= pv + 0x200,
            z == 0x400 * d,
            t == 0x400 * u,
            u == 0x10_0000_0000_0000,
    {
        assert(2 * t * u * u * pv == 0x400 * (2 * u * u * u * pv));
        assert(2 * t * t * u * u - 2 * t * z * u + z * z == 0x100000 * (2 * u * u * u * u - 2 * u * u * d + d * d));
        assert(0x400 * (2 * u * u * u * r) <= 2 * u * u * u * pv + 0x400 * u * u * u);
    }
}

/// One minus a power of a base below one is at least `ζ - ζ²/2` for the
/// first-order exponent `ζ = exponent · (1 - base)`, at 62 bits and less
/// `1422` units: `2^63 u² · (1 - p) >= 2^63 u Z - Z² - 1422 · 2^62 u²` with
/// `Z = exponent · (2^62 - 2^10 base)`.
pub proof fn law_one_minus_pow_at_least(base: int, exponent: int)
    requires
        0 < base <= unit(),
        exponent_in_domain(exponent),
    ensures
        ({
            let t = one_62();
            let u = unit();
            let z = exponent * (t - base * 0x400);
            2 * t * u * u * one_minus_pow_62_value(base, exponent) >= 2 * t * z * u - z * z - 1422 * t * u * u
        }),
{
    let t = one_62();
    let u = unit();
    let z = exponent * (t - base * 0x400);
    lemma_pow62_at_most(base, exponent);
    let pv = pow_62_value(base, exponent);
    let o = one_minus_pow_62_value(base, exponent);
    assert(o >= t - pv - 512);
    assert(2 * t * u * u * o >= 2 * t * z * u - z * z - 1422 * t * u * u) by (nonlinear_arith)
        requires
            o >= t - pv - 512,
            2 * t * u * u * pv <= 2 * t * t * u * u - 2 * t * z * u + z * z + 398 * t * u * u,
            t > 0,
            u > 0,
    {
        assert(2 * t * u * u * o >= 2 * t * u * u * (t - pv - 512));
    }
}

/// The padded power of the exact-out path and the padded complement of the
/// exact-in path are complementary: together they make one, less at most
/// the two paddings, `1 - 2^-52 <= p_down + (1 - p)_down <= 1` at 62 bits.
pub proof fn law_complementary_powers(base: int, exponent: int)
    requires
        0 < base <= unit(),
        exponent_in_domain(exponent),
    ensures
        one_62() - 0x400 <= pow_62_down_value(base, exponent) + one_minus_pow_62_value(base, exponent)
            <= one_62(),
{
    crate::pow::lemma_pow62_range(base, exponent);
}

/// `exp(x)` never exceeds its second-order Taylor polynomial, plus an ulp:
/// `exp(x) <= 1 + x + x²/2 + 2^-52` for every `x <= 0`, at `SCALE` and
/// multiplied through by `2 · 2^52`.
pub proof fn law_exp_second_order(x: int)
    requires
        x <= 0,
    ensures
        2 * unit() * exp_value(x) <= 2 * unit() * (unit() + x) + x * x + 2 * unit(),
{
    let u = unit();
    let t = one_62();
    if x <= -exp_saturation() {
        assert(2 * u * (u + x) + x * x >= u * u) by (nonlinear_arith)
            requires u > 0
        {
            assert(2 * u * (u + x) + x * x - u * u == (u + x) * (u + x));
        }
        return;
    }
    let a = -x * 0x400;
    lemma_exp_approx_at_most(a);
    let h = exp_approx(a);
    let ev = exp_value(x);
    assert(ev == (h + 0x200) / 0x400);
    lemma_floor_bounds(h + 0x200, 0x400);
    assert(2 * u * ev <= 2 * u * (u + x) + x * x + 2 * u) by (nonlinear_arith)
        requires
            2 * t * h <= 2 * t * t - 2 * t * a + a * a,
            ev * 0x400 <= h + 0x200,
            t == 0x400 * u,
            a == -x * 0x400,
            u == 0x10_0000_0000_0000,
    {
        assert(2 * t * t - 2 * t * a + a * a == 0x100000 * (2 * u * (u + x) + x * x));
        assert(2 * t * h == 0x400 * (2 * u * h));
        assert(0x400 * (2 * u * ev) <= 2 * u * h + 0x400 * u);
    }
}

/// The 62-bit exp is at least its tangent at zero, `e^-σ >= 1 - σ`, less
/// eight units, for every nonnegative argument.
pub proof fn lemma_exp_approx_at_least(a: int)
    requires
        a >= 0,
    ensures
        exp_approx(a) >= one_62() - a - 8,
{
    let t = one_62();
    lemma_exp_approx_at_most(a);
    if a <= s_max() {
        lemma_exp_approx_reduced(a);
        lemma_exp_series_brackets(a);
        let h = exp_horner(0, a);
        assert(h >= t - a - 4) by (nonlinear_arith)
            requires
                6 * t * t * h >= 6 * t * t * t - 6 * t * t * a + 3 * t * a * a - a * a * a - 24 * t * t,
                0 <= a < t,
                t > 0,
        {
            assert(3 * t * a * a - a * a * a >= 0) by (nonlinear_arith) requires 0 <= a < t;
            assert(6 * t * t * h >= 6 * t * t * (t - a - 4));
        }
    } else if a <= t {
        let k = a / ln2_62();
        let s = a % ln2_62();
        vstd::arithmetic::div_mod::lemma_fundamental_div_mod(a, ln2_62());
        vstd::arithmetic::div_mod::lemma_mod_bound(a, ln2_62());
        assert(k == 1) by (nonlinear_arith)
            requires a == ln2_62() * k + s, 0 <= s < ln2_62(), s_max() < a <= t,
                s_max() == ln2_62() - 1, ln2_62() == 3_196_577_161_300_663_915, t == 0x4000_0000_0000_0000;
        lemma_exp_series_brackets(s);
        let h = exp_horner(0, s);
        assert(h >= t - s - 4) by (nonlinear_arith)
            requires
                6 * t * t * h >= 6 * t * t * t - 6 * t * t * s + 3 * t * s * s - s * s * s - 24 * t * t,
                0 <= s < t,
                t > 0,
        {
            assert(3 * t * s * s - s * s * s >= 0) by (nonlinear_arith) requires 0 <= s < t;
            assert(6 * t * t * h >= 6 * t * t * (t - s - 4));
        }
        vstd::arithmetic::power2::lemma2_to64();
        assert(exp_approx(a) == h / 2);
        lemma_floor_bounds(h, 2);
    }
}

/// `exp(x)` is at least its tangent at zero, less an ulp:
/// `exp(x) >= 1 + x - 2^-52` for every `x <= 0`.
pub proof fn law_exp_above_tangent(x: int)
    requires
        x <= 0,
    ensures
        exp_value(x) >= unit() + x - 1,
{
    let u = unit();
    if x <= -exp_saturation() {
        return;
    }
    let a = -x * 0x400;
    lemma_exp_approx_at_least(a);
    let h = exp_approx(a);
    assert(exp_value(x) == (h + 0x200) / 0x400);
    lemma_floor_bounds(h + 0x200, 0x400);
}

/// For `k >= 2` doublings, the growth of `2^k` outruns the `k · ln2` of
/// the logarithm: `2 √2 (k ln2 + c + 1) <= 2^k` at 62 bits.
proof fn lemma_doublings_outrun(k: nat)
    requires
        2 <= k <= 62,
    ensures
        2 * sqrt2_half_62() * (k * ln2_62() + 1_598_288_580_650_331_956 + one_62())
            <= pow2(k) * one_62() * one_62(),
    decreases k,
{
    let t = one_62();
    if k == 2 {
        vstd::arithmetic::power2::lemma2_to64();
        assert(pow2(2) == 4);
        assert(2 * 3_260_954_456_333_195_553int * (2 * 3_196_577_161_300_663_915int + 1_598_288_580_650_331_956int
            + 0x4000_0000_0000_0000int) <= 4 * 0x4000_0000_0000_0000int * 0x4000_0000_0000_0000int);
    } else {
        lemma_doublings_outrun((k - 1) as nat);
        vstd::arithmetic::power2::lemma_pow2_unfold(k);
        vstd::arithmetic::power2::lemma2_to64();
        if k - 1 > 2 {
            vstd::arithmetic::power2::lemma_pow2_strictly_increases(2, (k - 1) as nat);
        }
        let p = pow2((k - 1) as nat) as int;
        assert(2 * sqrt2_half_62() * ln2_62() <= p * t * t) by (nonlinear_arith)
            requires p >= 4, t == 0x4000_0000_0000_0000, sqrt2_half_62() == 3_260_954_456_333_195_553,
                ln2_62() == 3_196_577_161_300_663_915;
        assert(2 * sqrt2_half_62() * (k * ln2_62() + 1_598_288_580_650_331_956 + t)
            == 2 * sqrt2_half_62() * ((k - 1) * ln2_62() + 1_598_288_580_650_331_956 + t)
                + 2 * sqrt2_half_62() * ln2_62()) by (nonlinear_arith);
        assert(pow2(k) * t * t == 2 * (p * t * t)) by (nonlinear_arith)
            requires pow2(k) == 2 * p;
    }
}

/// The 62-bit `-ln x` is at most `1/x - 1`, plus `2^-53`:
/// `w · (-ln) <= 2^62 (2^62 - w) + 512 w` with `w = 2^10 x`.
pub proof fn lemma_neg_ln_at_most(x: int)
    requires
        0 < x <= unit(),
    ensures
        x * 0x400 * ln_approx(x) <= one_62() * (one_62() - x * 0x400) + 512 * (x * 0x400),
{
    let t62 = one_62();
    let h = 0x2000_0000_0000_0000int;
    let hh = 1_564_964_033_890_176_904int;
    let pm = p_max();
    lemma_ln_parts(x);
    let n = normalize(x * 0x400);
    let k = n.0;
    let m = n.1;
    let t = atanh_arg(m);
    let uu = t * t / t62;
    let p = atanh_horner(0, uu);
    let l = ln_approx(x);
    let w = x * 0x400;
    lemma_floor_bounds(t * p, h);
    let q = t * p / h;
    assert(t * p < (q + 1) * h);
    assert(w > 0);
    if k == 0 {
        assert(m == w);
        let tau = -t;
        let d = t62 - w;
        assert(d >= 0);
        assert(tau >= 0);
        assert(l == -q);
        // h · l < tau · p + h
        assert(h * l < tau * p + h) by (nonlinear_arith)
            requires t * p < (q + 1) * h, l == -q, tau == -t;
        // tau · p · t62² <= tau · t62³ + hh · tau³
        assert(tau * p * t62 <= tau * (t62 * t62 + hh * uu)) by (nonlinear_arith)
            requires p * t62 <= t62 * t62 + hh * uu, tau >= 0;
        assert(tau * hh * uu * t62 <= tau * hh * (tau * tau)) by (nonlinear_arith)
            requires uu * t62 <= t * t, tau == -t, tau >= 0, hh >= 0;
        let a3 = tau * tau * tau;
        assert(tau * p * t62 * t62 <= tau * t62 * t62 * t62 + hh * a3) by (nonlinear_arith)
            requires
                tau * p * t62 <= tau * (t62 * t62 + hh * uu),
                tau * hh * uu * t62 <= tau * hh * (tau * tau),
                a3 == tau * tau * tau,
                t62 > 0,
        {
            assert(tau * p * t62 * t62 <= tau * (t62 * t62 + hh * uu) * t62);
            assert(tau * (t62 * t62 + hh * uu) * t62 == tau * t62 * t62 * t62 + tau * hh * uu * t62);
        }
        // the cubic term is small: 2 w hh tau³ (w + t62) <= t62⁴ d²
        let s2 = sqrt2_half_62();
        assert(tau * (w + t62) <= d * t62);
        assert(tau * (s2 + t62) <= d * t62) by (nonlinear_arith)
            requires tau * (w + t62) <= d * t62, w >= s2, tau >= 0;
        assert(tau * tau * (s2 + t62) * (s2 + t62) <= d * d * t62 * t62) by (nonlinear_arith)
            requires tau * (s2 + t62) <= d * t62, tau >= 0, s2 > 0, t62 > 0, d >= 0;
        assert(2 * w * hh * a3 * (w + t62) <= t62 * t62 * t62 * t62 * d * d) by (nonlinear_arith)
            requires
                a3 == tau * tau * tau,
                tau * (w + t62) <= d * t62,
                tau * tau * (s2 + t62) * (s2 + t62) <= d * d * t62 * t62,
                0 < w <= t62,
                d == t62 - w,
                tau >= 0,
                s2 == 3_260_954_456_333_195_553,
                t62 == 0x4000_0000_0000_0000,
                hh == 1_564_964_033_890_176_904,
        {
            assert(a3 * (w + t62) <= tau * tau * d * t62);
            assert(2 * w * hh * (tau * tau * d * t62) * (s2 + t62) * (s2 + t62)
                <= 2 * w * hh * d * t62 * (d * d * t62 * t62));
            assert(2 * w * hh * d <= t62 * (s2 + t62) * (s2 + t62));
        }
        // the linear term: 2 w tau t62³ (w + t62) <= 2 w d t62⁴
        assert(2 * w * tau * t62 * t62 * t62 * (w + t62) <= 2 * w * d * t62 * t62 * t62 * t62) by (nonlinear_arith)
            requires tau * (w + t62) <= d * t62, w > 0, t62 > 0;
        let xp = tau * p * t62 * t62;
        let yv = tau * t62 * t62 * t62;
        let zv = hh * a3;
        let t4 = t62 * t62 * t62 * t62;
        let ws = w + t62;
        assert(xp <= yv + zv);
        assert(2 * w * xp * ws <= 2 * w * (yv + zv) * ws) by (nonlinear_arith)
            requires xp <= yv + zv, w > 0, ws > 0;
        assert(2 * w * (yv + zv) * ws == 2 * w * yv * ws + 2 * w * zv * ws) by (nonlinear_arith);
        assert(2 * w * yv * ws == 2 * w * tau * t62 * t62 * t62 * (w + t62)) by (nonlinear_arith)
            requires yv == tau * t62 * t62 * t62, ws == w + t62;
        assert(2 * w * zv * ws == 2 * w * hh * a3 * (w + t62)) by (nonlinear_arith)
            requires zv == hh * a3, ws == w + t62;
        assert(2 * w * d * t62 * t62 * t62 * t62 == 2 * w * d * t4) by (nonlinear_arith)
            requires t4 == t62 * t62 * t62 * t62;
        assert(t62 * t62 * t62 * t62 * d * d == t4 * d * d) by (nonlinear_arith)
            requires t4 == t62 * t62 * t62 * t62;
        assert(2 * w * d * t4 + t4 * d * d == t4 * d * ws) by (nonlinear_arith)
            requires d == t62 - w, ws == w + t62;
        assert(2 * w * xp * ws <= t4 * d * ws);
        assert(2 * w * xp <= t4 * d) by (nonlinear_arith)
            requires 2 * w * xp * ws <= t4 * d * ws, ws > 0;
        assert(2 * w * tau * p * t62 * t62 == 2 * w * xp) by (nonlinear_arith)
            requires xp == tau * p * t62 * t62;
        let t3 = t62 * t62 * t62;
        assert(w * l * t3 < t4 * d + w * t3) by (nonlinear_arith)
            requires
                h * l < tau * p + h,
                2 * w * xp <= t4 * d,
                xp == tau * p * t62 * t62,
                t3 == t62 * t62 * t62,
                t4 == t62 * t62 * t62 * t62,
                t62 == 2 * h,
                h > 0,
                w > 0,
        {
            assert(2 * w * t62 * t62 * (h * l) <= 2 * w * t62 * t62 * (tau * p + h));
        }
        assert(w * l <= t62 * d + 512 * w) by (nonlinear_arith)
            requires
                w * l * t3 < t4 * d + w * t3,
                t3 == t62 * t62 * t62,
                t4 == t62 * t62 * t62 * t62,
                t62 > 0,
                w > 0,
        {
            assert(t4 * d == t3 * (t62 * d));
            assert(t3 * (w * l) < t3 * (t62 * d + w));
        }
    } else {
        crate::arith::lemma_pow2_values();
        vstd::arithmetic::power2::lemma_pow2_pos(k as nat);
        assert(l < k * ln2_62() - t * p / h + 1) by (nonlinear_arith)
            requires t * p < (q + 1) * h, l == k * ln2_62() - q, h > 0;
        if k == 1 {
            vstd::arithmetic::power2::lemma2_to64();
            assert(m == 2 * w);
            if t <= 0 {
                let tau = -t;
                assert(tau * p <= tau * pm) by (nonlinear_arith) requires tau >= 0, p <= pm, tau == -t;
                assert(h * l < h * ln2_62() + tau * pm + h) by (nonlinear_arith)
                    requires t * p < (q + 1) * h, l == ln2_62() - q, tau == -t, tau * p <= tau * pm;
                assert(tau * (m + t62) <= (t62 - m) * t62);
                assert(w * l <= t62 * (t62 - w) + 512 * w) by (nonlinear_arith)
                    requires
                        h * l < h * ln2_62() + tau * pm + h,
                        tau * (m + t62) <= (t62 - m) * t62,
                        m == 2 * w,
                        3_260_954_456_333_195_553 <= m <= t62,
                        tau >= 0,
                        t62 == 0x4000_0000_0000_0000,
                        h == 0x2000_0000_0000_0000,
                        ln2_62() == 3_196_577_161_300_663_915,
                        pm == 4_657_754_258_317_241_725,
                {
                    assert(w * h * l * (m + t62) <= w * (h * ln2_62() + h) * (m + t62) + w * pm * (tau * (m + t62)));
                    assert(w * pm * (tau * (m + t62)) <= w * pm * ((t62 - m) * t62));
                    assert(w * (h * ln2_62() + h) * (m + t62) + w * pm * ((t62 - m) * t62)
                        <= h * t62 * (t62 - w) * (m + t62));
                }
            } else {
                assert(t * p >= t * t62) by (nonlinear_arith) requires t > 0, p >= t62;
                assert(h * l < h * ln2_62() - t * t62 + 2 * h) by (nonlinear_arith)
                    requires t * p < (q + 1) * h, l == ln2_62() - q, t * p >= t * t62, h > 0;
                assert((m - t62) * t62 < (t + 1) * (m + t62));
                assert(w * l <= t62 * (t62 - w) + 512 * w) by (nonlinear_arith)
                    requires
                        h * l < h * ln2_62() - t * t62 + 2 * h,
                        (m - t62) * t62 < (t + 1) * (m + t62),
                        m == 2 * w,
                        t62 <= m < 2 * 3_260_954_456_333_195_553,
                        t > 0,
                        t62 == 0x4000_0000_0000_0000,
                        h == 0x2000_0000_0000_0000,
                        ln2_62() == 3_196_577_161_300_663_915,
                {
                    assert(w * h * l * (m + t62) <= w * (h * ln2_62() + 2 * h) * (m + t62) - w * t62 * t * (m + t62));
                    assert(w * t62 * t * (m + t62) >= w * t62 * ((m - t62) * t62 - (m + t62)));
                    assert(w * (h * ln2_62() + 2 * h) * (m + t62) - w * t62 * ((m - t62) * t62 - (m + t62))
                        <= h * t62 * (t62 - w) * (m + t62));
                }
            }
        } else {
            lemma_doublings_outrun(k as nat);
            let c1 = 1_598_288_580_650_331_956int;
            if t <= 0 {
                assert(-t * p <= t_max() * pm) by (nonlinear_arith)
                    requires -t_max() <= t <= 0, 0 <= p <= pm, t_max() > 0;
                assert(h * l < h * k * ln2_62() + t_max() * pm + h) by (nonlinear_arith)
                    requires t * p < (q + 1) * h, l == k * ln2_62() - q, -t * p <= t_max() * pm;
            } else {
                assert(t * p >= 0) by (nonlinear_arith) requires t > 0, p >= 0;
                assert(h * l < h * k * ln2_62() + h) by (nonlinear_arith)
                    requires t * p < (q + 1) * h, l == k * ln2_62() - q, t * p >= 0;
            }
            assert(l <= k * ln2_62() + c1) by (nonlinear_arith)
                requires
                    h * l < h * k * ln2_62() + t_max() * pm + h,
                    h == 0x2000_0000_0000_0000,
                    t_max() == 791_240_229_949_381_499,
                    pm == 4_657_754_258_317_241_725,
                    c1 == 1_598_288_580_650_331_956,
            ;
            let pk = pow2(k as nat) as int;
            assert(m == w * pk);
            crate::series::lemma_ln_approx_range(x);
            assert(l >= 0);
            assert(l + t62 <= k * ln2_62() + c1 + t62);
            assert(w * l <= t62 * (t62 - w)) by (nonlinear_arith)
                requires
                    l <= k * ln2_62() + c1,
                    2 * sqrt2_half_62() * (k * ln2_62() + c1 + t62) <= pk * t62 * t62,
                    m == w * pk,
                    m < 2 * sqrt2_half_62(),
                    w > 0,
                    pk > 0,
                    k >= 2,
                    l >= 0,
                    0 <= l + t62 <= k * ln2_62() + c1 + t62,
            {
                assert(w * pk * (l + t62) <= 2 * sqrt2_half_62() * (k * ln2_62() + c1 + t62)) by (nonlinear_arith)
                    requires
                        w * pk == m,
                        0 < m < 2 * sqrt2_half_62(),
                        0 <= l + t62 <= k * ln2_62() + c1 + t62,
                ;
                assert(pk * (w * (l + t62)) <= pk * (t62 * t62));
            }
        }
    }
}

/// `ln y >= 1 - 1/y`: the natural logarithm lies above the hyperbola
/// `1 - 1/x`, less an ulp, for every `x` in `(0, 1]`; at `SCALE` and
/// multiplied through by `x`: `x · ln(x) >= u (x - u) - x`.
pub proof fn law_ln_above_reciprocal(x: int)
    requires
        0 < x <= unit(),
    ensures
        x * ln_value(x) >= unit() * (x - unit()) - x,
{
    let u = unit();
    let t = one_62();
    lemma_neg_ln_at_most(x);
    let l = ln_approx(x);
    let r = (l + 0x200) / 0x400;
    assert(ln_value(x) == -r);
    lemma_floor_bounds(l + 0x200, 0x400);
    assert(x * (-r) >= u * (x - u) - x) by (nonlinear_arith)
        requires
            x * 0x400 * l <= t * (t - x * 0x400) + 512 * (x * 0x400),
            r * 0x400 <= l + 0x200,
            t == 0x400 * u,
            x > 0,
    {
        assert(0x400 * (x * r) <= x * l + 0x200 * x);
        assert(0x400 * (x * l) <= t * (t - x * 0x400) + 512 * (x * 0x400));
        assert(t * (t - x * 0x400) == 0x100000 * (u * (u - x)));
        assert(x * l <= 0x400 * (u * (u - x)) + 512 * x);
    }
}

/// The padded power of the exact-out path is at least the first-order
/// bound `1 - y (1/b - 1)` of the true power (since `b^y = e^(y ln b)` and
/// `ln b >= 1 - 1/b`), less `520` units at 62 bits:
/// `w u · p_down >= w u 2^62 - y (2^62 (2^62 - w) + 512 w) - 520 w u` with
/// `w = 2^10 b`.
pub proof fn law_pow_down_62_at_least(base: int, exponent: int)
    requires
        0 < base <= unit(),
        exponent_in_domain(exponent),
    ensures
        ({
            let t = one_62();
            let u = unit();
            let w = base * 0x400;
            w * u * pow_62_down_value(base, exponent)
                >= w * u * t - exponent * (t * (t - w) + 512 * w) - 520 * w * u
        }),
{
    let t = one_62();
    let u = unit();
    let e = exponent;
    let w = base * 0x400;
    lemma_neg_ln_at_most(base);
    crate::series::lemma_ln_approx_range(base);
    let l = ln_approx(base);
    let a = pow_arg(base, e);
    lemma_floor_bounds(e * l, u);
    assert(e * l >= 0) by (nonlinear_arith) requires l >= 0, e > 0;
    vstd::arithmetic::div_mod::lemma_div_pos_is_pos(e * l, u);
    lemma_exp_approx_at_least(a);
    let pv = pow_62_value(base, e);
    let pd = pow_62_down_value(base, e);
    assert(pd >= pv - 512);
    assert(w * u * pd >= w * u * t - e * (t * (t - w) + 512 * w) - 520 * w * u) by (nonlinear_arith)
        requires
            pd >= pv - 512,
            pv >= t - a - 8,
            a * u <= e * l,
            w * l <= t * (t - w) + 512 * w,
            w > 0,
            u > 0,
            e > 0,
    {
        assert(w * u * pd >= w * u * (t - a - 520));
        assert(w * (a * u) <= w * (e * l));
        assert(e * (w * l) <= e * (t * (t - w) + 512 * w));
    }
}

/// A power of a base below one is at least the first-order bound
/// `1 - y (1/b - 1)` of the true power, less `51` ulps:
/// `b u · pow >= b u² - y u (u - b) - 51 b u`.
pub proof fn law_pow_at_least_linear(base: int, exponent: int)
    requires
        0 < base <= unit(),
        exponent_in_domain(exponent),
    ensures
        base * unit() * pow_value(base, exponent)
            >= base * unit() * unit() - exponent * unit() * (unit() - base) - 51 * base * unit(),
{
    let t = one_62();
    let u = unit();
    let e = exponent;
    let b = base;
    let w = base * 0x400;
    lemma_neg_ln_at_most(base);
    crate::series::lemma_ln_approx_range(base);
    let l = ln_approx(base);
    let a = pow_arg(base, e);
    lemma_floor_bounds(e * l, u);
    assert(e * l >= 0) by (nonlinear_arith) requires l >= 0, e > 0;
    vstd::arithmetic::div_mod::lemma_div_pos_is_pos(e * l, u);
    lemma_exp_approx_at_least(a);
    let pv = pow_62_value(base, e);
    let r = pow_value(base, e);
    assert(r == (pv + 0x200) / 0x400);
    lemma_floor_bounds(pv + 0x200, 0x400);
    assert(b * l <= 0x400 * u * (u - b) + 512 * b) by (nonlinear_arith)
        requires w * l <= t * (t - w) + 512 * w, w == b * 0x400, t == 0x400 * u, b > 0
    {
        assert(0x400 * (b * l) <= 0x400 * (0x400 * u * (u - b) + 512 * b));
    }
    assert(b * u * r >= b * u * u - e * u * (u - b) - 51 * b * u) by (nonlinear_arith)
        requires
            pv + 0x200 < (r + 1) * 0x400,
            pv >= t - a - 8,
            a * u <= e * l,
            b * l <= 0x400 * u * (u - b) + 512 * b,
            t == 0x400 * u,
            0 < e <= 99 * u,
            b > 0,
            u == 0x10_0000_0000_0000,
    {
        assert(0x400 * r > pv - 0x200 - 0x400 + 1);
        assert(0x400 * (b * u * r) >= b * u * (t - a - 8 - 0x200 - 0x400 + 1));
        assert(b * (a * u) <= b * (e * l));
        assert(e * (b * l) <= e * (0x400 * u * (u - b) + 512 * b));
        assert(e * 512 * b <= 99 * u * 512 * b);
    }
}

} // verus!
