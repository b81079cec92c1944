//! Weighted-pool swap math (Balancer-style) built on top of [`crate::pow`].
//!
//! Balances, amounts and weights cross this API as raw `u128`; `Fixed`
//! appears only where the math needs a fractional value in a bounded range:
//! the ratio `base = balance_in / (balance_in + amount_in)` and the
//! exponent `weight_in / weight_out`.
//!
//! Every rounding favours the pool: `base` rounds up and the exponent down
//! (both overstate the power), `1 - power` is padded down inside the
//! pipeline, and the final payout multiply floors. `calc_in_given_out`
//! inverts the base-above-one form into the kernel's native domain, and
//! every rounding direction flips once so that the payment is overstated.

use vstd::prelude::*;
use vstd::arithmetic::power2::{pow2, lemma_pow2_pos, lemma_pow2_adds, lemma_pow2_strictly_increases};
use vstd::arithmetic::div_mod::{lemma_div_is_ordered, lemma_div_pos_is_pos};
use crate::arith::{
    ceil_div, lemma_pow2_values, lemma_u128_shr_is_div, lemma_floor_bounds, lemma_ceil_bounds,
};
use crate::fixed::{Fixed, ONE, SCALE, unit, mul_up_value};
use crate::pow::{
    self, LN_SCALE, one_minus_pow_62_value, pow_62_down_value, pow_62_value, exponent_in_domain,
    lemma_pow62_floor_70, lemma_pow62_ceiling_half, min_exponent, pow62_gap_half,
};
use crate::series::{one_62, base_floor_70};
use crate::wide;

verus! {

/// Number of significant bits of a nonnegative integer.
pub open spec fn bit_len(v: int) -> nat
    decreases v,
{
    if v <= 0 {
        0
    } else {
        1 + bit_len(v / 2)
    }
}

/// `2^(bit_len(v) - 1) <= v < 2^bit_len(v)` for positive `v`.
pub proof fn lemma_bit_len(v: int)
    requires
        0 <= v,
    ensures
        v < pow2(bit_len(v)),
        v > 0 ==> bit_len(v) >= 1 && pow2((bit_len(v) - 1) as nat) <= v,
        v == 0 ==> bit_len(v) == 0,
    decreases v,
{
    if v == 0 {
        vstd::arithmetic::power2::lemma2_to64();
    } else {
        lemma_bit_len(v / 2);
        vstd::arithmetic::power2::lemma_pow2_unfold(bit_len(v));
        if v / 2 > 0 {
            vstd::arithmetic::power2::lemma_pow2_unfold((bit_len(v) - 1) as nat);
        } else {
            vstd::arithmetic::power2::lemma2_to64();
        }
    }
}

/// Bit lengths are monotone.
pub proof fn lemma_bit_len_mono(a: int, b: int)
    requires
        0 <= a <= b,
    ensures
        bit_len(a) <= bit_len(b),
    decreases b,
{
    if a > 0 {
        lemma_bit_len_mono(a / 2, b / 2);
    }
}

/// The bit length is the `n` with `2^(n-1) <= v < 2^n`.
proof fn lemma_bit_len_unique(v: int, n: nat)
    requires
        n >= 1,
        pow2((n - 1) as nat) <= v < pow2(n),
    ensures
        bit_len(v) == n,
{
    lemma_pow2_pos((n - 1) as nat);
    lemma_bit_len(v);
    let b = bit_len(v);
    if b < n {
        if b < n - 1 {
            lemma_pow2_strictly_increases(b, (n - 1) as nat);
        }
    } else if b > n {
        if b - 1 > n {
            lemma_pow2_strictly_increases(n, (b - 1) as nat);
        }
    }
}

/// `u64::leading_zeros` counts 64 minus the bit length.
proof fn lemma_u64_leading_zeros(i: u64)
    ensures
        vstd::std_specs::bits::u64_leading_zeros(i) == 64 - bit_len(i as int),
    decreases i,
{
    reveal(vstd::std_specs::bits::u64_leading_zeros);
    if i != 0 {
        lemma_u64_leading_zeros((i / 2) as u64);
    }
}

/// The number of leading zero bits of a `u128`: `128` minus its bit
/// length, counted on the two 64-bit halves.
pub(crate) fn leading_zeros(v: u128) -> (r: u32)
    ensures
        r == 128 - bit_len(v as int),
{
    let hi = (v >> 64u32) as u64;
    proof {
        lemma_u128_shr_is_div(v, 64);
        lemma_pow2_values();
        lemma_u64_leading_zeros(hi);
        lemma_bit_len(hi as int);
    }
    if hi != 0 {
        proof {
            let bh = bit_len(hi as int);
            let p = pow2(64) as int;
            lemma_floor_bounds(v as int, p);
            lemma_pow2_adds((bh - 1) as nat, 64);
            lemma_pow2_adds(bh, 64);
            assert(pow2((bh - 1) as nat) * p <= hi * p) by (nonlinear_arith)
                requires pow2((bh - 1) as nat) <= hi, p > 0;
            assert((hi + 1) * p <= pow2(bh) * p) by (nonlinear_arith)
                requires hi + 1 <= pow2(bh), p > 0;
            assert(((bh + 64 - 1) as nat) == ((bh - 1) as nat) + 64);
            lemma_bit_len_unique(v as int, bh + 64);
        }
        hi.leading_zeros()
    } else {
        let lo = v as u64;
        proof {
            assert(lo == v) by (bit_vector)
                requires
                    lo == v as u64,
                    v >> 64u32 == 0,
            ;
            lemma_u64_leading_zeros(lo);
        }
        64 + lo.leading_zeros()
    }
}

/// Bits kept by the ratio pre-shift: `126 - SCALE`.
pub open spec fn ratio_bits() -> nat {
    74
}

/// The pre-shift that keeps both ratio operands within `126 - SCALE` bits.
pub open spec fn ratio_excess(wide: int) -> nat {
    let b = bit_len(wide);
    if b > ratio_bits() { (b - ratio_bits()) as nat } else { 0 }
}

/// Operands of [`ratio_up`] after the pre-shift: the numerator rounds up
/// and the denominator truncates, so the ratio can only grow.
pub open spec fn ratio_up_operands(num: int, den: int) -> (int, int) {
    let e = ratio_excess(if num > den { num } else { den });
    if e > 0 {
        (num / (pow2(e) as int) + 1, den / (pow2(e) as int))
    } else {
        (num, den)
    }
}

/// `ratio_up` is defined when the pre-shifted denominator keeps a bit.
pub open spec fn ratio_up_defined(num: int, den: int) -> bool {
    den > 0 && ratio_up_operands(num, den).1 > 0
}

/// `num / den` at `SCALE`, rounded up after the pre-shift.
pub open spec fn ratio_up_value(num: int, den: int) -> int {
    let (n, d) = ratio_up_operands(num, den);
    ceil_div(n * unit(), d)
}

/// Operands of [`ratio_down`] after the pre-shift: the numerator truncates
/// and the denominator rounds up.
pub open spec fn ratio_down_operands(num: int, den: int) -> (int, int) {
    let e = ratio_excess(den);
    if e > 0 {
        (num / (pow2(e) as int), den / (pow2(e) as int) + 1)
    } else {
        (num, den)
    }
}

/// `num / den` at `SCALE`, rounded down after the pre-shift.
pub open spec fn ratio_down_value(num: int, den: int) -> int {
    let (n, d) = ratio_down_operands(num, den);
    n * unit() / d
}

/// Facts about the pre-shift of a `u128` operand.
proof fn lemma_excess(wide: int)
    requires
        0 <= wide <= u128::MAX,
    ensures
        ratio_excess(wide) <= 54,
        ratio_excess(wide) > 0 ==> pow2((ratio_excess(wide) + 73) as nat) <= wide,
        wide < pow2((ratio_excess(wide) + 74) as nat),
        wide / (pow2(ratio_excess(wide)) as int) < pow2(74),
{
    lemma_bit_len(wide);
    lemma_pow2_values();
    let e = ratio_excess(wide);
    assert(bit_len(wide) <= 128) by {
        if bit_len(wide) > 128 {
            lemma_pow2_strictly_increases(128, (bit_len(wide) - 1) as nat);
        }
    }
    if bit_len(wide) < 74 {
        lemma_pow2_strictly_increases(bit_len(wide), 74);
    }
    lemma_pow2_adds(e, 74);
    lemma_pow2_pos(e);
    lemma_pow2_pos(74);
    lemma_floor_bounds(wide, pow2(e) as int);
    let q = wide / (pow2(e) as int);
    assert(q < pow2(74)) by (nonlinear_arith)
        requires
            q * (pow2(e) as int) <= wide,
            wide < pow2(e) * pow2(74),
            pow2(e) > 0,
    ;
}

/// Shifted operands as integer quotients.
proof fn lemma_shr_excess(v: u128, e: u32)
    requires
        e < 128,
    ensures
        v >> e == v as int / (pow2(e as nat) as int),
{
    lemma_u128_shr_is_div(v, e);
}

/// `num / den` as a `Fixed`, rounded UP, for operands of full `u128`
/// range: one hardware division. When the operands are too wide for the
/// `num << SCALE` numerator to fit, both are pre-shifted down, biased so
/// that the ratio can only grow; a pre-shift that would truncate the
/// denominator to zero is outside the function's domain.
pub fn ratio_up(num: u128, den: u128) -> (r: Fixed)
    requires
        ratio_up_defined(num as int, den as int),
    ensures
        r.0 == ratio_up_value(num as int, den as int),
        0 <= r.0 <= 0x4000_0000_0000_0000_0000_0000_0000_0001,
{
    let wide = if num > den { num } else { den };
    let bits = 128 - leading_zeros(wide);
    let excess = bits.saturating_sub(126 - SCALE);
    proof {
        lemma_excess(wide as int);
        assert(excess == ratio_excess(wide as int));
        lemma_shr_excess(num, excess);
        lemma_shr_excess(den, excess);
        lemma_pow2_pos(excess as nat);
        lemma_div_is_ordered(num as int, wide as int, pow2(excess as nat) as int);
        lemma_div_is_ordered(den as int, wide as int, pow2(excess as nat) as int);
        lemma_pow2_values();
    }
    let (n, d) = if excess > 0 {
        let d = den >> excess;
        ((num >> excess) + 1, d)
    } else {
        proof {
            vstd::arithmetic::power2::lemma2_to64();
        }
        (num, den)
    };
    proof {
        assert(n <= 0x400_0000_0000_0000_0000);
        assert(d < 0x400_0000_0000_0000_0000);
        assert(n << 52u32 == n * 0x10_0000_0000_0000) by (bit_vector)
            requires n <= 0x400_0000_0000_0000_0000;
    }
    // n <= 2^(126-SCALE), so n << SCALE <= 2^126 and `+ d - 1` fits.
    let q = ((n << SCALE) + d - 1) / d;
    proof {
        lemma_floor_bounds((n * unit() + d - 1) as int, d as int);
        assert(q <= n * unit() + 1) by (nonlinear_arith)
            requires q * d <= n * unit() + d - 1, d >= 1, q >= 0;
    }
    Fixed(q as i128)
}

/// `num / den` as a `Fixed`, rounded DOWN, for `num < den`: the mirror of
/// [`ratio_up`], whose pre-shift truncates the numerator and rounds the
/// denominator up, so the result never overstates the true ratio.
pub fn ratio_down(num: u128, den: u128) -> (r: Fixed)
    requires
        num < den,
    ensures
        r.0 == ratio_down_value(num as int, den as int),
        0 <= r.0 < unit(),
{
    let den_bits = 128 - leading_zeros(den);
    let excess = den_bits.saturating_sub(126 - SCALE);
    proof {
        lemma_excess(den as int);
        assert(excess == ratio_excess(den as int));
        lemma_shr_excess(num, excess);
        lemma_shr_excess(den, excess);
        lemma_pow2_pos(excess as nat);
        lemma_div_is_ordered(num as int, den as int, pow2(excess as nat) as int);
        lemma_pow2_values();
    }
    let (n, d) = if excess > 0 {
        (num >> excess, (den >> excess) + 1)
    } else {
        proof {
            vstd::arithmetic::power2::lemma2_to64();
        }
        (num, den)
    };
    proof {
        assert(n < d);
        assert(n << 52u32 == n * 0x10_0000_0000_0000) by (bit_vector)
            requires n < 0x400_0000_0000_0000_0000;
    }
    let q = (n << SCALE) / d;
    proof {
        lemma_floor_bounds((n * unit()) as int, d as int);
        assert(q < unit()) by (nonlinear_arith)
            requires q * d <= n * unit(), n < d, q >= 0, unit() > 0;
    }
    Fixed(q as i128)
}

/// The pre-shifted ratio never understates the true ratio:
/// `ratio_up(num, den) · den >= num · 2^SCALE`.
pub proof fn law_ratio_up_never_understates(num: int, den: int)
    requires
        0 <= num <= u128::MAX,
        0 <= den <= u128::MAX,
        ratio_up_defined(num, den),
    ensures
        ratio_up_value(num, den) * den >= num * unit(),
        ratio_up_value(num, den) >= 0,
{
    let e = ratio_excess(if num > den { num } else { den });
    let (n, d) = ratio_up_operands(num, den);
    let q = ratio_up_value(num, den);
    let u = unit();
    lemma_ceil_bounds(n * u, d);
    assert(n >= 0) by {
        if e > 0 {
            lemma_pow2_pos(e);
            lemma_div_pos_is_pos(num, pow2(e) as int);
        }
    }
    assert(q >= 0) by (nonlinear_arith)
        requires q * d >= n * u, n >= 0, u > 0, d > 0;
    if e > 0 {
        let p = pow2(e) as int;
        lemma_pow2_pos(e);
        lemma_floor_bounds(num, p);
        lemma_floor_bounds(den, p);
        assert(q * den >= num * u) by (nonlinear_arith)
            requires
                q * d >= n * u,
                n * p > num,
                d * p <= den,
                q >= 0,
                u > 0,
                p > 0,
                n == num / p + 1,
                (num / p + 1) * p > num,
                d == den / p,
                (den / p) * p <= den,
        ;
    }
}

/// The pre-shifted ratio never overstates the true ratio:
/// `ratio_down(num, den) · den <= num · 2^SCALE`.
pub proof fn law_ratio_down_never_overstates(num: int, den: int)
    requires
        0 <= num < den <= u128::MAX,
    ensures
        ratio_down_value(num, den) * den <= num * unit(),
        ratio_down_value(num, den) >= 0,
{
    let e = ratio_excess(den);
    let (n, d) = ratio_down_operands(num, den);
    let q = ratio_down_value(num, den);
    let u = unit();
    lemma_pow2_pos(e);
    lemma_div_pos_is_pos(num, pow2(e) as int);
    lemma_div_pos_is_pos(den, pow2(e) as int);
    lemma_floor_bounds(n * u, d);
    lemma_div_pos_is_pos(n * u, d);
    if e > 0 {
        let p = pow2(e) as int;
        lemma_floor_bounds(num, p);
        lemma_floor_bounds(den, p);
        assert(q * den <= num * u) by (nonlinear_arith)
            requires
                q * d <= n * u,
                n * p <= num,
                d * p > den,
                q >= 0,
                u > 0,
                p > 0,
                n == num / p,
                (num / p) * p <= num,
                d == den / p + 1,
                den < (den / p + 1) * p,
        ;
    }
}

/// With the numerator at most the denominator, the denominator is the wide
/// operand and its pre-shift keeps at least one bit.
pub proof fn lemma_ratio_up_defined(num: int, den: int)
    requires
        0 <= num <= den,
        1 <= den <= u128::MAX,
    ensures
        ratio_up_defined(num, den),
{
    lemma_excess(den);
    let e = ratio_excess(den);
    if e > 0 {
        lemma_pow2_adds(e, 73);
        lemma_pow2_pos(e);
        lemma_pow2_pos(73);
        lemma_floor_bounds(den, pow2(e) as int);
        let p = pow2(e) as int;
        assert(den / p >= 1) by (nonlinear_arith)
            requires
                p * pow2(73) <= den,
                den < (den / p + 1) * p,
                p > 0,
                pow2(73) >= 1,
        ;
    } else {
        vstd::arithmetic::power2::lemma2_to64();
    }
}

/// Largest weight, `2^64`.
pub open spec fn max_weight() -> int {
    0x1_0000_0000_0000_0000
}

/// The weight envelope: weights in `[1, 2^64]`, ratio within `[1/99, 99]`.
pub open spec fn weights_ok(weight_in: int, weight_out: int) -> bool {
    &&& 1 <= weight_in <= max_weight()
    &&& 1 <= weight_out <= max_weight()
    &&& weight_in <= 99 * weight_out
    &&& weight_out <= 99 * weight_in
}

/// Whether a weight pair lies inside the enforced envelope.
pub fn weights_in_envelope(weight_in: u128, weight_out: u128) -> (r: bool)
    ensures
        r == weights_ok(weight_in as int, weight_out as int),
{
    weight_in >= 1 && weight_out >= 1 && weight_in <= 0x1_0000_0000_0000_0000
        && weight_out <= 0x1_0000_0000_0000_0000 && weight_in <= 99 * weight_out
        && weight_out <= 99 * weight_in
}

/// The weight envelope as a precondition: returns exactly when both weights
/// are in `[1, 2^64]` with their ratio within `[1/99, 99]`; a pair outside
/// it is outside the function's domain (callers that cannot know test it
/// first with [`weights_in_envelope`]).
pub fn check_weights(weight_in: u128, weight_out: u128)
    requires
        weights_ok(weight_in as int, weight_out as int),
{
}

/// `weight_in / weight_out` at `SCALE`, rounded down.
pub open spec fn exponent_down(weight_in: int, weight_out: int) -> int {
    weight_in * unit() / weight_out
}

/// `weight_out / weight_in` at `SCALE`, rounded up.
pub open spec fn exponent_up(weight_in: int, weight_out: int) -> int {
    ceil_div(weight_out * unit(), weight_in)
}

/// Both directed weight ratios lie in the pow exponent domain.
pub proof fn lemma_exponents(weight_in: int, weight_out: int)
    requires
        weights_ok(weight_in, weight_out),
    ensures
        exponent_in_domain(exponent_down(weight_in, weight_out)),
        exponent_in_domain(exponent_up(weight_in, weight_out)),
{
    let u = unit();
    lemma_floor_bounds(weight_in * u, weight_out);
    lemma_ceil_bounds(weight_out * u, weight_in);
    let q = exponent_down(weight_in, weight_out);
    let c = exponent_up(weight_in, weight_out);
    assert(0 < q <= 99 * u) by (nonlinear_arith)
        requires
            q * weight_out <= weight_in * u,
            weight_in * u < (q + 1) * weight_out,
            weight_in <= 99 * weight_out,
            weight_out <= 99 * weight_in,
            weight_in >= 1,
            weight_out >= 1,
            u == 0x10_0000_0000_0000,
    ;
    assert(0 < c <= 99 * u) by (nonlinear_arith)
        requires
            c * weight_in >= weight_out * u,
            (c - 1) * weight_in < weight_out * u,
            weight_in <= 99 * weight_out,
            weight_out <= 99 * weight_in,
            weight_in >= 1,
            weight_out >= 1,
            u == 0x10_0000_0000_0000,
    ;
}

/// The envelope of an exact-in trade: nonempty reserves, a total deposit
/// below `2^128`, and weights inside their envelope.
pub open spec fn out_given_in_envelope(
    balance_in: int,
    weight_in: int,
    balance_out: int,
    weight_out: int,
    amount_in: int,
) -> bool {
    &&& balance_in >= 1
    &&& balance_out >= 1
    &&& balance_in + amount_in <= u128::MAX
    &&& weights_ok(weight_in, weight_out)
}

/// The payout of an exact-in trade:
/// `floor(balance_out · (1 - base^exponent))` with `base` rounded up,
/// the exponent rounded down and `1 - power` padded down; zero when the
/// rounded base reaches one.
pub open spec fn out_given_in_value(
    balance_in: int,
    weight_in: int,
    balance_out: int,
    weight_out: int,
    amount_in: int,
) -> int {
    let base = ratio_up_value(balance_in, balance_in + amount_in);
    if base >= unit() {
        0
    } else {
        balance_out * one_minus_pow_62_value(base, exponent_down(weight_in, weight_out)) / one_62()
    }
}

/// `weight << SCALE`, exact for weights up to `2^64`.
fn scaled_weight(w: u128) -> (r: u128)
    requires
        w <= max_weight(),
    ensures
        r == w * unit(),
{
    proof {
        assert(w << 52u32 == w * 0x10_0000_0000_0000) by (bit_vector)
            requires w <= 0x1_0000_0000_0000_0000;
    }
    w << SCALE
}

/// Amount of `token_out` received for a given `amount_in` of `token_in`:
/// `out = balance_out · (1 - (balance_in / (balance_in + amount_in))^(weight_in / weight_out))`,
/// rounded down (pool-favouring). A trade too small to move the quantized
/// ratio pays zero, and the payout never exceeds the reserve.
pub fn calc_out_given_in(
    balance_in: u128,
    weight_in: u128,
    balance_out: u128,
    weight_out: u128,
    amount_in: u128,
) -> (r: u128)
    requires
        out_given_in_envelope(
            balance_in as int,
            weight_in as int,
            balance_out as int,
            weight_out as int,
            amount_in as int,
        ),
    ensures
        r == out_given_in_value(
            balance_in as int,
            weight_in as int,
            balance_out as int,
            weight_out as int,
            amount_in as int,
        ),
        r <= balance_out,
{
    check_weights(weight_in, weight_out);
    let total = balance_in + amount_in;
    proof {
        lemma_exponents(weight_in as int, weight_out as int);
        lemma_ratio_up_defined(balance_in as int, total as int);
        law_ratio_up_never_understates(balance_in as int, total as int);
        lemma_floor_bounds(weight_in * unit(), weight_out as int);
    }
    // Exponent rounds down, base rounds up: both overstate the power.
    let exponent = Fixed((scaled_weight(weight_in) / weight_out) as i128);
    let base = ratio_up(balance_in, total);
    if base.0 >= ONE {
        return 0;
    }
    proof {
        assert(base.0 > 0) by (nonlinear_arith)
            requires
                base.0 * total >= balance_in * unit(),
                balance_in >= 1,
                total >= 1,
                unit() > 0,
                base.0 >= 0,
        ;
    }
    // 1 - power at the internal 62-bit scale, rounded down.
    let omp62 = pow::one_minus_pow_62(base, exponent);
    proof {
        lemma_pow2_values();
        assert(balance_out * omp62 <= balance_out * one_62()) by (nonlinear_arith)
            requires 0 <= omp62 <= one_62(), balance_out >= 0;
        lemma_div_is_ordered(balance_out * omp62, balance_out * one_62(), one_62());
        vstd::arithmetic::div_mod::lemma_div_multiples_vanish(balance_out as int, one_62());
        vstd::arithmetic::mul::lemma_mul_is_commutative(balance_out as int, one_62());
    }
    // tokens_out = floor(balance_out * omp62 / 2^62): the widened multiply.
    wide::mul_shr(balance_out, omp62 as u128, LN_SCALE)
}

/// `floor(30% of the reserve)`: the largest exact-out amount.
pub open spec fn cap_30(balance_out: int) -> int {
    balance_out * 3 / 10
}

/// The exact-out base `(balance_out - amount_out) / balance_out`, rounded
/// down.
pub open spec fn in_base_value(balance_out: int, amount_out: int) -> int {
    ratio_down_value(balance_out - amount_out, balance_out)
}

/// The exact-out power `p = base^(weight_out / weight_in)` at 62 bits,
/// padded down.
pub open spec fn in_power_62(balance_out: int, weight_in: int, weight_out: int, amount_out: int) -> int {
    pow_62_down_value(in_base_value(balance_out, amount_out), exponent_up(weight_in, weight_out))
}

/// `(1 - p) / p` at 62 bits, rounded up.
pub open spec fn in_ratio_62(p62: int) -> int {
    ceil_div((one_62() - p62) * one_62(), p62)
}

/// The payment of an exact-out trade:
/// `ceil(balance_in · ((balance_out / (balance_out - amount_out))^(weight_out / weight_in) - 1))`
/// computed as `balance_in · (1 - p) / p`, every rounding overstating the
/// payment; zero for a zero amount.
pub open spec fn in_given_out_value(
    balance_in: int,
    weight_in: int,
    balance_out: int,
    weight_out: int,
    amount_out: int,
) -> int {
    if amount_out == 0 {
        0
    } else {
        ceil_div(
            balance_in * in_ratio_62(in_power_62(balance_out, weight_in, weight_out, amount_out)),
            one_62(),
        )
    }
}

/// The envelope of an exact-out trade: nonempty reserves, weights inside
/// their envelope, `amount_out` at most 30% of the reserve, and a payment
/// that fits `u128`.
pub open spec fn in_given_out_envelope(
    balance_in: int,
    weight_in: int,
    balance_out: int,
    weight_out: int,
    amount_out: int,
) -> bool {
    &&& balance_in >= 1
    &&& balance_out >= 1
    &&& weights_ok(weight_in, weight_out)
    &&& 0 <= amount_out <= cap_30(balance_out)
    &&& in_given_out_value(balance_in, weight_in, balance_out, weight_out, amount_out) <= u128::MAX
}

/// Within the 30% cap, the rounded-down exact-out base stays at or above
/// `base_floor_70` (just under 0.7).
pub proof fn lemma_in_base_floor(balance_out: int, amount_out: int)
    requires
        1 <= balance_out <= u128::MAX,
        1 <= amount_out <= cap_30(balance_out),
    ensures
        base_floor_70() <= in_base_value(balance_out, amount_out) < unit(),
{
    let num = balance_out - amount_out;
    let den = balance_out;
    let u = unit();
    let b = base_floor_70();
    lemma_floor_bounds(3 * den, 10);
    assert(10 * num >= 7 * den);
    assert(num >= 1) by (nonlinear_arith) requires 10 * num >= 7 * den, den >= 1;
    law_ratio_down_never_overstates(num, den);
    let e = ratio_excess(den);
    let (n, d) = ratio_down_operands(num, den);
    let q = ratio_down_value(num, den);
    lemma_excess(den);
    lemma_pow2_pos(e);
    assert(q < u) by {
        assert(q * den <= num * u);
        assert(q < u) by (nonlinear_arith)
            requires q * den <= num * u, num < den, u > 0, den > 0;
    }
    if e == 0 {
        vstd::arithmetic::power2::lemma2_to64();
        lemma_floor_bounds(num * u, den);
        assert(q >= b) by (nonlinear_arith)
            requires
                num * u < (q + 1) * den,
                10 * num >= 7 * den,
                den >= 1,
                u == 0x10_0000_0000_0000,
                b == 3_152_519_739_159_000,
        ;
    } else {
        let p = pow2(e) as int;
        lemma_pow2_adds(e, 73);
        lemma_pow2_values();
        lemma_floor_bounds(num, p);
        lemma_floor_bounds(den, p);
        lemma_div_pos_is_pos(num, p);
        lemma_div_pos_is_pos(den, p);
        lemma_floor_bounds(n * u, d);
        assert(n * p > num - p) by (nonlinear_arith)
            requires num < (n + 1) * p;
        assert(d * p <= den + p) by (nonlinear_arith)
            requires d == den / p + 1, (den / p) * p <= den;
        assert(p * 0x200_0000_0000_0000_0000 <= den);
        if q < b {
            assert(n * u < b * d) by (nonlinear_arith)
                requires n * u < (q + 1) * d, q + 1 <= b, d > 0;
            assert(n * u * p < b * d * p) by (nonlinear_arith)
                requires n * u < b * d, p > 0;
            assert(false) by (nonlinear_arith)
                requires
                    n * u * p < b * d * p,
                    n * p > num - p,
                    d * p <= den + p,
                    10 * num >= 7 * den,
                    p * 0x200_0000_0000_0000_0000 <= den,
                    p > 0,
                    u == 0x10_0000_0000_0000,
                    b == 3_152_519_739_159_000,
            ;
        }
    }
}

/// `weight_out / weight_in` at `SCALE`, rounded up.
fn exponent_up_of(weight_in: u128, weight_out: u128) -> (r: Fixed)
    requires
        weights_ok(weight_in as int, weight_out as int),
    ensures
        r.0 == exponent_up(weight_in as int, weight_out as int),
        exponent_in_domain(r.0 as int),
{
    proof {
        lemma_exponents(weight_in as int, weight_out as int);
    }
    Fixed(((scaled_weight(weight_out) + weight_in - 1) / weight_in) as i128)
}

/// `floor(3 · b / 10)` computed without overflowing `3 · b`.
fn cap_30_of(balance_out: u128) -> (r: u128)
    ensures
        r == cap_30(balance_out as int),
{
    proof {
        let b = balance_out as int;
        let q = b / 10;
        let m = b % 10;
        vstd::arithmetic::div_mod::lemma_fundamental_div_mod(b, 10);
        vstd::arithmetic::div_mod::lemma_mod_bound(b, 10);
        crate::arith::lemma_floor_unique(3 * b, 10, q * 3 + m * 3 / 10);
    }
    balance_out / 10 * 3 + balance_out % 10 * 3 / 10
}

/// Amount of `token_in` required to receive a given `amount_out` of
/// `token_out`: `in = balance_in · ((balance_out / (balance_out - amount_out))^(weight_out / weight_in) - 1)`,
/// rounded up (the pool never undercharges). The base-above-one form is
/// inverted into the kernel's native domain, `(b/(b-a))^y - 1 = (1-p)/p`
/// with `p = ((b-a)/b)^y ∈ (0,1)`, and every rounding overstates the
/// payment: base down, exponent up, power padded down, both divisions up.
/// A nonzero trade always costs at least one unit.
pub fn calc_in_given_out(
    balance_in: u128,
    weight_in: u128,
    balance_out: u128,
    weight_out: u128,
    amount_out: u128,
) -> (r: u128)
    requires
        in_given_out_envelope(
            balance_in as int,
            weight_in as int,
            balance_out as int,
            weight_out as int,
            amount_out as int,
        ),
    ensures
        r == in_given_out_value(
            balance_in as int,
            weight_in as int,
            balance_out as int,
            weight_out as int,
            amount_out as int,
        ),
        amount_out > 0 ==> r >= 1,
{
    check_weights(weight_in, weight_out);
    if amount_out == 0 {
        return 0;
    }
    let r62 = payment_ratio_62(weight_in, balance_out, weight_out, amount_out);
    proof {
        lemma_pow2_values();
        assert(balance_in * r62 >= 1) by (nonlinear_arith)
            requires balance_in >= 1, r62 >= 1;
        crate::arith::lemma_ceil_bounds(balance_in * r62, one_62());
        assert(ceil_div(balance_in * r62, one_62()) >= 1) by (nonlinear_arith)
            requires
                ceil_div(balance_in * r62, one_62()) * one_62() >= balance_in * r62,
                balance_in * r62 >= 1,
                one_62() > 0,
        ;
    }
    // amount_in = ceil(balance_in · r62 / 2^62): the widened multiply.
    wide::mul_shr_up(balance_in, r62, LN_SCALE)
}

/// Amount of `token_in` required to receive `amount_out`, or `None` outside
/// the exact-out envelope: an empty reserve, weights outside their
/// envelope, an amount above 30% of the reserve, or a payment past `u128`.
pub fn checked_calc_in_given_out(
    balance_in: u128,
    weight_in: u128,
    balance_out: u128,
    weight_out: u128,
    amount_out: u128,
) -> (r: Option<u128>)
    ensures
        r == (if in_given_out_envelope(
            balance_in as int,
            weight_in as int,
            balance_out as int,
            weight_out as int,
            amount_out as int,
        ) {
            Some(in_given_out_value(
                balance_in as int,
                weight_in as int,
                balance_out as int,
                weight_out as int,
                amount_out as int,
            ) as u128)
        } else {
            None
        }),
        r matches Some(v) ==> v == in_given_out_value(
            balance_in as int,
            weight_in as int,
            balance_out as int,
            weight_out as int,
            amount_out as int,
        ),
{
    if balance_in < 1 || balance_out < 1 || !weights_in_envelope(weight_in, weight_out) {
        return None;
    }
    if amount_out > cap_30_of(balance_out) {
        return None;
    }
    if amount_out == 0 {
        return Some(0);
    }
    let r62 = payment_ratio_62(weight_in, balance_out, weight_out, amount_out);
    proof {
        lemma_pow2_values();
        lemma_ceil_bounds(balance_in * r62, one_62());
        let c = ceil_div(balance_in * r62, one_62());
        assert(c >= 0) by (nonlinear_arith)
            requires c * one_62() >= balance_in * r62, balance_in >= 1, r62 >= 1, one_62() > 0;
    }
    wide::checked_mul_shr_up(balance_in, r62, LN_SCALE)
}

/// `(1 - p) / p` at 62 bits, rounded up, for a nonzero exact-out trade
/// inside the 30% cap.
fn payment_ratio_62(weight_in: u128, balance_out: u128, weight_out: u128, amount_out: u128) -> (r: u128)
    requires
        weights_ok(weight_in as int, weight_out as int),
        1 <= amount_out <= cap_30(balance_out as int),
        balance_out >= 1,
    ensures
        r == in_ratio_62(in_power_62(balance_out as int, weight_in as int, weight_out as int, amount_out as int)),
        1 <= r < 0x1000_0000_0000_0000_0000_0000_0000_0000,
{
    proof {
        lemma_in_base_floor(balance_out as int, amount_out as int);
        lemma_floor_bounds(3 * balance_out, 10);
    }
    // Exponent rounds up, base rounds down: both understate p.
    let exponent = exponent_up_of(weight_in, weight_out);
    let base = ratio_down(balance_out - amount_out, balance_out);
    proof {
        lemma_pow62_floor_70(base.0 as int, exponent.0 as int);
    }
    let p62 = pow::pow_62_down(base, exponent);
    // With the 30% cap, p >= 0.7^99: the power stays above the grid.
    assert(p62 > 0);
    let diff = (ONE_62 - p62) as u128;
    proof {
        assert(diff << 62u32 == diff * 0x4000_0000_0000_0000) by (bit_vector)
            requires 1 <= diff <= 0x4000_0000_0000_0000;
    }
    // (1 - p)/p at LN_SCALE, rounded up: the numerator fits u128.
    let num = diff << LN_SCALE;
    let d = p62 as u128;
    let r = (num + d - 1) / d;
    proof {
        lemma_floor_bounds((num + d - 1) as int, d as int);
        assert(diff <= 0x3fff_ffff_ffff_ffff);
        assert(num < 0x1000_0000_0000_0000_0000_0000_0000_0000) by (nonlinear_arith)
            requires num == diff * 0x4000_0000_0000_0000, diff <= 0x3fff_ffff_ffff_ffff;
        assert(r <= num) by (nonlinear_arith)
            requires r * d <= num + d - 1, d >= 1, r >= 0, num >= 0;
        assert(r >= 1) by (nonlinear_arith)
            requires num + d - 1 < (r + 1) * d, num >= d, d >= 1;
    }
    r
}

const ONE_62: i128 = 0x4000_0000_0000_0000;

/// The spot price `(balance_in / weight_in) / (balance_out / weight_out)`
/// at `SCALE`: the up-rounded reserve ratio times the up-rounded weight
/// ratio, rounded up. Where the reserve ratio is too wide for its
/// pre-shifted division (the shifted `balance_out` would vanish), the price
/// is `balance_in · wratio / balance_out` rounded up, formed exactly.
pub open spec fn spot_price_value(balance_in: int, weight_in: int, balance_out: int, weight_out: int) -> int {
    if ratio_up_defined(balance_in, balance_out) {
        mul_up_value(ratio_up_value(balance_in, balance_out), exponent_up(weight_in, weight_out))
    } else {
        ceil_div(balance_in * exponent_up(weight_in, weight_out), balance_out)
    }
}

/// The spot price is defined when the reserves are nonempty, the weights
/// inside their envelope, and the price within the `Fixed` range.
pub open spec fn spot_price_envelope(balance_in: int, weight_in: int, balance_out: int, weight_out: int) -> bool {
    &&& balance_in >= 1
    &&& balance_out >= 1
    &&& weights_ok(weight_in, weight_out)
    &&& spot_price_value(balance_in, weight_in, balance_out, weight_out) <= i128::MAX
}

/// Whether [`ratio_up`]'s pre-shift keeps a bit of the denominator.
fn ratio_up_in_domain(num: u128, den: u128) -> (r: bool)
    ensures
        r == ratio_up_defined(num as int, den as int),
{
    if den == 0 {
        return false;
    }
    let wide = if num > den { num } else { den };
    let bits = 128 - leading_zeros(wide);
    let excess = bits.saturating_sub(126 - SCALE);
    proof {
        lemma_excess(wide as int);
        assert(excess == ratio_excess(wide as int));
        lemma_shr_excess(den, excess);
    }
    if excess > 0 {
        (den >> excess) > 0
    } else {
        true
    }
}

/// Outside [`ratio_up`]'s domain the denominator is narrow: below `2^54`.
proof fn lemma_narrow_den(num: int, den: int)
    requires
        0 <= num <= u128::MAX,
        1 <= den <= u128::MAX,
        !ratio_up_defined(num, den),
    ensures
        den < 0x40_0000_0000_0000,
{
    let wide = if num > den { num } else { den };
    lemma_excess(wide);
    let e = ratio_excess(wide);
    lemma_pow2_pos(e);
    lemma_floor_bounds(den, pow2(e) as int);
    assert(ratio_up_operands(num, den).1 == (if e > 0 { den / (pow2(e) as int) } else { den }));
    assert(e > 0);
    let p = pow2(e) as int;
    assert(den / p == 0);
    assert(den < p) by (nonlinear_arith)
        requires den < (den / p + 1) * p, den / p == 0;
    lemma_pow2_values();
    lemma_pow2_adds(52, 2);
    vstd::arithmetic::power2::lemma2_to64();
    if e < 54 {
        lemma_pow2_strictly_increases(e, 54);
    }
}

/// `ceil(num · a / den)` for a denominator below `2^54` and `a < 2^59`,
/// formed as `(num / den) · a + ceil((num % den) · a / den)`; `None` when it
/// does not fit a `u128`.
fn ratio_times_up(num: u128, den: u128, a: u128) -> (r: Option<u128>)
    requires
        1 <= den < 0x40_0000_0000_0000,
        a < 0x800_0000_0000_0000,
    ensures
        r == (if ceil_div(num * a, den as int) <= u128::MAX {
            Some(ceil_div(num * a, den as int) as u128)
        } else {
            None
        }),
{
    let q = num / den;
    let rem = num % den;
    proof {
        vstd::arithmetic::div_mod::lemma_fundamental_div_mod(num as int, den as int);
        assert(rem * a < 0x2_0000_0000_0000_0000_0000_0000_0000) by (nonlinear_arith)
            requires rem < 0x40_0000_0000_0000, a < 0x800_0000_0000_0000;
    }
    let tail = (rem * a + den - 1) / den;
    proof {
        let t = ceil_div(rem * a, den as int);
        lemma_ceil_bounds(rem * a, den as int);
        assert(t >= 0) by (nonlinear_arith)
            requires t * den >= rem * a, rem * a >= 0, den >= 1;
        assert(num * a == (q * a) * den + rem * a) by (nonlinear_arith)
            requires num == den * q + rem;
        assert((q * a + t - 1) * den < num * a <= (q * a + t) * den) by (nonlinear_arith)
            requires
                (t - 1) * den < rem * a <= t * den,
                num * a == (q * a) * den + rem * a,
        ;
        crate::arith::lemma_ceil_unique(num * a, den as int, q * a + t);
    }
    match q.checked_mul(a) {
        None => None,
        Some(head) => head.checked_add(tail),
    }
}

/// Spot price of `token_in` in terms of `token_out` (ignoring swap fees):
/// `(balance_in / weight_in) / (balance_out / weight_out)`, rounded up.
/// It is positive and never understates the true price:
/// `spot · balance_out · weight_in >= balance_in · weight_out · 2^SCALE`.
pub fn spot_price(balance_in: u128, weight_in: u128, balance_out: u128, weight_out: u128) -> (r: Fixed)
    requires
        spot_price_envelope(balance_in as int, weight_in as int, balance_out as int, weight_out as int),
    ensures
        r.0 == spot_price_value(balance_in as int, weight_in as int, balance_out as int, weight_out as int),
        r.0 > 0,
        r.0 * balance_out * weight_in >= balance_in * weight_out * unit(),
{
    check_weights(weight_in, weight_out);
    let wratio = exponent_up_of(weight_in, weight_out);
    proof {
        lemma_spot_never_understates(balance_in as int, weight_in as int, balance_out as int, weight_out as int);
    }
    if ratio_up_in_domain(balance_in, balance_out) {
        ratio_up(balance_in, balance_out).mul_up(wratio)
    } else {
        proof {
            lemma_narrow_den(balance_in as int, balance_out as int);
            lemma_exponents(weight_in as int, weight_out as int);
        }
        Fixed(ratio_times_up(balance_in, balance_out, wratio.0 as u128).unwrap() as i128)
    }
}

/// The spot price, or `None` outside its envelope: an empty reserve,
/// weights outside their envelope, or a price past the `Fixed` range.
pub fn checked_spot_price(balance_in: u128, weight_in: u128, balance_out: u128, weight_out: u128) -> (r: Option<Fixed>)
    ensures
        r is Some <==> spot_price_envelope(balance_in as int, weight_in as int, balance_out as int, weight_out as int),
        r matches Some(f) ==> f.0 == spot_price_value(
            balance_in as int,
            weight_in as int,
            balance_out as int,
            weight_out as int,
        ),
{
    if balance_in < 1 || balance_out < 1 || !weights_in_envelope(weight_in, weight_out) {
        return None;
    }
    let wratio = exponent_up_of(weight_in, weight_out);
    proof {
        lemma_exponents(weight_in as int, weight_out as int);
        lemma_pow2_values();
    }
    let price = if ratio_up_in_domain(balance_in, balance_out) {
        let ratio = ratio_up(balance_in, balance_out);
        wide::checked_mul_shr_up(ratio.0 as u128, wratio.0 as u128, SCALE)
    } else {
        proof {
            lemma_narrow_den(balance_in as int, balance_out as int);
        }
        ratio_times_up(balance_in, balance_out, wratio.0 as u128)
    };
    match price {
        Some(v) => {
            if v <= 0x7fff_ffff_ffff_ffff_ffff_ffff_ffff_ffff {
                Some(Fixed(v as i128))
            } else {
                None
            }
        },
        None => None,
    }
}

/// The spot price is positive and never understates the true price, on
/// both of its branches.
proof fn lemma_spot_never_understates(balance_in: int, weight_in: int, balance_out: int, weight_out: int)
    requires
        1 <= balance_in <= u128::MAX,
        1 <= balance_out <= u128::MAX,
        weights_ok(weight_in, weight_out),
    ensures
        ({
            let sp = spot_price_value(balance_in, weight_in, balance_out, weight_out);
            &&& sp > 0
            &&& sp * balance_out * weight_in >= balance_in * weight_out * unit()
        }),
{
    let u = unit();
    let bi = balance_in;
    let bo = balance_out;
    let wi = weight_in;
    let wo = weight_out;
    let w = exponent_up(wi, wo);
    lemma_ceil_bounds(wo * u, wi);
    lemma_exponents(wi, wo);
    let sp = spot_price_value(bi, wi, bo, wo);
    if ratio_up_defined(bi, bo) {
        law_ratio_up_never_understates(bi, bo);
        let rr = ratio_up_value(bi, bo);
        assert(rr >= 1) by (nonlinear_arith)
            requires rr * bo >= bi * u, bi >= 1, bo >= 1, u > 0, rr >= 0;
        lemma_ceil_bounds(rr * w, u);
        assert(rr * w >= 1) by (nonlinear_arith)
            requires rr >= 1, w >= 1;
        assert(sp >= 1) by (nonlinear_arith)
            requires sp * u >= rr * w, rr * w >= 1, u > 0;
        assert(sp * u * (bo * wi) >= (rr * bo) * (w * wi)) by (nonlinear_arith)
            requires sp * u >= rr * w, bo >= 1, wi >= 1;
        assert((rr * bo) * (w * wi) >= (bi * u) * (wo * u)) by (nonlinear_arith)
            requires rr * bo >= bi * u, w * wi >= wo * u, bi >= 1, u > 0, wo >= 1;
        assert(sp * bo * wi >= bi * wo * u) by (nonlinear_arith)
            requires sp * u * (bo * wi) >= (bi * u) * (wo * u), u > 0;
    } else {
        lemma_ceil_bounds(bi * w, bo);
        assert(bi * w >= 1) by (nonlinear_arith)
            requires bi >= 1, w >= 1;
        assert(sp >= 1) by (nonlinear_arith)
            requires sp * bo >= bi * w, bi * w >= 1, bo > 0;
        assert(sp * bo * wi >= bi * w * wi) by (nonlinear_arith)
            requires sp * bo >= bi * w, wi >= 1;
        assert(bi * w * wi >= bi * wo * u) by (nonlinear_arith)
            requires w * wi >= wo * u, bi >= 1;
    }
}

/// The band above the true spot price that the differential harness
/// grants, in ulps: two per whole unit of the weight ratio `wr`, the whole
/// part of the reserve ratio estimated back from the price, and four.
pub open spec fn spot_band(spot: int, weight_in: int, weight_out: int) -> int {
    let wr = exponent_up(weight_in, weight_out);
    let r_est = spot * unit() / wr + 1;
    2 * (wr / unit()) + r_est / unit() + 4
}

/// How far the rounded-up reserve ratio overshoots: `r · den < num · 2^SCALE
/// + den + x` for an `x` at most half of `den`, whenever the pre-shift is
/// absent or the denominator is the wide operand.
proof fn lemma_ratio_up_overshoot(num: int, den: int) -> (x: int)
    requires
        1 <= num <= u128::MAX,
        1 <= den <= u128::MAX,
        (num < 0x400_0000_0000_0000_0000 && den < 0x400_0000_0000_0000_0000) || num <= den,
    ensures
        ratio_up_defined(num, den),
        0 <= x,
        2 * x <= den,
        ratio_up_value(num, den) * den < num * unit() + den + x,
{
    let u = unit();
    lemma_pow2_values();
    let wide = if num > den { num } else { den };
    lemma_excess(wide);
    let e = ratio_excess(wide);
    if num < 0x400_0000_0000_0000_0000 && den < 0x400_0000_0000_0000_0000 && e > 0 {
        if e + 73 > 74 {
            lemma_pow2_strictly_increases(74, (e + 73) as nat);
        }
        assert(pow2(74) == 0x400_0000_0000_0000_0000) by {
            lemma_pow2_adds(64, 10);
        }
    }
    if e == 0 {
        assert(ratio_up_operands(num, den) == (num, den));
        let r = ratio_up_value(num, den);
        lemma_ceil_bounds(num * u, den);
        assert(r * den < num * u + den) by (nonlinear_arith)
            requires (r - 1) * den < num * u;
        0
    } else {
        assert(num <= den);
        lemma_ratio_up_defined(num, den);
        let p = pow2(e) as int;
        lemma_pow2_pos(e);
        lemma_pow2_adds(e, 73);
        lemma_pow2_adds(e, 55);
        lemma_pow2_strictly_increases(55, 73);
        lemma_pow2_adds(52, 3);
        vstd::arithmetic::power2::lemma2_to64();
        let n = num / p + 1;
        let d = den / p;
        assert(ratio_up_operands(num, den) == (n, d));
        let r = ratio_up_value(num, den);
        lemma_floor_bounds(num, p);
        lemma_floor_bounds(den, p);
        lemma_ceil_bounds(n * u, d);
        lemma_div_is_ordered(num, den, p);
        assert(d >= 1);
        assert(r >= 0) by (nonlinear_arith)
            requires r * d >= n * u, n >= 1, d >= 1, u > 0;
        // n <= d + 1 keeps the shifted ratio below two
        assert(r <= 2 * u + 1) by (nonlinear_arith)
            requires (r - 1) * d < n * u, n <= d + 1, d >= 1, u > 0;
        let x = p * (u + r);
        assert(r * d < n * u + d) by (nonlinear_arith)
            requires (r - 1) * d < n * u;
        assert(r * d * p < (n * u + d) * p) by (nonlinear_arith)
            requires r * d < n * u + d, p > 0;
        assert(n * p <= num + p) by (nonlinear_arith)
            requires (num / p) * p <= num, n == num / p + 1;
        assert(n * u * p <= (num + p) * u) by (nonlinear_arith)
            requires n * p <= num + p, u > 0;
        assert(r * den <= r * (d + 1) * p) by (nonlinear_arith)
            requires den < (d + 1) * p, r >= 0;
        assert(d * p <= den);
        assert(r * (d + 1) * p == r * d * p + r * p) by (nonlinear_arith);
        assert((n * u + d) * p == n * u * p + d * p) by (nonlinear_arith);
        assert((num + p) * u == num * u + p * u) by (nonlinear_arith);
        assert(x == p * u + r * p) by (nonlinear_arith)
            requires x == p * (u + r);
        assert(r * den < num * u + den + x);
        assert(2 * x <= den) by (nonlinear_arith)
            requires
                x == p * (u + r),
                r <= 2 * u + 1,
                u == 0x10_0000_0000_0000,
                pow2(e + 55) == p * pow2(55),
                pow2(e + 73) == p * pow2(73),
                pow2(55) < pow2(73),
                pow2(e + 73) <= den,
                pow2(55) == 0x80_0000_0000_0000,
                p > 0,
        ;
        x
    }
}

/// The spot price lies within its band above the true price:
/// `(spot - band) · balance_out · weight_in < balance_in · weight_out ·
/// 2^SCALE`, whenever the reserve ratio is divided without a pre-shift
/// (both reserves below `2^74`) or `balance_in <= balance_out`.
pub proof fn law_spot_price_within_band(balance_in: int, weight_in: int, balance_out: int, weight_out: int)
    requires
        1 <= balance_in <= u128::MAX,
        1 <= balance_out <= u128::MAX,
        (balance_in < 0x400_0000_0000_0000_0000 && balance_out < 0x400_0000_0000_0000_0000)
            || balance_in <= balance_out,
        spot_price_envelope(balance_in, weight_in, balance_out, weight_out),
    ensures
        ({
            let sp = spot_price_value(balance_in, weight_in, balance_out, weight_out);
            (sp - spot_band(sp, weight_in, weight_out)) * (balance_out * weight_in)
                < balance_in * weight_out * unit()
        }),
{
    let bi = balance_in;
    let bo = balance_out;
    let wi = weight_in;
    let wo = weight_out;
    let u = unit();
    lemma_pow2_values();
    let x = lemma_ratio_up_overshoot(bi, bo);
    law_ratio_up_never_understates(bi, bo);
    lemma_exponents(wi, wo);
    let r = ratio_up_value(bi, bo);
    let a = exponent_up(wi, wo);
    let sp = spot_price_value(bi, wi, bo, wo);
    assert(sp == ceil_div(r * a, u));
    lemma_ceil_bounds(wo * u, wi);
    lemma_ceil_bounds(r * a, u);
    assert(a >= 1);
    // the estimate of the reserve ratio recovered from the price
    let r_est = sp * u / a + 1;
    lemma_floor_bounds(sp * u, a);
    assert(r_est * a > sp * u);
    assert(r_est > r) by (nonlinear_arith)
        requires r_est * a > sp * u, sp * u >= r * a, a >= 1;
    lemma_floor_bounds(a, u);
    lemma_floor_bounds(r_est, u);
    let band = spot_band(sp, wi, wo);
    assert(band == 2 * (a / u) + r_est / u + 4);
    assert(band * u > 2 * a + r + 1 + u) by (nonlinear_arith)
        requires
            band == 2 * (a / u) + r_est / u + 4,
            a < (a / u + 1) * u,
            r_est < (r_est / u + 1) * u,
            r_est >= r + 1,
            u > 0,
    ;
    // sp · u < r · a + u, so (sp - band) · u < r · a - 2a - r - 1
    let g = sp - band;
    assert(g * u < r * a - 2 * a - r - 1) by (nonlinear_arith)
        requires
            (sp - 1) * u < r * a,
            band * u > 2 * a + r + 1 + u,
            g == sp - band,
    ;
    assert(a * wi < wo * u + wi) by (nonlinear_arith)
        requires (a - 1) * wi < wo * u;
    assert(r >= 1) by (nonlinear_arith)
        requires r * bo >= bi * u, bi >= 1, bo >= 1, u > 0;
    let m = bo * wi;
    assert(m >= 1) by (nonlinear_arith) requires m == bo * wi, bo >= 1, wi >= 1;
    assert(g * u * m < (r * a - 2 * a - r - 1) * m) by (nonlinear_arith)
        requires g * u < r * a - 2 * a - r - 1, m >= 1;
    let y = bo + x;
    assert((r * a - 2 * a - r - 1) * m <= bi * wo * u * u) by (nonlinear_arith)
        requires
            m == bo * wi,
            r * bo < bi * u + y,
            y == bo + x,
            2 * x <= bo,
            x >= 0,
            a * wi < wo * u + wi,
            r * bo >= bi * u,
            a * wi >= wo * u,
            r >= 1,
            a >= 1,
            bo >= 1,
            wi >= 1,
            bi >= 1,
            wo >= 1,
            u > 0,
    {
        assert((r * bo) * (a * wi) <= (bi * u + y) * (wo * u + wi));
        assert(a * m >= bo * wo * u);
        assert(r * m >= bi * u * wi);
        assert(x * (wo * u + wi) <= x * wi * (a + 1));
        assert(x * wi * (a + 1) <= x * wi * 2 * a);
        assert(x * wi * 2 * a <= a * m);
    }
    assert(g * m < bi * wo * u) by (nonlinear_arith)
        requires g * u * m < bi * wo * u * u, u > 0;
}

/// Rounded-up quotients are ordered as the fractions they round:
/// `a / d1 <= b / d2` implies `ceil(a / d1) <= ceil(b / d2)`.
proof fn lemma_ceil_div_cross_mono(a: int, d1: int, b: int, d2: int)
    requires
        d1 > 0,
        d2 > 0,
        a * d2 <= b * d1,
    ensures
        ceil_div(a, d1) <= ceil_div(b, d2),
{
    lemma_ceil_bounds(a, d1);
    lemma_ceil_bounds(b, d2);
    let c1 = ceil_div(a, d1);
    let c2 = ceil_div(b, d2);
    assert(c2 * d2 * d1 >= b * d1) by (nonlinear_arith)
        requires c2 * d2 >= b, d1 > 0;
    assert(c2 * d1 >= a) by (nonlinear_arith)
        requires c2 * d2 * d1 >= b * d1, a * d2 <= b * d1, d2 > 0;
    assert(c1 <= c2) by (nonlinear_arith)
        requires (c1 - 1) * d1 < a, a <= c2 * d1, d1 > 0;
}

/// The rounded-up reserve ratio grows with its numerator, across pre-shift
/// boundaries too: a wider pre-shift halves the truncated denominator at
/// least as fast as the numerator.
pub proof fn lemma_ratio_up_monotone_in_num(num1: int, num2: int, den: int)
    requires
        0 <= num1 <= num2 <= u128::MAX,
        1 <= den <= u128::MAX,
        ratio_up_defined(num1, den),
        ratio_up_defined(num2, den),
    ensures
        ratio_up_value(num1, den) <= ratio_up_value(num2, den),
{
    let w1 = if num1 > den { num1 } else { den };
    let w2 = if num2 > den { num2 } else { den };
    lemma_bit_len_mono(w1, w2);
    let e1 = ratio_excess(w1);
    let e2 = ratio_excess(w2);
    let (n1, d1) = ratio_up_operands(num1, den);
    let (n2, d2) = ratio_up_operands(num2, den);
    let u = unit();
    lemma_pow2_pos(e1);
    lemma_pow2_pos(e2);
    if e2 == 0 {
        assert(n1 * u * d2 <= n2 * u * d1) by (nonlinear_arith)
            requires n1 <= n2, d1 == d2, d1 > 0, u > 0;
    } else if e1 == 0 {
        let p2 = pow2(e2) as int;
        lemma_floor_bounds(num2, p2);
        lemma_floor_bounds(den, p2);
        assert(n2 * p2 > num2) by (nonlinear_arith)
            requires n2 == num2 / p2 + 1, num2 < (num2 / p2 + 1) * p2;
        assert(n1 * u * d2 <= n2 * u * d1) by (nonlinear_arith)
            requires
                n1 == num1,
                d1 == den,
                n2 * p2 > num2,
                num1 <= num2,
                d2 * p2 <= den,
                d2 >= 0,
                u > 0,
                n2 >= 0,
        ;
    } else {
        let j = (e2 - e1) as nat;
        let p1 = pow2(e1) as int;
        let pj = pow2(j) as int;
        let p2 = pow2(e2) as int;
        lemma_pow2_adds(e1, j);
        lemma_pow2_pos(j);
        assert(p2 == p1 * pj);
        // d2 = floor(d1 / 2^j) and n2 - 1 >= floor((n1 - 1) / 2^j)
        vstd::arithmetic::div_mod::lemma_div_denominator(den, p1, pj);
        vstd::arithmetic::div_mod::lemma_div_denominator(num1, p1, pj);
        lemma_div_is_ordered(num1, num2, p2);
        lemma_div_pos_is_pos(num1, p1);
        lemma_div_pos_is_pos(den, p1);
        lemma_floor_bounds(d1, pj);
        lemma_floor_bounds(n1 - 1, pj);
        assert(n2 * pj >= n1) by (nonlinear_arith)
            requires
                n2 - 1 >= (n1 - 1) / pj,
                n1 - 1 < ((n1 - 1) / pj + 1) * pj,
                pj > 0,
        ;
        assert(n2 >= 1) by {
            lemma_div_pos_is_pos(num2, p2);
        }
        assert(n1 * d2 <= n2 * pj * d2) by (nonlinear_arith)
            requires n2 * pj >= n1, d2 >= 0;
        assert(n2 * pj * d2 <= n2 * d1) by (nonlinear_arith)
            requires d2 * pj <= d1, n2 >= 0;
        assert(n1 * u * d2 <= n2 * u * d1) by (nonlinear_arith)
            requires n1 * d2 <= n2 * d1, u > 0;
    }
    lemma_ceil_div_cross_mono(n1 * u, d1, n2 * u, d2);
}

/// The spot price is weakly increasing in `balance_in`, wherever it is
/// defined and both prices are formed the same way (both through the
/// pre-shifted reserve ratio, or both exactly).
pub proof fn law_spot_price_monotone_in_balance_in(
    balance_in: int,
    more_in: int,
    weight_in: int,
    balance_out: int,
    weight_out: int,
)
    requires
        balance_in <= more_in <= u128::MAX,
        balance_out <= u128::MAX,
        spot_price_envelope(balance_in, weight_in, balance_out, weight_out),
        spot_price_envelope(more_in, weight_in, balance_out, weight_out),
        ratio_up_defined(balance_in, balance_out) == ratio_up_defined(more_in, balance_out),
    ensures
        spot_price_value(balance_in, weight_in, balance_out, weight_out)
            <= spot_price_value(more_in, weight_in, balance_out, weight_out),
{
    lemma_exponents(weight_in, weight_out);
    if !ratio_up_defined(balance_in, balance_out) {
        let w = exponent_up(weight_in, weight_out);
        assert(balance_in * w * balance_out <= more_in * w * balance_out) by (nonlinear_arith)
            requires balance_in <= more_in, w >= 0, balance_out >= 1;
        lemma_ceil_div_cross_mono(balance_in * w, balance_out, more_in * w, balance_out);
        return;
    }
    lemma_ratio_up_monotone_in_num(balance_in, more_in, balance_out);
    let r1 = ratio_up_value(balance_in, balance_out);
    let r2 = ratio_up_value(more_in, balance_out);
    let w = exponent_up(weight_in, weight_out);
    lemma_exponents(weight_in, weight_out);
    assert(r1 * w * unit() <= r2 * w * unit()) by (nonlinear_arith)
        requires r1 <= r2, w >= 0, unit() > 0;
    lemma_ceil_div_cross_mono(r1 * w, unit(), r2 * w, unit());
}

/// When the deposit at least doubles the input reserve, the rounded-up
/// base stays within two ulps of one half.
proof fn lemma_base_at_most_half(balance_in: int, total: int)
    requires
        1 <= balance_in,
        2 * balance_in <= total <= u128::MAX,
    ensures
        ratio_up_value(balance_in, total) <= unit() / 2 + 2,
{
    let u = unit();
    let h = u / 2 + 2;
    assert(h == 0x8_0000_0000_0002);
    let e = ratio_excess(total);
    let (n, d) = ratio_up_operands(balance_in, total);
    lemma_excess(total);
    lemma_ratio_up_defined(balance_in, total);
    if e == 0 {
        vstd::arithmetic::power2::lemma2_to64();
        assert(n == balance_in && d == total);
        assert(h == 0x8_0000_0000_0002);
        assert(n * u == (2 * n) * 0x8_0000_0000_0000);
        assert((2 * n) * 0x8_0000_0000_0000 <= d * 0x8_0000_0000_0000);
        assert(n * u * 1 <= h * d);
    } else {
        let p = pow2(e) as int;
        lemma_pow2_pos(e);
        lemma_pow2_adds(e, 73);
        lemma_pow2_values();
        lemma_floor_bounds(balance_in, p);
        lemma_floor_bounds(total, p);
        assert(n * p <= balance_in + p) by (nonlinear_arith)
            requires n == balance_in / p + 1, (balance_in / p) * p <= balance_in;
        assert(d * p > total - p) by (nonlinear_arith)
            requires d == total / p, total < (total / p + 1) * p;
        assert(p * 0x200_0000_0000_0000_0000 <= total);
        assert(n * u * p <= h * d * p) by (nonlinear_arith)
            requires
                n * p <= balance_in + p,
                d * p > total - p,
                2 * balance_in <= total,
                p * 0x200_0000_0000_0000_0000 <= total,
                p > 0,
                u == 0x10_0000_0000_0000,
                h == 0x8_0000_0000_0002,
        ;
        assert(n * u * 1 <= h * d) by (nonlinear_arith)
            requires n * u * p <= h * d * p, p > 0;
    }
    lemma_ceil_div_cross_mono(n * u, d, h, 1);
    assert(ceil_div(h, 1) == h);
}

/// When the deposit at least doubles the input reserve, the payout is at
/// least a 256th of the output reserve, at every weight ratio of the
/// envelope.
pub proof fn law_payout_floor_when_deposit_doubles(
    balance_in: int,
    weight_in: int,
    balance_out: int,
    weight_out: int,
    amount_in: int,
)
    requires
        out_given_in_envelope(balance_in, weight_in, balance_out, weight_out, amount_in),
        amount_in >= balance_in,
    ensures
        out_given_in_value(balance_in, weight_in, balance_out, weight_out, amount_in) >= balance_out / 256,
{
    let total = balance_in + amount_in;
    lemma_base_at_most_half(balance_in, total);
    lemma_ratio_up_defined(balance_in, total);
    law_ratio_up_never_understates(balance_in, total);
    let base = ratio_up_value(balance_in, total);
    let u = unit();
    assert(base >= 1) by (nonlinear_arith)
        requires base * total >= balance_in * u, balance_in >= 1, total >= 1, base >= 0, u > 0;
    lemma_exponents(weight_in, weight_out);
    let e = exponent_down(weight_in, weight_out);
    lemma_floor_bounds(weight_in * u, weight_out);
    assert(e >= min_exponent()) by (nonlinear_arith)
        requires
            weight_in * u < (e + 1) * weight_out,
            weight_out <= 99 * weight_in,
            weight_out >= 1,
            u == 0x10_0000_0000_0000,
            min_exponent() == 45_490_905_326_974,
    ;
    lemma_pow62_ceiling_half(base, e);
    let o = one_minus_pow_62_value(base, e);
    assert(o >= 0x40_0000_0000_0000);
    assert(balance_out * o >= balance_out * 0x40_0000_0000_0000) by (nonlinear_arith)
        requires o >= 0x40_0000_0000_0000, balance_out >= 0;
    lemma_div_is_ordered(balance_out * 0x40_0000_0000_0000, balance_out * o, one_62());
    assert(balance_out * 0x40_0000_0000_0000 / one_62() == balance_out / 256) by {
        vstd::arithmetic::div_mod::lemma_div_denominator(balance_out * 0x40_0000_0000_0000, 0x40_0000_0000_0000, 256);
        vstd::arithmetic::div_mod::lemma_div_multiples_vanish(balance_out, 0x40_0000_0000_0000);
        vstd::arithmetic::mul::lemma_mul_is_commutative(balance_out, 0x40_0000_0000_0000);
    }
}

/// A trade of nothing pays nothing: the rounded-up base is then one.
pub proof fn law_zero_trade_pays_nothing(balance_in: int, weight_in: int, balance_out: int, weight_out: int)
    requires
        out_given_in_envelope(balance_in, weight_in, balance_out, weight_out, 0),
    ensures
        out_given_in_value(balance_in, weight_in, balance_out, weight_out, 0) == 0,
        in_given_out_value(balance_in, weight_in, balance_out, weight_out, 0) == 0,
{
    lemma_ratio_up_defined(balance_in, balance_in);
    law_ratio_up_never_understates(balance_in, balance_in);
    let q = ratio_up_value(balance_in, balance_in);
    assert(q >= unit()) by (nonlinear_arith)
        requires q * balance_in >= balance_in * unit(), balance_in >= 1;
}

/// The payout is linear in the reserve it is paid from: doubling
/// `balance_out` doubles the payout up to one floor unit.
pub proof fn law_payout_linear_in_balance_out(
    balance_in: int,
    weight_in: int,
    balance_out: int,
    weight_out: int,
    amount_in: int,
)
    requires
        out_given_in_envelope(balance_in, weight_in, balance_out, weight_out, amount_in),
        2 * balance_out <= u128::MAX,
    ensures
        ({
            let once = out_given_in_value(balance_in, weight_in, balance_out, weight_out, amount_in);
            let twice = out_given_in_value(balance_in, weight_in, 2 * balance_out, weight_out, amount_in);
            twice == 2 * once || twice == 2 * once + 1
        }),
{
    let base = ratio_up_value(balance_in, balance_in + amount_in);
    if base < unit() {
        let o = one_minus_pow_62_value(base, exponent_down(weight_in, weight_out));
        let x = balance_out * o;
        lemma_floor_bounds(x, one_62());
        lemma_floor_bounds(2 * x, one_62());
        let f = x / one_62();
        let g = (2 * x) / one_62();
        assert(2 * balance_out * o == 2 * x) by (nonlinear_arith)
            requires x == balance_out * o;
        assert(g == 2 * f || g == 2 * f + 1) by (nonlinear_arith)
            requires
                f * one_62() <= x,
                x < (f + 1) * one_62(),
                g * one_62() <= 2 * x,
                2 * x < (g + 1) * one_62(),
                one_62() > 0,
        ;
    }
}

/// The payment is linear in the reserve it is priced against: doubling
/// `balance_in` doubles the payment, less at most one ceiling unit.
pub proof fn law_payment_linear_in_balance_in(
    balance_in: int,
    weight_in: int,
    balance_out: int,
    weight_out: int,
    amount_out: int,
)
    requires
        in_given_out_envelope(balance_in, weight_in, balance_out, weight_out, amount_out),
        2 * balance_in <= u128::MAX,
    ensures
        ({
            let once = in_given_out_value(balance_in, weight_in, balance_out, weight_out, amount_out);
            let twice = in_given_out_value(2 * balance_in, weight_in, balance_out, weight_out, amount_out);
            twice == 2 * once || twice + 1 == 2 * once
        }),
{
    if amount_out != 0 {
        let r = in_ratio_62(in_power_62(balance_out, weight_in, weight_out, amount_out));
        let x = balance_in * r;
        lemma_ceil_bounds(x, one_62());
        lemma_ceil_bounds(2 * x, one_62());
        let f = ceil_div(x, one_62());
        let g = ceil_div(2 * x, one_62());
        assert(2 * balance_in * r == 2 * x) by (nonlinear_arith)
            requires x == balance_in * r;
        assert(g == 2 * f || g + 1 == 2 * f) by (nonlinear_arith)
            requires
                f * one_62() >= x,
                (f - 1) * one_62() < x,
                g * one_62() >= 2 * x,
                (g - 1) * one_62() < 2 * x,
                one_62() > 0,
        ;
    }
}

} // verus!
