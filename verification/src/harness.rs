//! Grading support for the kernel: the fixture schema, the quantizer that
//! turns fixture strings into integers at `SCALE`, the signed one-sided
//! band grader, the exact curve-invariant referee, and double-width
//! helpers for exact rounding checks.
//!
//! The grader is parametric over `(SCALE, BUDGET)`: `SCALE` comes from the
//! kernel and [`BUDGET_ULPS`] is the algorithmic allowance on top of the
//! one-ulp representation floor.

use vstd::prelude::*;
use vstd::arithmetic::power::pow;
use vstd::arithmetic::power2::{pow2, lemma_pow2_pos, lemma_pow2_adds};
use crate::arith::{two_128, lemma_pow2_values, lemma_u128_shr_is_div, lemma_u128_shl_is_mul, lemma_u128_low_mask};
use crate::fixed::{Fixed, SCALE};
use crate::wide::{self, wide_value};
use num_bigint::BigUint;

verus! {

/// Algorithmic error allowance, in ulps at `SCALE`, on top of the one-ulp
/// quantization floor.
pub const BUDGET_ULPS: u128 = 3;

/// The pass/fail line for the pow gate: representation floor + budget.
pub fn bound_ulps() -> (r: u128)
    ensures
        r == 1 + BUDGET_ULPS,
{
    1 + BUDGET_ULPS
}

/// Fixture inputs are dyadic multiples of `2^-S40_BITS`, so any
/// `SCALE >= S40_BITS` represents them exactly.
pub const S40_BITS: u32 = 40;

// ---------------------------------------------------------------------------
// Fixture schema
// ---------------------------------------------------------------------------

/// A `pow` fixture case.
#[derive(Debug, Clone)]
pub struct PowCase {
    pub zone: String,
    pub base: String,
    pub base_s40: String,
    pub exponent: String,
    pub exponent_s40: String,
    pub pow_exact: String,
    pub pow_exact_q128: String,
}

/// An `ln` fixture case.
#[derive(Debug, Clone)]
pub struct LnCase {
    pub x: String,
    pub x_s40: String,
    pub neg_ln_exact: String,
    pub neg_ln_q116: String,
}

/// An `exp` / `expm1` fixture case.
#[derive(Debug, Clone)]
pub struct ExpCase {
    pub neg_x: String,
    pub neg_x_s40: String,
    pub exp_exact: String,
    pub exp_q128: String,
    pub neg_expm1_exact: String,
    pub neg_expm1_q128: String,
}

/// The `ln`/`exp` fixture file.
#[derive(Debug, Clone)]
pub struct LnExpFixture {
    pub ln: Vec<LnCase>,
    pub exp: Vec<ExpCase>,
}

/// An exact-in swap fixture case.
#[derive(Debug, Clone)]
pub struct OutGivenInCase {
    pub zone: String,
    pub balance_in: String,
    pub amount_in: String,
    pub balance_out: String,
    pub weight_in: String,
    pub weight_out: String,
    pub base: String,
    pub exponent: String,
    pub power_exact: String,
    pub power_exact_q128: String,
    pub one_minus_power_exact: String,
    pub tokens_out_floor: String,
    pub sens_base_wei: String,
    pub sens_exp_wei: String,
}

/// An exact-out swap fixture case.
#[derive(Debug, Clone)]
pub struct InGivenOutCase {
    pub zone: String,
    pub balance_in: String,
    pub amount_out: String,
    pub balance_out: String,
    pub weight_in: String,
    pub weight_out: String,
    pub base: String,
    pub exponent: String,
    pub power_exact: String,
    pub power_exact_q128: String,
    pub amount_in_ceil: String,
    pub sens_base_wei: String,
    pub sens_exp_wei: String,
    pub sens_pow_wei: String,
}

/// A fixed-point arithmetic fixture case.
#[derive(Debug, Clone)]
pub struct ArithCase {
    pub a: String,
    pub a_s40: String,
    pub b: String,
    pub b_s40: String,
}

/// A scale-sweep fixture entry.
#[derive(Debug, Clone)]
pub struct ScaleCase {
    pub scale: u32,
    pub one: String,
    pub ulp_decimal: String,
    pub ulp_q128: String,
}

/// A captured reference-implementation input.
#[derive(Debug, Clone)]
pub struct BalancerInput {
    pub x18: String,
    pub y18: String,
    pub skip: bool,
    pub expected18_floor: Option<String>,
}

// ---------------------------------------------------------------------------
// Quantizer: fixture strings -> integers at SCALE
// ---------------------------------------------------------------------------

/// The value of a string of decimal digits.
pub open spec fn digits_value(s: Seq<char>) -> int
    decreases s.len(),
{
    if s.len() == 0 {
        0
    } else {
        digits_value(s.drop_last()) * 10 + (s.last() as int - '0' as int)
    }
}

/// A nonempty string of ASCII decimal digits.
pub open spec fn is_digits(s: Seq<char>) -> bool {
    s.len() > 0 && forall|i: int| 0 <= i < s.len() ==> '0' <= #[trigger] s[i] <= '9'
}

/// What std's `u128::from_str` accepts: an optional `+` followed by at
/// least one decimal digit, with a value that fits.
pub open spec fn parsed_u128(s: Seq<char>) -> Option<u128> {
    let d = if s.len() > 0 && s[0] == '+' { s.drop_first() } else { s };
    if is_digits(d) && digits_value(d) <= u128::MAX {
        Some(digits_value(d) as u128)
    } else {
        None
    }
}

/// The ASCII digit of `d` in `0..=9`.
pub open spec fn digit_char(d: int) -> char {
    (d + '0' as int) as char
}

/// The shortest decimal text of `n`: its digits, most significant first,
/// without sign or leading zeros.
pub open spec fn decimal_text(n: nat) -> Seq<char>
    decreases n,
{
    if n < 10 {
        seq![digit_char(n as int)]
    } else {
        decimal_text(n / 10).push(digit_char((n % 10) as int))
    }
}

/// The decimal text of a number is a digit string of that value.
proof fn lemma_decimal_text(n: nat)
    ensures
        is_digits(decimal_text(n)),
        digits_value(decimal_text(n)) == n,
        decimal_text(n)[0] != '+',
    decreases n,
{
    if n < 10 {
        let t = decimal_text(n);
        assert(t.drop_last() =~= Seq::<char>::empty());
        assert(digits_value(t.drop_last()) == 0);
    } else {
        lemma_decimal_text(n / 10);
        let h = decimal_text(n / 10);
        let t = decimal_text(n);
        assert(t.drop_last() =~= h);
        assert(t.last() == digit_char((n % 10) as int));
        assert forall|i: int| 0 <= i < t.len() implies '0' <= #[trigger] t[i] <= '9' by {
            if i < h.len() {
                assert(t[i] == h[i]);
            }
        }
        assert(t[0] == h[0]);
    }
}

/// Parsing the decimal text of any `u128` gives the number back: the
/// parser accepts every value that `to_string` writes, and only as itself.
pub proof fn law_decimal_text_parses_back(n: u128)
    ensures
        parsed_u128(decimal_text(n as nat)) == Some(n),
{
    lemma_decimal_text(n as nat);
}

/// What std's `i128::from_str` accepts: an optional `+` or `-` followed by
/// at least one decimal digit, with a value that fits.
pub open spec fn parsed_i128(s: Seq<char>) -> Option<i128> {
    let signed = s.len() > 0 && (s[0] == '+' || s[0] == '-');
    let d = if signed { s.drop_first() } else { s };
    let v = if s.len() > 0 && s[0] == '-' { -digits_value(d) } else { digits_value(d) };
    if is_digits(d) && i128::MIN <= v <= i128::MAX {
        Some(v as i128)
    } else {
        None
    }
}

/// `str::parse::<u128>` from std: `Some` of the value of an optional `+`
/// followed by decimal digits when it fits `u128`, `None` otherwise.
#[verifier::external_body]
fn std_parse_u128(s: &str) -> (r: Option<u128>)
    ensures
        r == parsed_u128(s@),
{
    s.parse().ok()
}

/// `str::parse::<i128>` from std: `Some` of the value of an optional sign
/// followed by decimal digits when it fits `i128`, `None` otherwise.
#[verifier::external_body]
fn std_parse_i128(s: &str) -> (r: Option<i128>)
    ensures
        r == parsed_i128(s@),
{
    s.parse().ok()
}

/// Parses a decimal `u128`; the string must hold one.
pub fn parse_u128(s: &str) -> (r: u128)
    requires
        parsed_u128(s@) is Some,
    ensures
        parsed_u128(s@) == Some(r),
{
    std_parse_u128(s).unwrap()
}

/// Parses a decimal integer, or `None` if it is not one or exceeds `u128`.
pub fn parse_u128_checked(s: &str) -> (r: Option<u128>)
    ensures
        r == parsed_u128(s@),
{
    std_parse_u128(s)
}

/// Parses a decimal `i128`; the string must hold one.
fn parse_i128(s: &str) -> (r: i128)
    requires
        parsed_i128(s@) is Some,
    ensures
        parsed_i128(s@) == Some(r),
{
    std_parse_i128(s).unwrap()
}

/// The `Fixed` of a `value · 2^S40_BITS` fixture field: the raw value
/// shifted up by `SCALE - S40_BITS` bits (wrapping like a Rust shift).
pub fn s40_to_fixed(s40: &str) -> (r: Fixed)
    requires
        parsed_i128(s40@) is Some,
    ensures
        r.0 == (parsed_i128(s40@).unwrap() * 0x1000) as i128,
{
    let raw = parse_i128(s40);
    proof {
        assert(raw << 12u32 == (raw * 0x1000) as i128) by (bit_vector);
    }
    Fixed(raw << (SCALE - S40_BITS))
}

/// Whether the division of `q` by `2^shift` leaves a remainder (counting
/// `shift == 0` as inexact, so that the ceiling is always above the floor
/// then).
pub open spec fn q_inexact(q: int, shift: nat) -> bool {
    shift == 0 || q % (pow2(shift) as int) != 0
}

/// The reference value's floor and ceiling on the `2^-SCALE` grid, from a
/// `floor(value · 2^qbits)` fixture field.
pub fn q_to_scale_bounds(q: &str, qbits: u32) -> (r: (i128, i128))
    requires
        SCALE <= qbits < SCALE + 128,
        parsed_u128(q@) is Some,
        ({
            let v = parsed_u128(q@).unwrap() as int / (pow2((qbits - SCALE) as nat) as int);
            q_inexact(parsed_u128(q@).unwrap() as int, (qbits - SCALE) as nat) ==> (v as i128) < i128::MAX
        }),
    ensures
        ({
            let qv = parsed_u128(q@).unwrap() as int;
            let shift = (qbits - SCALE) as nat;
            &&& r.0 == (qv / (pow2(shift) as int)) as i128
            &&& r.1 == r.0 + (if q_inexact(qv, shift) { 1int } else { 0int })
        }),
{
    let q = parse_u128(q);
    let shift = qbits - SCALE;
    proof {
        lemma_u128_shr_is_div(q, shift);
        lemma_u128_low_mask(q, shift);
        lemma_pow2_pos(shift as nat);
    }
    let floor = (q >> shift) as i128;
    let inexact = q & ((1u128 << shift) - 1) != 0 || shift == 0;
    let ceil = floor + if inexact { 1 } else { 0 };
    (floor, ceil)
}

// ---------------------------------------------------------------------------
// Band grading: signed, one-sided
// ---------------------------------------------------------------------------

/// Which side of the truth a result must stay on.
#[derive(Debug, Clone, Copy, PartialEq, Eq, Structural)]
pub enum Direction {
    /// Result must never understate the truth (`_up` wrappers).
    Up,
    /// Result must never overstate the truth (`_down` wrappers, payouts).
    Down,
}

/// Outcome of a band check. `WrongSide` is the fund-leak category and fails
/// regardless of magnitude; `TooFar` is a precision shortfall.
#[derive(Debug, Clone, Copy, PartialEq, Eq, Structural)]
pub enum Band {
    InBand { err_ulps: u128 },
    WrongSide { by_ulps: u128 },
    TooFar { err_ulps: u128, bound_ulps: u128 },
}

impl Band {
    /// Whether the check passed.
    pub fn is_ok(self) -> (r: bool)
        ensures
            r == (self is InBand),
    {
        matches!(self, Band::InBand { .. })
    }
}

/// Signed error of `actual` against the truth's grid bounds: positive on
/// the allowed side.
pub open spec fn directional_error(t_floor: int, t_ceil: int, actual: int, direction: Direction) -> int {
    match direction {
        Direction::Down => t_floor - actual,
        Direction::Up => actual - t_ceil,
    }
}

/// The band verdict for a signed error against a bound.
pub open spec fn directional_band(signed_err: int, bound_ulps: int) -> Band {
    if signed_err < 0 {
        Band::WrongSide { by_ulps: (-signed_err) as u128 }
    } else if signed_err > bound_ulps {
        Band::TooFar { err_ulps: signed_err as u128, bound_ulps: bound_ulps as u128 }
    } else {
        Band::InBand { err_ulps: signed_err as u128 }
    }
}

/// Checks `actual` against the truth's grid bounds `(t_floor, t_ceil)`.
///
/// `Down`: the largest grid value not exceeding the truth is `t_floor`, so
/// direction holds iff `actual <= t_floor`, and the error is measured from
/// `t_floor`. `Up` is the mirror image around `t_ceil`.
pub fn check_directional(
    t_floor: i128,
    t_ceil: i128,
    actual: i128,
    direction: Direction,
    bound_ulps: u128,
) -> (r: Band)
    requires
        i128::MIN <= directional_error(t_floor as int, t_ceil as int, actual as int, direction) <= i128::MAX,
    ensures
        r == directional_band(
            directional_error(t_floor as int, t_ceil as int, actual as int, direction),
            bound_ulps as int,
        ),
{
    let signed_err = match direction {
        Direction::Down => t_floor - actual,
        Direction::Up => actual - t_ceil,
    };
    if signed_err < 0 {
        Band::WrongSide { by_ulps: (-(signed_err + 1)) as u128 + 1 }
    } else if signed_err as u128 > bound_ulps {
        Band::TooFar { err_ulps: signed_err as u128, bound_ulps }
    } else {
        Band::InBand { err_ulps: signed_err as u128 }
    }
}

/// Distance of `actual` outside the truth's grid bounds, zero inside.
pub open spec fn two_sided_error(t_floor: int, t_ceil: int, actual: int) -> int {
    if actual < t_floor {
        t_floor - actual
    } else if actual > t_ceil {
        actual - t_ceil
    } else {
        0
    }
}

/// Two-sided diagnostic check, for quantities with no pool-favouring
/// direction of their own.
pub fn check_two_sided(t_floor: i128, t_ceil: i128, actual: i128, bound_ulps: u128) -> (r: Band)
    requires
        two_sided_error(t_floor as int, t_ceil as int, actual as int) <= i128::MAX,
    ensures
        ({
            let err = two_sided_error(t_floor as int, t_ceil as int, actual as int);
            r == if err > bound_ulps {
                Band::TooFar { err_ulps: err as u128, bound_ulps }
            } else {
                Band::InBand { err_ulps: err as u128 }
            }
        }),
{
    let err = if actual < t_floor {
        (t_floor - actual) as u128
    } else if actual > t_ceil {
        (actual - t_ceil) as u128
    } else {
        0
    };
    if err > bound_ulps {
        Band::TooFar { err_ulps: err, bound_ulps }
    } else {
        Band::InBand { err_ulps: err }
    }
}

// ---------------------------------------------------------------------------
// Curve-invariant referee
// ---------------------------------------------------------------------------

/// The curve value `b_in^w_in · b_out^w_out` does not decrease across the
/// trade, and the trade does not drain past the reserve.
pub open spec fn curve_preserved(
    balance_in: int,
    weight_in: int,
    balance_out: int,
    weight_out: int,
    amount_in: int,
    amount_out: int,
) -> bool {
    &&& amount_out <= balance_out
    &&& pow(balance_in + amount_in, weight_in as nat) * pow(balance_out - amount_out, weight_out as nat)
        >= pow(balance_in, weight_in as nat) * pow(balance_out, weight_out as nat)
}

/// num-bigint's arbitrary-precision unsigned integer.
#[verifier::external_type_specification]
#[verifier::external_body]
pub struct ExBigUint(num_bigint::BigUint);

/// The base-`2^64` digits of a `BigUint`, least significant first: what
/// its `to_u64_digits` gives.
pub uninterp spec fn biguint_digits(b: BigUint) -> Seq<u64>;

/// The number that base-`2^64` digits spell, least significant first.
pub open spec fn digits64_value(d: Seq<u64>) -> nat
    decreases d.len(),
{
    if d.len() == 0 {
        0
    } else {
        d[0] as nat + 0x1_0000_0000_0000_0000 * digits64_value(d.drop_first())
    }
}

/// The number a `BigUint` holds.
pub open spec fn big_value(b: BigUint) -> nat {
    digits64_value(biguint_digits(b))
}

/// num-bigint's `From<u128> for BigUint`: the same number.
#[verifier::external_body]
fn big_from(v: u128) -> (r: BigUint)
    ensures
        digits64_value(biguint_digits(r)) == v,
{
    BigUint::from(v)
}

/// num-bigint's `Add<u128> for BigUint`: the exact sum.
#[verifier::external_body]
fn big_add(a: BigUint, v: u128) -> (r: BigUint)
    ensures
        digits64_value(biguint_digits(r)) == digits64_value(biguint_digits(a)) + v,
{
    a + v
}

/// num-bigint's `BigUint::pow`: the exact power, one for a zero exponent.
#[verifier::external_body]
fn big_pow(a: &BigUint, e: u32) -> (r: BigUint)
    ensures
        digits64_value(biguint_digits(r)) == pow(digits64_value(biguint_digits(*a)) as int, e as nat),
{
    a.pow(e)
}

/// num-bigint's `Mul<BigUint> for BigUint`: the exact product.
#[verifier::external_body]
fn big_mul(a: BigUint, b: BigUint) -> (r: BigUint)
    ensures
        digits64_value(biguint_digits(r)) == digits64_value(biguint_digits(a)) * digits64_value(biguint_digits(b)),
{
    a * b
}

/// num-bigint's `PartialOrd for BigUint`: numeric order.
#[verifier::external_body]
fn big_ge(a: &BigUint, b: &BigUint) -> (r: bool)
    ensures
        r == (digits64_value(biguint_digits(*a)) >= digits64_value(biguint_digits(*b))),
{
    a >= b
}

/// Does the trade keep the curve value `b_in^w_in · b_out^w_out` from
/// decreasing? An exact big-integer comparison with no rounding of its own:
/// a `false` is a real fund leak. Weights must be integers in `1..=99` so
/// that they can be exponents.
pub fn invariant_preserved(
    balance_in: u128,
    weight_in: u128,
    balance_out: u128,
    weight_out: u128,
    amount_in: u128,
    amount_out: u128,
) -> (r: bool)
    requires
        1 <= weight_in <= 99,
        1 <= weight_out <= 99,
    ensures
        r == curve_preserved(
            balance_in as int,
            weight_in as int,
            balance_out as int,
            weight_out as int,
            amount_in as int,
            amount_out as int,
        ),
{
    if amount_out > balance_out {
        return false;
    }
    let w_in = weight_in as u32;
    let w_out = weight_out as u32;
    let before = big_mul(big_pow(&big_from(balance_in), w_in), big_pow(&big_from(balance_out), w_out));
    let after = big_mul(
        big_pow(&big_add(big_from(balance_in), amount_in), w_in),
        big_pow(&big_from(balance_out - amount_out), w_out),
    );
    big_ge(&after, &before)
}

// ---------------------------------------------------------------------------
// Double-width helpers for the exact arithmetic-wrapper checks
// ---------------------------------------------------------------------------

/// Full 128x128 -> 256-bit product, as `(hi, lo)`.
pub fn mul_wide(a: u128, b: u128) -> (r: (u128, u128))
    ensures
        wide_value(r) == a * b,
{
    wide::mul_wide(a, b)
}

/// `(value as u256) << shift`, as `(hi, lo)`, for `shift < 128`.
pub fn shl_wide(value: u128, shift: u32) -> (r: (u128, u128))
    requires
        shift < 128,
    ensures
        wide_value(r) == value * pow2(shift as nat),
{
    if shift == 0 {
        proof {
            vstd::arithmetic::power2::lemma2_to64();
            assert(value * pow2(0) == value);
            lemma_pow2_values();
            assert(wide_value((0u128, value)) == value);
        }
        (0, value)
    } else {
        proof {
            let rest = (128 - shift) as u32;
            lemma_u128_low_mask(value, rest);
            lemma_u128_shr_is_div(value, rest);
            let m = value & (((1u128 << rest) - 1) as u128);
            assert(value << shift == m << shift) by (bit_vector)
                requires
                    0 < shift < 128,
                    rest == 128 - shift,
                    m == value & (((1u128 << rest) - 1) as u128),
            ;
            lemma_pow2_pos(rest as nat);
            lemma_pow2_pos(shift as nat);
            lemma_pow2_values();
            lemma_pow2_adds(rest as nat, shift as nat);
            vstd::arithmetic::div_mod::lemma_mod_bound(value as int, pow2(rest as nat) as int);
            assert(m * pow2(shift as nat) < two_128()) by (nonlinear_arith)
                requires
                    m < pow2(rest as nat),
                    pow2(rest as nat) * pow2(shift as nat) == two_128(),
                    pow2(shift as nat) > 0,
            ;
            lemma_u128_shl_is_mul(m, shift);
            vstd::arithmetic::div_mod::lemma_fundamental_div_mod(value as int, pow2(rest as nat) as int);
            let h = value as int / (pow2(rest as nat) as int);
            assert(value * pow2(shift as nat) == h * two_128() + m * pow2(shift as nat)) by (nonlinear_arith)
                requires
                    value == pow2(rest as nat) * h + m,
                    pow2(rest as nat) * pow2(shift as nat) == two_128(),
            ;
            assert(value >> rest == h);
            assert(value << shift == m * pow2(shift as nat));
            assert(wide_value((value >> rest, value << shift)) == value * pow2(shift as nat));
        }
        (value >> (128 - shift), value << shift)
    }
}

/// `a <= b` for 256-bit `(hi, lo)` pairs.
pub fn wide_le(a: (u128, u128), b: (u128, u128)) -> (r: bool)
    ensures
        r == (wide_value(a) <= wide_value(b)),
{
    a.0 < b.0 || (a.0 == b.0 && a.1 <= b.1)
}

/// `a < b` for 256-bit `(hi, lo)` pairs.
pub fn wide_lt(a: (u128, u128), b: (u128, u128)) -> (r: bool)
    ensures
        r == (wide_value(a) < wide_value(b)),
{
    a.0 < b.0 || (a.0 == b.0 && a.1 < b.1)
}

} // verus!
