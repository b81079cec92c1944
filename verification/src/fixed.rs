//! Fixed-point scalar type.
//!
//! Binary Q-format: a value `x` represents `x / 2^SCALE`. Multiplying or
//! dividing by `ONE` is a shift, so the `mul_*` wrappers cost no division
//! and the `div_*` wrappers one each. The wrappers are defined on
//! nonnegative operands; balances stay raw `u128`.

use vstd::prelude::*;
use vstd::arithmetic::power2::pow2;
use crate::arith::{ceil_div, lemma_pow2_values, lemma_floor_bounds, lemma_ceil_bounds, lemma_ceil_is_floor_plus_rem};
use crate::wide;

verus! {

/// Binary scale: the fixed-point value `x` represents `x / 2^SCALE`.
pub const SCALE: u32 = 52;

/// Backing integer representation for a fixed-point value.
pub type Repr = i128;

/// A binary fixed-point number scaled by `2^SCALE`.
#[derive(Clone, Copy, Debug, PartialEq, Eq, Structural, PartialOrd, Ord, Hash, Default)]
pub struct Fixed(pub Repr);

/// The representation of the unit value `1.0` at `SCALE`: `Fixed(ONE)`
/// is one.
pub const ONE: Repr = 0x10_0000_0000_0000;

/// `2^SCALE`, the representation of `1.0`.
pub open spec fn unit() -> int {
    0x10_0000_0000_0000
}

/// `floor(a · b / 2^SCALE)`.
pub open spec fn mul_down_value(a: int, b: int) -> int {
    a * b / unit()
}

/// `ceil(a · b / 2^SCALE)`.
pub open spec fn mul_up_value(a: int, b: int) -> int {
    ceil_div(a * b, unit())
}

/// `floor(a · 2^SCALE / b)`.
pub open spec fn div_down_value(a: int, b: int) -> int {
    a * unit() / b
}

/// `ceil(a · 2^SCALE / b)`.
pub open spec fn div_up_value(a: int, b: int) -> int {
    ceil_div(a * unit(), b)
}

/// `max(2^SCALE - a, 0)`.
pub open spec fn complement_value(a: int) -> int {
    if a <= unit() { unit() - a } else { 0 }
}

/// The largest numerator accepted by [`Fixed::div_up`] is below
/// `2^(127 - SCALE)`, so that `a · 2^SCALE` stays below `2^127` and the
/// ceiling bias fits.
pub open spec fn div_numerator_bound() -> int {
    0x800_0000_0000_0000_0000
}

/// The largest numerator accepted by [`Fixed::div_down`] is below
/// `2^(128 - SCALE)`, so that `a · 2^SCALE` fits `u128`.
pub open spec fn div_down_numerator_bound() -> int {
    0x1000_0000_0000_0000_0000
}

proof fn lemma_scale_is_unit()
    ensures
        pow2(SCALE as nat) == unit(),
{
    lemma_pow2_values();
}

impl Fixed {
    /// `floor(self · rhs / 2^SCALE)`. The product is formed at 256 bits.
    pub fn mul_down(self, rhs: Fixed) -> (r: Fixed)
        requires
            self.0 >= 0,
            rhs.0 >= 0,
            mul_down_value(self.0 as int, rhs.0 as int) <= i128::MAX,
        ensures
            r.0 == mul_down_value(self.0 as int, rhs.0 as int),
    {
        proof {
            lemma_scale_is_unit();
        }
        Fixed(checked_repr(wide::mul_shr(nonneg(self), nonneg(rhs), SCALE)))
    }

    /// `ceil(self · rhs / 2^SCALE)`.
    pub fn mul_up(self, rhs: Fixed) -> (r: Fixed)
        requires
            self.0 >= 0,
            rhs.0 >= 0,
            mul_up_value(self.0 as int, rhs.0 as int) <= i128::MAX,
        ensures
            r.0 == mul_up_value(self.0 as int, rhs.0 as int),
    {
        proof {
            lemma_scale_is_unit();
        }
        Fixed(checked_repr(wide::mul_shr_up(nonneg(self), nonneg(rhs), SCALE)))
    }

    /// `floor(self · 2^SCALE / rhs)`: one division. The numerator
    /// `self · 2^SCALE` must fit `u128` (operand below `2^(128 - SCALE)`),
    /// and the quotient must fit the representation.
    pub fn div_down(self, rhs: Fixed) -> (r: Fixed)
        requires
            0 <= self.0 < div_down_numerator_bound(),
            rhs.0 > 0,
            div_down_value(self.0 as int, rhs.0 as int) <= i128::MAX,
        ensures
            r.0 == div_down_value(self.0 as int, rhs.0 as int),
    {
        let a = nonneg(self);
        let d = nonneg(rhs);
        proof {
            assert(a << 52u32 == a * 0x10_0000_0000_0000) by (bit_vector)
                requires
                    a < 0x1000_0000_0000_0000_0000,
            ;
        }
        let n = a << SCALE;
        Fixed(checked_repr(n / d))
    }

    /// `ceil(self · 2^SCALE / rhs)`.
    pub fn div_up(self, rhs: Fixed) -> (r: Fixed)
        requires
            0 <= self.0 < div_numerator_bound(),
            rhs.0 > 0,
        ensures
            r.0 == div_up_value(self.0 as int, rhs.0 as int),
    {
        let d = nonneg(rhs);
        let n = numerator(self, rhs);
        // n < 2^127 and d < 2^127 (both come from Repr), so no overflow.
        let q = (n + d - 1) / d;
        proof {
            lemma_floor_bounds((n + d - 1) as int, d as int);
            assert(q <= n) by (nonlinear_arith)
                requires d >= 1, q >= 0, n >= 0, q * d <= n + d - 1;
        }
        Fixed(checked_repr(q))
    }

    /// `ONE - self`, saturating at zero. Exact integer subtraction.
    pub fn complement(self) -> (r: Fixed)
        requires
            self.0 >= 0,
        ensures
            r.0 == complement_value(self.0 as int),
    {
        let d = ONE - nonneg(self) as i128;
        Fixed(if d > 0 { d } else { 0 })
    }
}

/// The wrappers are defined on nonnegative values.
fn nonneg(x: Fixed) -> (r: u128)
    requires
        x.0 >= 0,
    ensures
        r == x.0,
{
    x.0 as u128
}

/// A wrapper result must fit the representation.
fn checked_repr(v: u128) -> (r: Repr)
    requires
        v <= i128::MAX,
    ensures
        r == v,
{
    v as Repr
}

/// `a · 2^SCALE`, for a nonnegative `a` below `2^(127 - SCALE)` and a
/// positive divisor.
fn numerator(a: Fixed, b: Fixed) -> (r: u128)
    requires
        0 <= a.0 < div_numerator_bound(),
        b.0 > 0,
    ensures
        r == a.0 * unit(),
        r < 0x8000_0000_0000_0000_0000_0000_0000_0000,
{
    let a = nonneg(a);
    assert(a << SCALE == a * 0x10_0000_0000_0000) by (bit_vector)
        requires
            a < 0x800_0000_0000_0000_0000,
    ;
    a << SCALE
}

/// Rounding down never exceeds rounding up, and the two differ by at most
/// one ulp, for products.
pub proof fn law_mul_rounding_brackets(a: int, b: int)
    requires
        a >= 0,
        b >= 0,
    ensures
        mul_down_value(a, b) <= mul_up_value(a, b) <= mul_down_value(a, b) + 1,
{
    lemma_ceil_is_floor_plus_rem(a * b, unit());
}

/// Rounding down never exceeds rounding up, and the two differ by at most
/// one ulp, for quotients.
pub proof fn law_div_rounding_brackets(a: int, b: int)
    requires
        a >= 0,
        b > 0,
    ensures
        div_down_value(a, b) <= div_up_value(a, b) <= div_down_value(a, b) + 1,
{
    lemma_ceil_is_floor_plus_rem(a * unit(), b);
}

/// A division followed by the matching multiplication never manufactures
/// value: `(a / b) · b` rounded down stays at or below `a`, rounded up at
/// or above it.
pub proof fn law_div_mul_round_trip(a: int, b: int)
    requires
        a >= 0,
        b > 0,
    ensures
        mul_down_value(div_down_value(a, b), b) <= a,
        mul_up_value(div_up_value(a, b), b) >= a,
{
    let u = unit();
    let dd = div_down_value(a, b);
    let du = div_up_value(a, b);
    lemma_floor_bounds(a * u, b);
    lemma_ceil_bounds(a * u, b);
    // dd · b <= a · u, hence floor(dd · b / u) <= a
    lemma_floor_bounds(dd * b, u);
    assert(mul_down_value(dd, b) <= a) by (nonlinear_arith)
        requires
            dd * b <= a * u,
            (dd * b / u) * u <= dd * b,
            u > 0,
            mul_down_value(dd, b) == dd * b / u,
    ;
    // du · b >= a · u, hence ceil(du · b / u) >= a
    lemma_ceil_bounds(du * b, u);
    assert(mul_up_value(du, b) >= a) by (nonlinear_arith)
        requires
            du * b >= a * u,
            (ceil_div(du * b, u) - 1) * u < du * b,
            ceil_div(du * b, u) * u >= du * b,
            u > 0,
            mul_up_value(du, b) == ceil_div(du * b, u),
    ;
}

/// The complement is exact on `[0, ONE]`, an involution there, and
/// saturates at zero above `ONE`.
pub proof fn law_complement_involution(a: int)
    requires
        a >= 0,
    ensures
        a <= unit() ==> complement_value(a) == unit() - a,
        a <= unit() ==> complement_value(complement_value(a)) == a,
        a > unit() ==> complement_value(a) == 0,
{
}

} // verus!
