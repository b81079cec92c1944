//! Integer facts shared by the kernel: powers of two, shifts as
//! multiplication and division, and rounded division.

use vstd::prelude::*;
use vstd::arithmetic::power2::*;
use vstd::arithmetic::div_mod::*;
use vstd::arithmetic::mul::*;
use vstd::bits::*;

verus! {

/// `2^128` as a mathematical integer.
pub open spec fn two_128() -> int {
    0x1_0000_0000_0000_0000_0000_0000_0000_0000int
}

/// `ceil(a / d)` for `d > 0`.
pub open spec fn ceil_div(a: int, d: int) -> int {
    (a + d - 1) / d
}

/// The values of the powers of two the kernel works with.
pub proof fn lemma_pow2_values()
    ensures
        pow2(10) == 0x400,
        pow2(12) == 0x1000,
        pow2(52) == 0x10_0000_0000_0000,
        pow2(61) == 0x2000_0000_0000_0000,
        pow2(62) == 0x4000_0000_0000_0000,
        pow2(64) == 0x1_0000_0000_0000_0000,
        pow2(73) == 0x200_0000_0000_0000_0000,
        pow2(74) == 0x400_0000_0000_0000_0000,
        pow2(128) == two_128(),
{
    lemma2_to64();
    lemma2_to64_rest();
    lemma_pow2_adds(64, 64);
    lemma_pow2_adds(64, 9);
    lemma_pow2_adds(64, 10);
}

/// Left shift of a `u128` is multiplication by a power of two when the
/// product fits.
pub proof fn lemma_u128_shl_is_mul(x: u128, shift: u32)
    requires
        0 <= shift < 128,
        x * pow2(shift as nat) <= u128::MAX,
    ensures
        (x << shift) == x * pow2(shift as nat),
    decreases shift,
{
    lemma_pow2_pos(shift as nat);
    if shift == 0 {
        assert(x << 0 == x) by (bit_vector);
        lemma2_to64();
    } else {
        assert(x << shift == ((x << ((shift - 1) as u32)) * 2) as u128) by (bit_vector)
            requires
                0 < shift < 128,
        ;
        lemma_pow2_unfold(shift as nat);
        assert(x * pow2((shift - 1) as nat) <= x * pow2(shift as nat)) by {
            lemma_pow2_strictly_increases((shift - 1) as nat, shift as nat);
            lemma_mul_inequality(pow2((shift - 1) as nat) as int, pow2(shift as nat) as int, x as int);
            lemma_mul_is_commutative(x as int, pow2((shift - 1) as nat) as int);
            lemma_mul_is_commutative(x as int, pow2(shift as nat) as int);
        }
        lemma_u128_shl_is_mul(x, (shift - 1) as u32);
        assert(x * pow2(shift as nat) == (x * pow2((shift - 1) as nat)) * 2) by {
            lemma_mul_is_associative(x as int, pow2((shift - 1) as nat) as int, 2);
            lemma_mul_is_commutative(pow2((shift - 1) as nat) as int, 2);
        }
    }
}

/// `(q * d + r) / d == q` and `% d == r` for `0 <= r < d`.
pub proof fn lemma_div_mod_unique(q: int, r: int, d: int)
    requires
        d > 0,
        0 <= r < d,
    ensures
        (q * d + r) / d == q,
        (q * d + r) % d == r,
{
    lemma_fundamental_div_mod_converse(q * d + r, d, q, r);
}

/// Dividing by a product of powers of two splits into a quotient and the
/// shifted remainder: `(h * 2^128 + l) / 2^s == h * 2^(128-s) + l / 2^s`.
pub proof fn lemma_split_div(h: int, l: int, s: nat)
    requires
        0 <= s <= 128,
        0 <= l,
    ensures
        (h * two_128() + l) / (pow2(s) as int) == h * pow2((128 - s) as nat) + l / (pow2(s) as int),
        (h * two_128() + l) % (pow2(s) as int) == l % (pow2(s) as int),
{
    lemma_pow2_values();
    lemma_pow2_pos(s);
    lemma_pow2_adds((128 - s) as nat, s);
    let p = pow2(s) as int;
    let q = pow2((128 - s) as nat) as int;
    assert(h * two_128() == (h * q) * p) by {
        lemma_mul_is_associative(h, q, p);
    }
    lemma_fundamental_div_mod(l, p);
    let lq = l / p;
    let lr = l % p;
    assert(h * two_128() + l == (h * q + lq) * p + lr) by {
        lemma_mul_is_distributive_add_other_way(p, h * q, lq);
        lemma_mul_is_commutative(p, lq);
    }
    lemma_mod_bound(l, p);
    lemma_div_mod_unique(h * q + lq, lr, p);
}

/// `floor(a / d) * d <= a < (floor(a / d) + 1) * d`.
pub proof fn lemma_floor_bounds(a: int, d: int)
    requires
        d > 0,
    ensures
        (a / d) * d <= a,
        a < (a / d + 1) * d,
{
    lemma_fundamental_div_mod(a, d);
    lemma_mod_bound(a, d);
    lemma_mul_is_commutative(d, a / d);
    lemma_mul_is_distributive_add_other_way(d, a / d, 1);
}

/// The quotient is characterised by its bounds.
pub proof fn lemma_floor_unique(a: int, d: int, q: int)
    requires
        d > 0,
        q * d <= a < (q + 1) * d,
    ensures
        a / d == q,
{
    lemma_mul_is_distributive_add_other_way(d, q, 1);
    lemma_mul_is_commutative(d, q);
    lemma_div_mod_unique(q, a - q * d, d);
}

/// `ceil(a / d) * d >= a > (ceil(a / d) - 1) * d`.
pub proof fn lemma_ceil_bounds(a: int, d: int)
    requires
        d > 0,
    ensures
        ceil_div(a, d) * d >= a,
        (ceil_div(a, d) - 1) * d < a,
{
    lemma_floor_bounds(a + d - 1, d);
    let q = (a + d - 1) / d;
    assert((q + 1) * d == q * d + d) by (nonlinear_arith);
    assert((q - 1) * d == q * d - d) by (nonlinear_arith);
}

/// The ceiling is characterised by its bounds.
pub proof fn lemma_ceil_unique(a: int, d: int, q: int)
    requires
        d > 0,
        (q - 1) * d < a <= q * d,
    ensures
        ceil_div(a, d) == q,
{
    assert((q - 1) * d == q * d - d) by (nonlinear_arith);
    assert((q + 1) * d == q * d + d) by (nonlinear_arith);
    lemma_floor_unique(a + d - 1, d, q);
}

/// The ceiling exceeds the floor by one exactly when the division is
/// inexact.
pub proof fn lemma_ceil_is_floor_plus_rem(a: int, d: int)
    requires
        d > 0,
    ensures
        ceil_div(a, d) == a / d + (if a % d == 0 { 0int } else { 1int }),
{
    lemma_fundamental_div_mod(a, d);
    lemma_mod_bound(a, d);
    let q = a / d;
    let r = a % d;
    lemma_mul_is_commutative(d, q);
    if r == 0 {
        assert((q - 1) * d == q * d - d) by (nonlinear_arith);
        lemma_ceil_unique(a, d, q);
    } else {
        assert((q + 1) * d == q * d + d) by (nonlinear_arith);
        lemma_ceil_unique(a, d, q + 1);
    }
}

/// Right shift of a `u128` by a `u32` amount is division by a power of
/// two.
pub proof fn lemma_u128_shr_is_div(x: u128, shift: u32)
    requires
        shift < 128,
    ensures
        (x >> shift) == x as nat / pow2(shift as nat),
{
    assert((x >> shift) == (x >> (shift as u128))) by (bit_vector);
    vstd::bits::lemma_u128_shr_is_div(x, shift as u128);
}

/// `1 << s` is `2^s`, and masking with `(1 << s) - 1` is the remainder.
pub proof fn lemma_u128_low_mask(x: u128, shift: u32)
    requires
        shift < 128,
    ensures
        (1u128 << shift) == pow2(shift as nat),
        x & (((1u128 << shift) - 1) as u128) == x as nat % pow2(shift as nat),
{
    lemma_pow2_pos(shift as nat);
    assert(pow2(shift as nat) <= u128::MAX) by {
        lemma_pow2_values();
        if shift < 127 {
            lemma_pow2_strictly_increases(shift as nat, 128);
        } else {
            lemma_pow2_strictly_increases(127, 128);
        }
    }
    lemma_u128_shl_is_mul(1, shift);
    let m = x & (((1u128 << shift) - 1) as u128);
    let h = x >> shift;
    assert(x == ((x >> shift) << shift) | (x & (((1u128 << shift) - 1) as u128))) by (bit_vector)
        requires
            shift < 128,
    ;
    assert(((x >> shift) << shift) & (x & (((1u128 << shift) - 1) as u128)) == 0) by (bit_vector)
        requires
            shift < 128,
    ;
    assert((x & (((1u128 << shift) - 1) as u128)) < (1u128 << shift)) by (bit_vector)
        requires
            shift < 128,
    ;
    assert(((x >> shift) << shift) >> shift == x >> shift) by (bit_vector)
        requires
            shift < 128,
    ;
    let hs = (x >> shift) << shift;
    assert(hs | m == hs + m) by (bit_vector)
        requires
            hs & m == 0,
    ;
    lemma_u128_shr_is_div(x, shift);
    assert(h * pow2(shift as nat) <= x) by {
        vstd::arithmetic::div_mod::lemma_fundamental_div_mod(x as int, pow2(shift as nat) as int);
        vstd::arithmetic::mul::lemma_mul_is_commutative(h as int, pow2(shift as nat) as int);
        vstd::arithmetic::div_mod::lemma_mod_pos_bound(x as int, pow2(shift as nat) as int);
    }
    lemma_u128_shl_is_mul(h, shift);
    lemma_div_mod_unique(h as int, m as int, pow2(shift as nat) as int);
}

} // verus!
