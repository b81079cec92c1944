//! Widening 128-bit multiply primitives.
//!
//! A full `128 x 128 -> 256` product is formed from four word products
//! with explicit carries; the kernel never divides at 256 bits, these
//! helpers only multiply, add and shift.

use vstd::prelude::*;
use vstd::arithmetic::power2::*;
use vstd::arithmetic::div_mod::*;
use vstd::arithmetic::mul::*;
use vstd::bits::*;
use crate::arith::{
    two_128, ceil_div, lemma_pow2_values, lemma_u128_shl_is_mul, lemma_u128_shr_is_div,
    lemma_u128_low_mask, lemma_split_div, lemma_ceil_is_floor_plus_rem, lemma_floor_bounds,
};

verus! {

/// The 256-bit value of a `(hi, lo)` word pair.
pub open spec fn wide_value(w: (u128, u128)) -> int {
    w.0 * two_128() + w.1
}

proof fn lemma_split64(a: u128)
    ensures
        a == (a >> 64) * 0x1_0000_0000_0000_0000 + (a & 0xffff_ffff_ffff_ffff),
        (a >> 64) <= 0xffff_ffff_ffff_ffff,
        (a & 0xffff_ffff_ffff_ffff) <= 0xffff_ffff_ffff_ffff,
{
    assert(a == (a >> 64) * 0x1_0000_0000_0000_0000 + (a & 0xffff_ffff_ffff_ffff)) by (bit_vector);
    assert((a >> 64) <= 0xffff_ffff_ffff_ffff) by (bit_vector);
    assert((a & 0xffff_ffff_ffff_ffff) <= 0xffff_ffff_ffff_ffff) by (bit_vector);
}

proof fn lemma_word_product(x: u128, y: u128)
    requires
        x <= 0xffff_ffff_ffff_ffff,
        y <= 0xffff_ffff_ffff_ffff,
    ensures
        x * y <= 0xffff_ffff_ffff_fffe_0000_0000_0000_0001,
{
    assert(x * y <= 0xffff_ffff_ffff_ffff * 0xffff_ffff_ffff_ffff) by (nonlinear_arith)
        requires
            x <= 0xffff_ffff_ffff_ffff,
            y <= 0xffff_ffff_ffff_ffff,
    ;
}

proof fn lemma_four_products(ah: int, al: int, bh: int, bl: int)
    ensures
        (ah * 0x1_0000_0000_0000_0000 + al) * (bh * 0x1_0000_0000_0000_0000 + bl)
            == (ah * bh) * two_128() + (al * bh + ah * bl) * 0x1_0000_0000_0000_0000 + al * bl,
{
    assert((ah * 0x1_0000_0000_0000_0000 + al) * (bh * 0x1_0000_0000_0000_0000 + bl)
        == (ah * bh) * 0x1_0000_0000_0000_0000_0000_0000_0000_0000 + (al * bh + ah * bl)
        * 0x1_0000_0000_0000_0000 + al * bl) by (nonlinear_arith);
}

/// Full `128x128 -> 256`-bit product as `(hi, lo)`.
pub fn mul_wide(a: u128, b: u128) -> (r: (u128, u128))
    ensures
        wide_value(r) == a * b,
{
    let mask: u128 = 0xffff_ffff_ffff_ffff;
    let a_hi = a >> 64u32;
    let a_lo = a & mask;
    let b_hi = b >> 64u32;
    let b_lo = b & mask;
    proof {
        lemma_split64(a);
        lemma_split64(b);
        lemma_word_product(a_lo, b_lo);
        lemma_word_product(a_lo, b_hi);
        lemma_word_product(a_hi, b_lo);
        lemma_word_product(a_hi, b_hi);
    }
    // Each partial product is at most (2^64 - 1)^2 < 2^128: no overflow.
    let ll = a_lo * b_lo;
    let lh = a_lo * b_hi;
    let hl = a_hi * b_lo;
    let hh = a_hi * b_hi;
    let mid = lh.wrapping_add(hl);
    let carry_mid: u128 = if mid < lh { 1 } else { 0 };
    proof {
        assert(lh + hl == mid + carry_mid * two_128());
        lemma_split64(mid);
        assert((mid << 64u32) == (mid & 0xffff_ffff_ffff_ffff) * 0x1_0000_0000_0000_0000) by (bit_vector);
    }
    let mid_shl = mid << 64u32;
    let lo = ll.wrapping_add(mid_shl);
    let carry_lo: u128 = if lo < ll { 1 } else { 0 };
    let ghost mid_hi = mid >> 64u32;
    let ghost mid_lo = mid & 0xffff_ffff_ffff_ffff;
    proof {
        assert(ll + mid_shl == lo + carry_lo * two_128());
        assert(carry_mid << 64u32 == carry_mid * 0x1_0000_0000_0000_0000) by (bit_vector)
            requires
                carry_mid <= 1,
        ;
        lemma_four_products(a_hi as int, a_lo as int, b_hi as int, b_lo as int);
        assert(a * b == (hh + carry_mid * 0x1_0000_0000_0000_0000 + mid_hi + carry_lo) * two_128() + lo)
            by (nonlinear_arith)
            requires
                a * b == hh * two_128() + (lh + hl) * 0x1_0000_0000_0000_0000 + ll,
                lh + hl == mid + carry_mid * two_128(),
                mid == mid_hi * 0x1_0000_0000_0000_0000 + mid_lo,
                ll + mid_lo * 0x1_0000_0000_0000_0000 == lo + carry_lo * two_128(),
                two_128() == 0x1_0000_0000_0000_0000 * 0x1_0000_0000_0000_0000,
        ;
        let total = hh + carry_mid * 0x1_0000_0000_0000_0000 + mid_hi + carry_lo;
        assert(total < two_128()) by (nonlinear_arith)
            requires
                a * b == total * two_128() + lo,
                0 <= lo,
                a <= u128::MAX,
                b <= u128::MAX,
                0 <= a,
                0 <= b,
                two_128() == u128::MAX + 1,
        ;
    }
    let hi = hh + (mid >> 64u32) + (carry_mid << 64u32) + carry_lo;
    (hi, lo)
}

/// Shared reasoning of the two shifted products: when `a * b / 2^shift`
/// fits a `u128`, the high word has no bits at or above `shift`, and the
/// recombined words are the floored quotient.
proof fn lemma_shifted_words(a: u128, b: u128, shift: u32, hi: u128, lo: u128)
    requires
        0 < shift < 128,
        hi * two_128() + lo == a * b,
        a * b / (pow2(shift as nat) as int) <= u128::MAX,
    ensures
        hi >> shift == 0,
        (hi << ((128 - shift) as u32)) | (lo >> shift) == a * b / (pow2(shift as nat) as int),
        (a * b) % (pow2(shift as nat) as int) == lo as nat % pow2(shift as nat),
{
    let s = shift as nat;
    lemma_split_div(hi as int, lo as int, s);
    lemma_pow2_pos(s);
    lemma_pow2_pos((128 - s) as nat);
    lemma_pow2_values();
    lemma_pow2_adds((128 - s) as nat, s);
    let q = pow2((128 - s) as nat) as int;
    let p = pow2(s) as int;
    assert(hi < p) by {
        if hi >= p {
            assert(hi * q >= p * q) by (nonlinear_arith)
                requires hi >= p, q > 0;
            assert(lo as int / p >= 0) by {
                vstd::arithmetic::div_mod::lemma_div_pos_is_pos(lo as int, p);
            }
        }
    }
    lemma_u128_shr_is_div(hi, shift);
    vstd::arithmetic::div_mod::lemma_basic_div(hi as int, p);
    assert(hi * q <= u128::MAX) by {
        vstd::arithmetic::div_mod::lemma_div_pos_is_pos(lo as int, p);
    }
    lemma_u128_shl_is_mul(hi, ((128 - shift) as u32));
    lemma_u128_shr_is_div(lo, shift);
    assert((hi << ((128 - shift) as u32)) | (lo >> shift) == (hi << ((128 - shift) as u32)) + (lo >> shift))
        by (bit_vector)
        requires
            0 < shift < 128,
            hi >> shift == 0,
    ;
}

/// `floor(a * b / 2^shift)` for `0 < shift < 128`, whenever that quotient
/// fits a `u128`.
pub fn mul_shr(a: u128, b: u128, shift: u32) -> (r: u128)
    requires
        0 < shift < 128,
        a * b / (pow2(shift as nat) as int) <= u128::MAX,
    ensures
        r == a * b / (pow2(shift as nat) as int),
{
    let (hi, lo) = mul_wide(a, b);
    proof {
        lemma_shifted_words(a, b, shift, hi, lo);
    }
    (hi << (128 - shift)) | (lo >> shift)
}

/// `ceil(a * b / 2^shift)` for `0 < shift < 128`, whenever that quotient
/// fits a `u128`.
pub fn mul_shr_up(a: u128, b: u128, shift: u32) -> (r: u128)
    requires
        0 < shift < 128,
        ceil_div(a * b, pow2(shift as nat) as int) <= u128::MAX,
    ensures
        r == ceil_div(a * b, pow2(shift as nat) as int),
{
    let (hi, lo) = mul_wide(a, b);
    proof {
        lemma_pow2_pos(shift as nat);
        lemma_ceil_is_floor_plus_rem(a * b, pow2(shift as nat) as int);
        lemma_shifted_words(a, b, shift, hi, lo);
        lemma_u128_low_mask(lo, shift);
    }
    let floor = (hi << (128 - shift)) | (lo >> shift);
    let rem = lo & ((1u128 << shift) - 1);
    let carry: u128 = if rem != 0 { 1 } else { 0 };
    floor + carry
}

/// The shifted product fits a `u128` exactly when the high word of the
/// product has no bits at or above `shift`.
proof fn lemma_shifted_fits(a: u128, b: u128, shift: u32, hi: u128, lo: u128)
    requires
        0 < shift < 128,
        hi * two_128() + lo == a * b,
    ensures
        (hi >> shift == 0) <==> (a * b / (pow2(shift as nat) as int) <= u128::MAX),
{
    let s = shift as nat;
    lemma_split_div(hi as int, lo as int, s);
    lemma_pow2_pos(s);
    lemma_pow2_pos((128 - s) as nat);
    lemma_pow2_values();
    lemma_pow2_adds((128 - s) as nat, s);
    lemma_u128_shr_is_div(hi, shift);
    lemma_u128_shr_is_div(lo, shift);
    let q = pow2((128 - s) as nat) as int;
    let p = pow2(s) as int;
    lemma_floor_bounds(hi as int, p);
    lemma_floor_bounds(lo as int, p);
    vstd::arithmetic::div_mod::lemma_div_pos_is_pos(lo as int, p);
    vstd::arithmetic::div_mod::lemma_div_pos_is_pos(hi as int, p);
    if hi >> shift == 0 {
        assert(hi as int / p == 0);
        assert(hi < p);
        assert(lo < two_128());
        assert((lo as int / p) * p <= lo);
        assert(hi * q + lo as int / p < two_128()) by (nonlinear_arith)
            requires
                hi < p,
                (lo as int / p) * p <= lo,
                lo < two_128(),
                q * p == two_128(),
                p > 0,
                q > 0,
                hi >= 0,
        {
            assert(hi * q <= (p - 1) * q);
            assert((lo as int / p) < q);
        }
    } else {
        let h = hi as int / p;
        assert(h >= 1);
        assert(hi >= p) by (nonlinear_arith) requires h * p <= hi, h >= 1, p > 0;
        assert(hi * q >= p * q) by (nonlinear_arith) requires hi >= p, q > 0;
    }
}

/// `ceil(a * b / 2^shift)` for `0 < shift < 128`, or `None` when that
/// quotient does not fit a `u128`.
pub fn checked_mul_shr_up(a: u128, b: u128, shift: u32) -> (r: Option<u128>)
    requires
        0 < shift < 128,
    ensures
        r == (if ceil_div(a * b, pow2(shift as nat) as int) <= u128::MAX {
            Some(ceil_div(a * b, pow2(shift as nat) as int) as u128)
        } else {
            None
        }),
{
    let (hi, lo) = mul_wide(a, b);
    proof {
        lemma_pow2_pos(shift as nat);
        lemma_shifted_fits(a, b, shift, hi, lo);
        lemma_ceil_is_floor_plus_rem(a * b, pow2(shift as nat) as int);
    }
    if hi >> shift != 0 {
        return None;
    }
    proof {
        lemma_shifted_words(a, b, shift, hi, lo);
        lemma_u128_low_mask(lo, shift);
    }
    let floor = (hi << (128 - shift)) | (lo >> shift);
    let rem = lo & ((1u128 << shift) - 1);
    if rem == 0 {
        Some(floor)
    } else if floor == u128::MAX {
        None
    } else {
        Some(floor + 1)
    }
}

} // verus!
