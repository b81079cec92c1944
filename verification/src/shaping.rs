//! Shaping arbitrary trades into the kernel's envelope, and refereeing them
//! against the curve invariant: the logic of the coverage-guided trade
//! target, which feeds raw bytes in and checks that no trade inside the
//! envelope shrinks the curve.
//!
//! Out-of-envelope inputs halt the kernel by design, so raw values are
//! first clamped into it: reserves at least one, weights in `1..=99`, and an
//! amount drawn below the largest the envelope admits.

use vstd::prelude::*;
use crate::harness::{curve_preserved, invariant_preserved};
use crate::weighted::{
    self, out_given_in_envelope, out_given_in_value, in_given_out_envelope, in_given_out_value,
    weights_ok, cap_30,
};

verus! {

/// A trade as raw fuzz input: any values at all.
#[derive(Debug, Clone, Copy)]
pub struct RawTrade {
    pub exact_out: bool,
    pub balance_in: u128,
    pub balance_out: u128,
    pub weight_in: u8,
    pub weight_out: u8,
    pub amount: u128,
}

/// A trade clamped into the envelope: `amount` is the deposit of an exact-in
/// trade, or the withdrawal of an exact-out one.
#[derive(Debug, Clone, Copy)]
pub struct ShapedTrade {
    pub exact_out: bool,
    pub balance_in: u128,
    pub weight_in: u128,
    pub balance_out: u128,
    pub weight_out: u128,
    pub amount: u128,
}

/// A raw weight folded into `1..=99`.
pub open spec fn shaped_weight(w: u8) -> int {
    w % 99 + 1
}

/// A raw reserve raised to at least one.
pub open spec fn shaped_balance(b: u128) -> int {
    if b >= 1 { b as int } else { 1 }
}

/// The withdrawal bound that keeps an exact-out payment within `u128`
/// (exponent times drained fraction at most one quarter):
/// `floor(balance_out / (4 · weight_out)) · weight_in`, saturating.
pub open spec fn fit_cap(balance_out: int, weight_in: int, weight_out: int) -> int {
    let c = balance_out / (4 * weight_out) * weight_in;
    if c <= u128::MAX { c } else { u128::MAX as int }
}

/// The largest amount a shaped trade may carry: 30% of the reserve and the
/// payment-fit bound for exact-out, the room below `2^128` for exact-in.
pub open spec fn max_amount(t: RawTrade) -> int {
    let bi = shaped_balance(t.balance_in);
    let bo = shaped_balance(t.balance_out);
    let wi = shaped_weight(t.weight_in);
    let wo = shaped_weight(t.weight_out);
    if t.exact_out {
        let c = cap_30(bo);
        let f = fit_cap(bo, wi, wo);
        if c <= f { c } else { f }
    } else {
        u128::MAX - bi
    }
}

/// The shaped trade: `None` when the envelope leaves no room for a nonzero
/// amount, else the clamped reserves and weights with the amount
/// `1 + amount % max_amount`.
pub open spec fn shaped(t: RawTrade) -> Option<ShapedTrade> {
    let m = max_amount(t);
    if m == 0 {
        None
    } else {
        Some(
            ShapedTrade {
                exact_out: t.exact_out,
                balance_in: shaped_balance(t.balance_in) as u128,
                weight_in: shaped_weight(t.weight_in) as u128,
                balance_out: shaped_balance(t.balance_out) as u128,
                weight_out: shaped_weight(t.weight_out) as u128,
                amount: (1 + t.amount % (m as u128)) as u128,
            },
        )
    }
}

/// Clamps a raw trade into the envelope. A shaped exact-in trade meets the
/// exact-in envelope; a shaped exact-out trade meets every clause of the
/// exact-out envelope but the payment fit, which its amount bound keeps in
/// reach without deciding it.
pub fn shape_trade(t: RawTrade) -> (r: Option<ShapedTrade>)
    ensures
        r == shaped(t),
        r matches Some(s) ==> {
            &&& 1 <= s.weight_in <= 99
            &&& 1 <= s.weight_out <= 99
            &&& s.amount >= 1
            &&& (!s.exact_out ==> out_given_in_envelope(
                s.balance_in as int,
                s.weight_in as int,
                s.balance_out as int,
                s.weight_out as int,
                s.amount as int,
            ))
            &&& (s.exact_out ==> {
                &&& s.balance_in >= 1
                &&& s.balance_out >= 1
                &&& weights_ok(s.weight_in as int, s.weight_out as int)
                &&& s.amount <= cap_30(s.balance_out as int)
                &&& s.amount <= fit_cap(s.balance_out as int, s.weight_in as int, s.weight_out as int)
            })
        },
{
    let balance_in = if t.balance_in >= 1 { t.balance_in } else { 1 };
    let balance_out = if t.balance_out >= 1 { t.balance_out } else { 1 };
    let w_in = (t.weight_in % 99) as u128 + 1;
    let w_out = (t.weight_out % 99) as u128 + 1;
    let max = if t.exact_out {
        let cap30 = balance_out / 10 * 3 + balance_out % 10 * 3 / 10;
        proof {
            let b = balance_out as int;
            vstd::arithmetic::div_mod::lemma_fundamental_div_mod(b, 10);
            vstd::arithmetic::div_mod::lemma_mod_bound(b, 10);
            crate::arith::lemma_floor_unique(3 * b, 10, (b / 10) * 3 + (b % 10) * 3 / 10);
        }
        let cap_fit = match (balance_out / (4 * w_out)).checked_mul(w_in) {
            Some(c) => c,
            None => u128::MAX,
        };
        if cap30 <= cap_fit { cap30 } else { cap_fit }
    } else {
        u128::MAX - balance_in
    };
    if max == 0 {
        return None;
    }
    let amount = 1 + t.amount % max;
    proof {
        assert(t.amount % max < max);
        if t.exact_out {
            let b = balance_out as int;
            assert(cap_30(b) <= b) by {
                crate::arith::lemma_floor_bounds(3 * b, 10);
            }
        }
    }
    Some(ShapedTrade {
        exact_out: t.exact_out,
        balance_in,
        weight_in: w_in,
        balance_out,
        weight_out: w_out,
        amount,
    })
}

/// Runs a shaped trade through the kernel and the exact curve referee:
/// `Some(verdict)` with the referee's verdict on the kernel's result, or
/// `None` for an exact-out trade whose payment does not fit `u128` (where
/// the kernel halts by design).
pub fn referee_trade(s: ShapedTrade) -> (r: Option<bool>)
    requires
        1 <= s.weight_in <= 99,
        1 <= s.weight_out <= 99,
        !s.exact_out ==> out_given_in_envelope(
            s.balance_in as int,
            s.weight_in as int,
            s.balance_out as int,
            s.weight_out as int,
            s.amount as int,
        ),
    ensures
        !s.exact_out ==> r == Some(curve_preserved(
            s.balance_in as int,
            s.weight_in as int,
            s.balance_out as int,
            s.weight_out as int,
            s.amount as int,
            out_given_in_value(
                s.balance_in as int,
                s.weight_in as int,
                s.balance_out as int,
                s.weight_out as int,
                s.amount as int,
            ),
        )),
        s.exact_out ==> r == (if in_given_out_envelope(
            s.balance_in as int,
            s.weight_in as int,
            s.balance_out as int,
            s.weight_out as int,
            s.amount as int,
        ) {
            Some(curve_preserved(
                s.balance_in as int,
                s.weight_in as int,
                s.balance_out as int,
                s.weight_out as int,
                in_given_out_value(
                    s.balance_in as int,
                    s.weight_in as int,
                    s.balance_out as int,
                    s.weight_out as int,
                    s.amount as int,
                ),
                s.amount as int,
            ))
        } else {
            None
        }),
{
    if s.exact_out {
        match weighted::checked_calc_in_given_out(s.balance_in, s.weight_in, s.balance_out, s.weight_out, s.amount) {
            None => None,
            Some(cost) => Some(invariant_preserved(s.balance_in, s.weight_in, s.balance_out, s.weight_out, cost, s.amount)),
        }
    } else {
        let out = weighted::calc_out_given_in(s.balance_in, s.weight_in, s.balance_out, s.weight_out, s.amount);
        Some(invariant_preserved(s.balance_in, s.weight_in, s.balance_out, s.weight_out, s.amount, out))
    }
}

} // verus!
