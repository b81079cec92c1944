use weighted_math_core::weighted::{checked_calc_in_given_out, checked_spot_price};
use weighted_math_core::harness::invariant_preserved;
use weighted_math_core::fixed::{Fixed, ONE, SCALE};
use weighted_math_core::pow;
use weighted_math_core::weighted::{
    calc_in_given_out, calc_out_given_in, check_weights, weights_in_envelope, ratio_down, ratio_up, spot_price,
};

const MAX_EXPONENT: i128 = 99 * ONE;

/// Deep-negative `exp` arguments saturate to the true underflow values.
#[test]
fn exp_saturates_deep_negative() {
    let deep = [
        i128::MIN,
        i128::MIN + 1,
        -(1i128 << 120),
        -(1i128 << 90),
        -(64i128 << SCALE),
        -(64i128 << SCALE) + 1, // just inside the cutoff: still underflows
    ];
    for x in deep {
        assert_eq!(pow::exp(Fixed(x)).0, 0, "exp({x}) must underflow to 0");
        assert_eq!(pow::expm1(Fixed(x)).0, -ONE, "expm1({x}) must be -1");
    }
}

/// Domain corners: maximal |ln| times maximal exponent is the worst case
/// of the widened argument product.
#[test]
fn pow_at_the_domain_corners() {
    let corners = [
        (Fixed(1), Fixed(MAX_EXPONENT)),
        (Fixed(1), Fixed(1)),
        (Fixed(ONE - 1), Fixed(MAX_EXPONENT)),
        (Fixed(ONE - 1), Fixed(1)),
    ];
    for (base, expo) in corners {
        let up = pow::pow_up(base, expo);
        let down = pow::pow_down(base, expo);
        assert!(up.0 > 0 && up.0 <= ONE);
        assert!(down.0 >= 0 && down.0 <= up.0);
    }
}

#[test]
fn pow_corner_values() {
    assert_eq!(pow::pow_up(Fixed(1), Fixed(MAX_EXPONENT)).0, 2);
    assert_eq!(pow::pow_down(Fixed(1), Fixed(MAX_EXPONENT)).0, 0);
    assert_eq!(pow::pow_up(Fixed(ONE - 1), Fixed(1)).0, ONE);
    assert_eq!(pow::pow_down(Fixed(ONE - 1), Fixed(1)).0, ONE - 2);
}

#[test]
fn ln_exact_values() {
    assert_eq!(pow::ln(Fixed(ONE)).0, 0);
    // ln(1/2) = -round(ln 2 · 2^52)
    assert_eq!(pow::ln(Fixed(ONE / 2)).0, -3121657384082680);
    // ln(2^-52) = -52 ln 2
    assert_eq!(pow::ln(Fixed(1)).0, -162326183972299339);
}

#[test]
fn exp_exact_values() {
    assert_eq!(pow::exp(Fixed(0)).0, ONE);
    assert_eq!(pow::expm1(Fixed(0)).0, 0);
    // exp(ln(1/2)) = 1/2 on the grid
    assert_eq!(pow::exp(Fixed(-3121657384082680)).0, ONE / 2);
    // exp(-1) = 0.36787944...
    assert_eq!(pow::exp(Fixed(-ONE)).0, 1656781714176974);
    assert_eq!(pow::expm1(Fixed(-ONE)).0, -2846817913193522);
}

#[test]
fn exp_and_expm1_agree_to_one_ulp() {
    for x in [0, -1, -ONE / 3, -ONE, -7 * ONE, -(63 << SCALE), i128::MIN] {
        let e = pow::exp(Fixed(x)).0;
        let m = pow::expm1(Fixed(x)).0;
        assert!((0..=ONE).contains(&e));
        assert!((-ONE..=0).contains(&m));
        assert!(((e - ONE) - m).abs() <= 1);
    }
}

#[test]
fn pow_exact_values() {
    assert_eq!(pow::pow(Fixed(ONE / 2), Fixed(ONE)).0, ONE / 2);
    assert_eq!(pow::pow_up(Fixed(ONE / 2), Fixed(ONE)).0, ONE / 2 + 2);
    assert_eq!(pow::pow_down(Fixed(ONE / 2), Fixed(ONE)).0, ONE / 2 - 2);
    assert_eq!(pow::pow(Fixed(ONE / 4), Fixed(ONE / 2)).0, ONE / 2);
    assert_eq!(pow::pow(Fixed(ONE), Fixed(MAX_EXPONENT)).0, ONE);
}

#[test]
fn fixed_point_rounding() {
    let a = Fixed(3 * ONE / 2);
    let b = Fixed(ONE / 3);
    assert_eq!(a.mul_down(b).0, 3 * ONE / 2 * (ONE / 3) / ONE);
    assert_eq!(Fixed(3).mul_down(Fixed(ONE / 2)).0, 1);
    assert_eq!(Fixed(3).mul_up(Fixed(ONE / 2)).0, 2);
    assert_eq!(Fixed(ONE).div_down(Fixed(3 * ONE)).0, ONE / 3);
    assert_eq!(Fixed(ONE).div_up(Fixed(3 * ONE)).0, ONE / 3 + 1);
    assert_eq!(Fixed(0).div_up(Fixed(7)).0, 0);
    assert_eq!(Fixed(ONE / 4).complement().0, 3 * ONE / 4);
    assert_eq!(Fixed(2 * ONE).complement().0, 0);
    assert_eq!(Fixed(ONE / 4).complement().complement().0, ONE / 4);
    // the round trips never manufacture value
    let q = Fixed(5 * ONE).div_down(Fixed(7 * ONE));
    assert!(q.mul_down(Fixed(7 * ONE)).0 <= 5 * ONE);
    let q = Fixed(5 * ONE).div_up(Fixed(7 * ONE));
    assert!(q.mul_up(Fixed(7 * ONE)).0 >= 5 * ONE);
}

#[test]
fn readme_trade() {
    // Sell 1000 wei of token A into a 99/1 pool.
    let out = calc_out_given_in(1_000_000_000, 99, 500_000_000, 1, 1_000);
    assert!(out > 0 && out < 500_000_000);
    assert_eq!(out, 49497);
}

#[test]
fn exact_in_values() {
    // 50/50 pool, 10% deposit: true payout 1e18 · (1 - 1/1.1) = 9.0909e16
    let out = calc_out_given_in(10u128.pow(18), 50, 10u128.pow(18), 50, 10u128.pow(17));
    assert_eq!(out, 90909090909090717);
    assert!(out <= 90909090909090909);
    // a trade of nothing pays nothing; a trade too small to move the ratio too
    assert_eq!(calc_out_given_in(10u128.pow(18), 50, 10u128.pow(18), 50, 0), 0);
    assert_eq!(calc_out_given_in(10u128.pow(27), 1, 10u128.pow(18), 99, 1), 0);
}

#[test]
fn payout_doubles_with_the_reserve() {
    let once = calc_out_given_in(10u128.pow(18), 50, 10u128.pow(18), 50, 10u128.pow(17));
    let twice = calc_out_given_in(10u128.pow(18), 50, 2 * 10u128.pow(18), 50, 10u128.pow(17));
    assert!(twice == 2 * once || twice == 2 * once + 1);
    let b = 1u128 << 126;
    let once = calc_out_given_in(b, 1, b, 99, b);
    let twice = calc_out_given_in(b, 1, 2 * b, 99, b);
    assert!(twice == 2 * once || twice == 2 * once + 1);
    assert!(once <= b);
}

#[test]
fn exact_out_values() {
    // 50/50 pool, buy 10%: true price 1e18 · (1/0.9 - 1) = 1.1111e17
    let cost = calc_in_given_out(10u128.pow(18), 50, 10u128.pow(18), 50, 10u128.pow(17));
    assert_eq!(cost, 111111111111111358);
    assert!(cost >= 111111111111111112);
    assert_eq!(calc_in_given_out(10u128.pow(18), 50, 10u128.pow(18), 50, 0), 0);
    // the smallest trade still costs something
    assert!(calc_in_given_out(10u128.pow(18), 50, 10u128.pow(24), 50, 1) >= 1);
    // 30% of the reserve at the largest exponent stays priceable
    assert!(calc_in_given_out(1000, 1, 1000, 99, 300) >= 1);
}

#[test]
fn payment_doubles_with_the_reserve() {
    let once = calc_in_given_out(10u128.pow(18), 50, 10u128.pow(18), 50, 10u128.pow(17));
    let twice = calc_in_given_out(2 * 10u128.pow(18), 50, 10u128.pow(18), 50, 10u128.pow(17));
    assert_eq!(twice, 222222222222222716);
    assert!(twice == 2 * once || twice + 1 == 2 * once);
}

#[test]
fn spot_price_values() {
    let e18 = 10u128.pow(18);
    assert_eq!(spot_price(e18, 50, e18, 50).0, ONE);
    assert_eq!(spot_price(2 * e18, 50, e18, 50).0, 2 * ONE);
    assert_eq!(spot_price(e18, 20, e18, 80).0, 4 * ONE);
    // never understates: spot · b_out · w_in >= b_in · w_out · 2^52
    let s = spot_price(7, 3, 11, 5).0 as u128;
    assert!(s * 11 * 3 >= 7 * 5 * (1u128 << 52));
}

#[test]
fn ratios_round_in_their_directions() {
    // wide operands go through the pre-shift, which may only grow ratio_up
    let up = ratio_up(1u128 << 127, (1u128 << 127) + 5).0;
    assert_eq!(up, ONE + 1);
    let down = ratio_down(7u128 << 120, 10u128 << 120).0;
    assert_eq!(down, 3152519739159347);
    assert!(down <= 7 * ONE / 10);
    assert_eq!(ratio_up(1, 3).0, ONE / 3 + 1);
    assert_eq!(ratio_down(1, 3).0, ONE / 3);
}

#[test]
fn weight_envelope() {
    assert!(weights_in_envelope(1, 99));
    assert!(weights_in_envelope(99, 1));
    assert!(!weights_in_envelope(1, 100));
    assert!(!weights_in_envelope(0, 1));
    assert!(weights_in_envelope(1u128 << 64, 1u128 << 64));
    assert!(!weights_in_envelope((1u128 << 64) + 1, 1u128 << 64));
    // inside the envelope the check returns
    check_weights(1, 99);
    check_weights(99, 1);
    check_weights(1u128 << 64, 1u128 << 64);
}

#[test]
fn spot_price_grows_with_balance_in() {
    let bo = 1u128 << 80;
    let expected = [
        1u128,
        1,
        4294967297,
        70368744177664,
        70368744177665,
        4503599627370496,
        4503599627370497,
        4611686018427387905,
    ];
    let balances = [1u128, 1000, 1 << 60, (1 << 74) - 1, 1 << 74, (1 << 80) - 1, 1 << 80, 1 << 90];
    let mut prev = 0i128;
    for (bi, want) in balances.iter().zip(expected.iter()) {
        let s = spot_price(*bi, 50, bo, 50).0;
        assert_eq!(s as u128, *want);
        assert!(s >= prev);
        prev = s;
    }
}

#[test]
fn trades_never_shrink_the_curve() {
    let e = |k: u32| 10u128.pow(k);
    let cases = [
        (e(18), 50, e(18), 50, e(17)),
        (1_000_000_000, 99, 500_000_000, 1, 1_000),
        (e(24), 1, e(27), 99, e(21)),
        (e(27), 99, e(18), 1, e(27)),
        (1u128 << 100, 30, 1u128 << 110, 70, 1u128 << 99),
    ];
    for (bi, wi, bo, wo, amount) in cases {
        let out = calc_out_given_in(bi, wi, bo, wo, amount);
        assert!(out <= bo);
        assert!(invariant_preserved(bi, wi, bo, wo, amount, out));
        let buy = bo / 10;
        let cost = calc_in_given_out(bi, wi, bo, wo, buy);
        assert!(cost >= 1);
        assert!(invariant_preserved(bi, wi, bo, wo, cost, buy));
    }
}

#[test]
fn exact_out_values_at_the_extremes() {
    let e = |k: u32| 10u128.pow(k);
    assert_eq!(calc_in_given_out(e(24), 1, e(27), 99, e(26)), 33882757546519102294142571086);
    assert_eq!(calc_out_given_in(e(24), 1, e(27), 99, e(21)), 10095911996264644513998);
}

#[test]
fn payout_at_the_deposit_edge() {
    // total deposit pinned to 2^128 - 1, deposit at least doubling the reserve
    let cases = [
        (1u128 << 100, 1u128 << 120, 1u128, 99u128, 236631802172322818122119451003322368u128),
        (1u128 << 100, 1u128 << 120, 99, 1, 1329227995784915725329854470603931648),
        (1, 1u128 << 20, 1, 99, 319986),
        (u128::MAX / 2, u128::MAX, 1, 99, 2374161428420895009470786876725002239),
    ];
    for (bi, bo, wi, wo, want) in cases {
        let out = calc_out_given_in(bi, wi, bo, wo, u128::MAX - bi);
        assert_eq!(out, want);
        assert!(out >= bo / 256 && out <= bo);
    }
}

#[test]
fn pipeline_at_62_bits() {
    let ln2_62: i128 = 3_196_577_161_300_663_915;
    assert_eq!(pow::ln_inner(ONE), 0);
    assert_eq!(pow::ln_inner(ONE / 2), ln2_62);
    assert_eq!(pow::ln_inner(ONE / 8), 3 * ln2_62);
    assert_eq!(pow::exp_inner(0), 1i128 << 62);
    assert_eq!(pow::exp_inner(ln2_62), 1i128 << 61);
    // the series just below ln 2 lands one unit under the halving step
    assert_eq!(pow::exp_inner(ln2_62 - 1), (1i128 << 61) - 1);
    // past 62 halvings the result underflows the grid
    assert_eq!(pow::exp_inner(63 * ln2_62), 0);
    assert_eq!(pow::one_minus_pow_62(Fixed(ONE / 2), Fixed(ONE)), (1i128 << 61) - 512);
    assert_eq!(pow::pow_62_down(Fixed(ONE / 2), Fixed(ONE)), (1i128 << 61) - 512);
}

#[test]
fn checked_exact_out_matches_or_refuses() {
    let e18 = 10u128.pow(18);
    assert_eq!(checked_calc_in_given_out(e18, 50, e18, 50, e18 / 10), Some(111111111111111358));
    assert_eq!(
        checked_calc_in_given_out(e18, 50, e18, 50, e18 / 10),
        Some(calc_in_given_out(e18, 50, e18, 50, e18 / 10))
    );
    assert_eq!(checked_calc_in_given_out(e18, 50, e18, 50, 0), Some(0));
    // more than 30% of the reserve
    assert_eq!(checked_calc_in_given_out(e18, 50, 1000, 50, 301), None);
    assert!(checked_calc_in_given_out(e18, 50, 1000, 50, 300).is_some());
    // outside the weight envelope, or an empty reserve
    assert_eq!(checked_calc_in_given_out(e18, 0, e18, 50, 1), None);
    assert_eq!(checked_calc_in_given_out(e18, 1, e18, 100, 1), None);
    assert_eq!(checked_calc_in_given_out(0, 50, e18, 50, 1), None);
    // a payment past u128
    let b = 1u128 << 100;
    assert_eq!(checked_calc_in_given_out(b, 1, b, 99, b / 10 * 3), None);
}

#[test]
fn spot_price_past_the_preshift() {
    // the shifted 64 would vanish: the price is formed exactly
    let s = spot_price(1 << 80, 99, 64, 1).0;
    assert_eq!(s, 859298906366011754145006714512998400);
    let s = s as u128;
    // never understates: s · 64 · 99 >= 2^80 · 2^52, compared at 256 bits
    assert!(weighted_math_core::wide::mul_wide(s * 64, 99) >= (16, 0));
    assert_eq!(checked_spot_price(1 << 80, 99, 64, 1), Some(Fixed(859298906366011754145006714512998400)));
    assert_eq!(spot_price(1 << 80, 1, 64, 1).0, 1i128 << 126);
    // past the Fixed range, empty reserves, bad weights
    assert_eq!(checked_spot_price(u128::MAX, 1, 1, 99), None);
    assert_eq!(checked_spot_price(0, 50, 1, 50), None);
    assert_eq!(checked_spot_price(1, 50, 1, 0), None);
    let e18 = 10u128.pow(18);
    assert_eq!(checked_spot_price(e18, 20, e18, 80), Some(Fixed(4 * ONE)));
}

#[test]
fn div_down_takes_numerators_up_to_u128() {
    // operands in [2^75, 2^76): the numerator a · 2^52 still fits u128
    assert_eq!(Fixed(1i128 << 75).div_down(Fixed(4 * ONE)).0, 1i128 << 73);
    let a = (1i128 << 76) - 1;
    assert_eq!(Fixed(a).div_down(Fixed(2 * ONE)).0, a / 2);
}

#[test]
fn spot_price_within_its_band() {
    let u = 1u128 << SCALE;
    for (bi, wi, bo, wo) in [(7u128, 3u128, 11u128, 5u128), (10u128.pow(18), 20, 3 * 10u128.pow(17), 80), (1, 99, 1 << 70, 1)] {
        let s = spot_price(bi, wi, bo, wo).0 as u128;
        let wr = ((wo << SCALE) + wi - 1) / wi;
        let r_est = s * u / wr + 1;
        let band = 2 * (wr / u) + r_est / u + 4;
        assert!(s * bo * wi >= bi * wo * u);
        assert!(s.saturating_sub(band) * bo * wi < bi * wo * u);
    }
}

#[test]
fn spot_price_within_its_band_at_width() {
    let u = 1u128 << SCALE;
    for (bi, wi, bo, wo) in [
        (10u128.pow(27), 20u128, 3 * 10u128.pow(27), 80u128),
        (1u128 << 100, 1, (1u128 << 100) + 12345, 1),
        (1u128 << 90, 99, u128::MAX, 1),
    ] {
        let s = spot_price(bi, wi, bo, wo).0 as u128;
        let wr = ((wo << SCALE) + wi - 1) / wi;
        let r_est = s * u / wr + 1;
        let band = 2 * (wr / u) + r_est / u + 4;
        assert!(weighted_math_core::wide::mul_wide(s * wi, bo) >= weighted_math_core::wide::mul_wide(bi * wo, u));
        assert!(weighted_math_core::wide::mul_wide(s.saturating_sub(band) * wi, bo) < weighted_math_core::wide::mul_wide(bi * wo, u));
    }
}
