use weighted_math_core::shaping::{referee_trade, shape_trade, RawTrade};

#[test]
fn exact_in_is_clamped_into_the_envelope() {
    let t = RawTrade { exact_out: false, balance_in: 0, balance_out: 5, weight_in: 200, weight_out: 98, amount: 7 };
    let s = shape_trade(t).expect("room for a deposit");
    assert!(!s.exact_out);
    assert_eq!((s.balance_in, s.weight_in, s.balance_out, s.weight_out, s.amount), (1, 3, 5, 99, 8));
    assert_eq!(referee_trade(s), Some(true));
    // a full reserve leaves no room for a deposit
    let full = RawTrade { balance_in: u128::MAX, ..t };
    assert!(shape_trade(full).is_none());
}

#[test]
fn exact_out_is_capped_by_thirty_percent_and_the_fit_bound() {
    // cap30 = 300, fit bound = 1000 / (4 * 2) * 1 = 125
    let t = RawTrade { exact_out: true, balance_in: 7, balance_out: 1000, weight_in: 0, weight_out: 1, amount: 300 };
    let s = shape_trade(t).expect("room for a withdrawal");
    assert_eq!((s.balance_in, s.weight_in, s.balance_out, s.weight_out, s.amount), (7, 1, 1000, 2, 51));
    assert_eq!(referee_trade(s), Some(true));
    // a reserve of one admits no withdrawal
    let tiny = RawTrade { balance_out: 1, ..t };
    assert!(shape_trade(tiny).is_none());
}

#[test]
fn shaped_trades_keep_the_curve() {
    let balances = [1u128, 3, 1000, 10u128.pow(18), 1 << 100, u128::MAX / 3];
    let mut checked = 0;
    for &bi in &balances {
        for &bo in &balances {
            for (wi, wo) in [(0u8, 98u8), (49, 49), (98, 0), (17, 200)] {
                for exact_out in [false, true] {
                    let t = RawTrade { exact_out, balance_in: bi, balance_out: bo, weight_in: wi, weight_out: wo, amount: bi / 3 + 12345 };
                    if let Some(s) = shape_trade(t) {
                        if let Some(ok) = referee_trade(s) {
                            assert!(ok, "curve decreased for {s:?}");
                            checked += 1;
                        }
                    }
                }
            }
        }
    }
    assert!(checked > 100, "too few trades refereed: {checked}");
}
