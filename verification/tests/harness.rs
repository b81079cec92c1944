use weighted_math_core::harness::{
    bound_ulps, check_directional, check_two_sided, invariant_preserved, mul_wide,
    parse_u128, parse_u128_checked, q_to_scale_bounds, s40_to_fixed, shl_wide, wide_le, wide_lt,
    Band, Direction, BUDGET_ULPS,
};

#[test]
fn band_checker_directions() {
    // truth strictly between grid points: floor 100, ceil 101
    assert!(check_directional(100, 101, 100, Direction::Down, 2).is_ok());
    assert_eq!(
        check_directional(100, 101, 101, Direction::Down, 2),
        Band::WrongSide { by_ulps: 1 }
    );
    assert_eq!(
        check_directional(100, 101, 97, Direction::Down, 2),
        Band::TooFar {
            err_ulps: 3,
            bound_ulps: 2
        }
    );
    assert!(check_directional(100, 101, 101, Direction::Up, 2).is_ok());
    assert_eq!(
        check_directional(100, 101, 100, Direction::Up, 2),
        Band::WrongSide { by_ulps: 1 }
    );
}

#[test]
fn invariant_referee_verdicts() {
    // 50/50 pool, constant product 100*100 = 10000.
    // Pay 10 in, take 9 out: 110*91 = 10010 >= 10000.
    assert!(invariant_preserved(100, 50, 100, 50, 10, 9));
    // Take 10 out for 10 in: 110*90 = 9900 < 10000: a leak.
    assert!(!invariant_preserved(100, 50, 100, 50, 10, 10));
    // Equality is allowed: nothing moves, nothing leaks.
    assert!(invariant_preserved(100, 50, 100, 50, 0, 0));
    // Draining past the reserve is a leak by definition.
    assert!(!invariant_preserved(100, 50, 100, 50, u128::MAX, 101));
    // Asymmetric weights, huge balances: 2^127-scale operands must not
    // overflow the referee.
    assert!(invariant_preserved(1 << 127, 1, 1 << 127, 99, 1 << 90, 0));
}

#[test]
fn wide_mul_matches_native_in_range() {
    let a = 0xdead_beef_u128;
    let b = 0x1234_5678_9abc_u128;
    assert_eq!(mul_wide(a, b), (0, a * b));
    let (hi, lo) = mul_wide(u128::MAX, u128::MAX);
    // (2^128 - 1)^2 = 2^256 - 2^129 + 1
    assert_eq!(hi, u128::MAX - 1);
    assert_eq!(lo, 1);
}

#[test]
fn band_checker_extremes() {
    // the error of i128::MIN is measured without overflow
    assert_eq!(
        check_directional(-1, 0, i128::MAX, Direction::Down, 0),
        Band::WrongSide { by_ulps: 1u128 << 127 }
    );
    assert_eq!(
        check_directional(0, 0, 5, Direction::Up, 5),
        Band::InBand { err_ulps: 5 }
    );
    assert!(!Band::TooFar { err_ulps: 1, bound_ulps: 0 }.is_ok());
}

#[test]
fn two_sided_grading() {
    assert_eq!(check_two_sided(10, 11, 10, 0), Band::InBand { err_ulps: 0 });
    assert_eq!(check_two_sided(10, 11, 11, 0), Band::InBand { err_ulps: 0 });
    assert_eq!(check_two_sided(10, 11, 7, 4), Band::InBand { err_ulps: 3 });
    assert_eq!(
        check_two_sided(10, 11, 20, 4),
        Band::TooFar { err_ulps: 9, bound_ulps: 4 }
    );
}

#[test]
fn pow_gate_bound_is_floor_plus_budget() {
    assert_eq!(bound_ulps(), 4);
    assert_eq!(BUDGET_ULPS, 3);
}

#[test]
fn decimal_parsing_follows_std() {
    assert_eq!(parse_u128("0"), 0);
    assert_eq!(parse_u128("+42"), 42);
    assert_eq!(parse_u128("340282366920938463463374607431768211455"), u128::MAX);
    assert_eq!(parse_u128_checked("340282366920938463463374607431768211456"), None);
    assert_eq!(parse_u128_checked("-1"), None);
    assert_eq!(parse_u128_checked(""), None);
    assert_eq!(parse_u128_checked("+"), None);
    assert_eq!(parse_u128_checked("1_000"), None);
    assert_eq!(parse_u128_checked(" 7"), None);
    assert_eq!(parse_u128_checked("1000"), Some(1000));
}

#[test]
fn s40_fields_rescale_to_the_kernel_grid() {
    // 2^40 at 2^-40 is 1.0, which is 2^52 at SCALE
    assert_eq!(s40_to_fixed("1099511627776").0, 1i128 << 52);
    assert_eq!(s40_to_fixed("-3").0, -3 * 4096);
    assert_eq!(s40_to_fixed("0").0, 0);
}

#[test]
fn quantizer_bounds() {
    // q = 5 * 2^76 + 1 at 128 bits: floor 5, ceil 6 at 52 bits
    let q = ((5u128 << 76) + 1).to_string();
    assert_eq!(q_to_scale_bounds(&q, 128), (5, 6));
    // an exact multiple has equal floor and ceil
    let q = (7u128 << 76).to_string();
    assert_eq!(q_to_scale_bounds(&q, 128), (7, 7));
    // no shift: the ceiling is always one above
    assert_eq!(q_to_scale_bounds("9", 52), (9, 10));
    // 116-bit field: shift by 64
    let q = ((3u128 << 64) + 5).to_string();
    assert_eq!(q_to_scale_bounds(&q, 116), (3, 4));
}

#[test]
fn wide_shift_and_order() {
    assert_eq!(shl_wide(5, 0), (0, 5));
    assert_eq!(shl_wide(u128::MAX, 1), (1, u128::MAX - 1));
    assert_eq!(shl_wide(3, 127), (1, 1u128 << 127));
    assert!(wide_le((1, 0), (1, 0)));
    assert!(!wide_lt((1, 0), (1, 0)));
    assert!(wide_lt((0, u128::MAX), (1, 0)));
    assert!(!wide_le((2, 0), (1, u128::MAX)));
    assert!(wide_le(mul_wide(u128::MAX, 2), shl_wide(u128::MAX, 1)));
}

#[test]
fn referee_compares_exact_powers() {
    // 2^1 * 3^2 = 18 before; (2+1)^1 * (3-1)^2 = 12 after: a leak
    assert!(!invariant_preserved(2, 1, 3, 2, 1, 1));
    // (2+2)^1 * 2^2 = 16 < 18: still a leak
    assert!(!invariant_preserved(2, 1, 3, 2, 2, 1));
    // (2+3)^1 * 2^2 = 20 >= 18
    assert!(invariant_preserved(2, 1, 3, 2, 3, 1));
    // the sum b_in + a_in is formed without overflow
    assert!(invariant_preserved(u128::MAX, 99, u128::MAX, 99, u128::MAX, 1));
}

#[test]
fn decimal_text_parses_back() {
    for n in [0u128, 7, 10, 999, 1 << 64, 10u128.pow(38), u128::MAX - 1, u128::MAX] {
        assert_eq!(parse_u128_checked(&n.to_string()), Some(n));
    }
}
