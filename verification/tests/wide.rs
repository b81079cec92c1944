use weighted_math_core::wide::checked_mul_shr_up;
use weighted_math_core::wide::{mul_shr, mul_shr_up, mul_wide};

#[test]
fn matches_native_when_in_range() {
    assert_eq!(mul_wide(0, u128::MAX), (0, 0));
    assert_eq!(mul_wide(3, 5), (0, 15));
    let a = 0x1234_5678_9abc_def0_u128;
    let b = 0xfedc_ba98_7654_3210_u128;
    assert_eq!(mul_wide(a, b), (0, a * b));
}

#[test]
fn full_width_corner() {
    // (2^128 - 1)^2 = 2^256 - 2^129 + 1
    assert_eq!(mul_wide(u128::MAX, u128::MAX), (u128::MAX - 1, 1));
}

#[test]
fn shifted_rounding() {
    // 7 * 5 / 8 = 4.375
    assert_eq!(mul_shr(7, 5, 3), 4);
    assert_eq!(mul_shr_up(7, 5, 3), 5);
    // exact multiples round identically
    assert_eq!(mul_shr(6, 4, 3), 3);
    assert_eq!(mul_shr_up(6, 4, 3), 3);
    // a genuinely 256-bit intermediate
    assert_eq!(mul_shr(u128::MAX, 1 << 62, 62), u128::MAX);
}

#[test]
fn mul_wide_carries_between_words() {
    // (2^64 + 1)^2 = 2^128 + 2^65 + 1
    let x = (1u128 << 64) + 1;
    assert_eq!(mul_wide(x, x), (1, (1u128 << 65) + 1));
    // 2^127 * 4 = 2^129
    assert_eq!(mul_wide(1u128 << 127, 4), (2, 0));
}

#[test]
fn mul_shr_keeps_high_word_bits() {
    // 2^100 * 2^100 / 2^100 = 2^100 needs the high word
    assert_eq!(mul_shr(1u128 << 100, 1u128 << 100, 100), 1u128 << 100);
    assert_eq!(mul_shr_up(1u128 << 100, (1u128 << 100) + 1, 100), (1u128 << 100) + 1);
    // 3 * 3 / 2 = 4.5
    assert_eq!(mul_shr(3, 3, 1), 4);
    assert_eq!(mul_shr_up(3, 3, 1), 5);
    // ceiling of a product just above a multiple at full width
    assert_eq!(mul_shr_up((1u128 << 127) + 1, 2, 127), 3);
}

#[test]
fn checked_shifted_product_refuses_only_past_u128() {
    assert_eq!(checked_mul_shr_up(3, 5, 1), Some(8));
    assert_eq!(checked_mul_shr_up(u128::MAX, 2, 1), Some(u128::MAX));
    assert_eq!(checked_mul_shr_up(1 << 64, 1 << 64, 1), Some(1 << 127));
    assert_eq!(checked_mul_shr_up(u128::MAX, u128::MAX, 127), None);
    // the ceiling alone crosses 2^128: floor is u128::MAX, a remainder is left
    assert_eq!(checked_mul_shr_up((1 << 95) - 1, (1 << 95) + 1, 62), None);
    assert_eq!(checked_mul_shr_up(u128::MAX, 3, 1), None);
}
