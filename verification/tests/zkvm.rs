use weighted_math_core::zkvm::{
    bit_width, decode_journal, encode_batch, journal_record, median_position, net_cycles, parity_mismatches,
};
use weighted_math_core::fixed::ONE;
use weighted_math_core::zkvm::{host_eval, s40, stats, u128_at, wei, words_for};

#[test]
fn words_per_operation() {
    assert_eq!(words_for(0), 4);
    assert_eq!(words_for(2), 4);
    assert_eq!(words_for(9), 4);
    assert_eq!(words_for(3), 8);
    assert_eq!(words_for(8), 8);
    assert_eq!(words_for(6), 20);
    assert_eq!(words_for(7), 20);
}

#[test]
fn limbs_assemble_low_to_high() {
    let words = [1u32, 2, 3, 4, 0xffff_ffff, 0xffff_ffff, 0xffff_ffff, 0xffff_ffff];
    assert_eq!(u128_at(&words, 0), 1 + (2u128 << 32) + (3u128 << 64) + (4u128 << 96));
    assert_eq!(u128_at(&words, 1), u128::MAX);
}

#[test]
fn dispatch_matches_the_kernel() {
    assert_eq!(host_eval(0, &[ONE as u128]), 0);
    assert_eq!(host_eval(1, &[0]), ONE as u128);
    // expm1(-1) is negative: its bit pattern is two's complement
    assert_eq!(host_eval(2, &[(-ONE) as u128]), (-2846817913193522i128) as u128);
    assert_eq!(host_eval(3, &[(ONE / 2) as u128, ONE as u128]), (ONE / 2) as u128);
    assert_eq!(host_eval(4, &[(ONE / 2) as u128, ONE as u128]), (ONE / 2 + 2) as u128);
    assert_eq!(host_eval(5, &[(ONE / 2) as u128, ONE as u128]), (ONE / 2 - 2) as u128);
    assert_eq!(host_eval(6, &[1_000_000_000, 99, 500_000_000, 1, 1_000]), 49497);
    let e18 = 10u128.pow(18);
    assert_eq!(host_eval(7, &[e18, 50, e18, 50, e18 / 10]), 111111111111111358);
    assert_eq!(host_eval(8, &[100, 7]), 14);
    assert_eq!(host_eval(9, &[12345]), 12345);
}

#[test]
fn fixture_fields() {
    assert_eq!(s40("1099511627776"), 1u128 << 52);
    assert_eq!(s40("-1"), (-4096i128) as u128);
    assert_eq!(wei("1000000000000000000"), 10u128.pow(18));
}

#[test]
fn cycle_stats_of_unsorted_batch() {
    let st = stats(&[5, 1, 9, 3, 7]);
    assert_eq!((st.min, st.median, st.max), (1, 5, 9));
    let st = stats(&[4, 2]);
    assert_eq!((st.min, st.median, st.max), (2, 4, 4));
    let st = stats(&[42]);
    assert_eq!((st.min, st.median, st.max), (42, 42, 42));
}

#[test]
fn batch_layout_is_header_then_limbs() {
    let words = encode_batch(6, &[vec![1, (1u128 << 64) + 3], vec![u128::MAX]]);
    assert_eq!(
        words,
        vec![6, 2, 1, 0, 0, 0, 3, 0, 1, 0, 0xffff_ffff, 0xffff_ffff, 0xffff_ffff, 0xffff_ffff]
    );
    assert_eq!(encode_batch(9, &[]), vec![9, 0]);
}

#[test]
fn encoded_values_read_back() {
    let values = [0u128, 1, 0x0123_4567_89ab_cdef_fedc_ba98_7654_3210, u128::MAX];
    let words = encode_batch(3, &[values.to_vec()]);
    for (i, v) in values.iter().enumerate() {
        assert_eq!(u128_at(&words[2..], i), *v);
    }
}

#[test]
fn journal_records_decode() {
    let mut bytes = Vec::new();
    for (out, cyc) in [(0x0102_0304_0506_0708_090a_0b0c_0d0e_0f10u128, 77u64), (u128::MAX, u64::MAX)] {
        bytes.extend_from_slice(&out.to_le_bytes());
        bytes.extend_from_slice(&cyc.to_le_bytes());
    }
    let (outputs, cycles) = decode_journal(&bytes, 2).expect("48 bytes hold two records");
    assert_eq!(outputs, vec![0x0102_0304_0506_0708_090a_0b0c_0d0e_0f10, u128::MAX]);
    assert_eq!(cycles, vec![77, u64::MAX]);
    assert!(decode_journal(&bytes, 3).is_none());
    assert!(decode_journal(&bytes[..47], 2).is_none());
    assert!(decode_journal(&[], usize::MAX).is_none());
    assert_eq!(decode_journal(&[], 0), Some((vec![], vec![])));
}

#[test]
fn parity_counts_disagreeing_outputs() {
    let inputs = vec![vec![ONE as u128], vec![1], vec![(ONE / 2) as u128]];
    let good: Vec<u128> = inputs.iter().map(|c| host_eval(0, c)).collect();
    assert_eq!(parity_mismatches(0, &inputs, &good), 0);
    let mut bad = good.clone();
    bad[2] ^= 1;
    assert_eq!(parity_mismatches(0, &inputs, &bad), 1);
    // pairs up to the shorter list
    assert_eq!(parity_mismatches(0, &inputs, &bad[..2]), 0);
    // a division batch
    let div = vec![vec![10, 3], vec![7, 7]];
    assert_eq!(parity_mismatches(8, &div, &[3, 2]), 1);
}

#[test]
fn median_case_is_the_first_match() {
    let cycles = [40u64, 10, 30, 10, 30];
    assert_eq!(median_position(&cycles, stats(&cycles).median), Some(2));
    assert_eq!(median_position(&cycles, 10), Some(1));
    assert_eq!(median_position(&cycles, 11), None);
}

#[test]
fn journal_record_is_result_then_cycles() {
    let rec = journal_record(0x0000_0004_0000_0003_0000_0002_0000_0001, 0x0000_0006_0000_0005);
    assert_eq!(rec, vec![1, 2, 3, 4, 5, 6]);
    // the host reads the same record back from its little-endian bytes
    let bytes: Vec<u8> = rec.iter().flat_map(|w| w.to_le_bytes()).collect();
    let (outputs, cycles) = decode_journal(&bytes, 1).unwrap();
    assert_eq!(outputs, vec![0x0000_0004_0000_0003_0000_0002_0000_0001]);
    assert_eq!(cycles, vec![0x0000_0006_0000_0005]);
}

#[test]
fn report_arithmetic() {
    assert_eq!(net_cycles(1000, 58), 942);
    assert_eq!(net_cycles(10, 58), 0);
    assert_eq!(bit_width(0), 0);
    assert_eq!(bit_width(1), 1);
    assert_eq!(bit_width((1u128 << 123) + 12345), 124);
    assert_eq!(bit_width((1u128 << 64) - 59), 64);
    assert_eq!(bit_width(1u128 << 64), 65);
    assert_eq!(bit_width(u128::MAX), 128);
}
