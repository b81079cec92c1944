//! The word protocol and operation dispatch shared by the zkVM guest and
//! its host runner: the batch the host sends, the journal it reads back,
//! the bit-for-bit parity check between guest and host, and the cycle
//! statistics the runner reports.
//!
//! Protocol: input values travel as `u32` little-endian words, a `u128` as
//! four limbs low-to-high, after a header `[op, n]`; each journal record is
//! the `u128` result and the `u64` cycle count, little-endian bytes. Operations: 0 ln, 1 exp, 2 expm1, 3 pow,
//! 4 pow_up, 5 pow_down, 6 calc_out_given_in, 7 calc_in_given_out,
//! 8 u128 division, 9 baseline (the identity).

use vstd::prelude::*;
use vstd::arithmetic::power2::{pow2, lemma_pow2_pos, lemma_pow2_adds};
use crate::arith::{lemma_pow2_values, lemma_u128_shl_is_mul};
use crate::fixed::{Fixed, ONE};
use crate::harness::{parsed_i128, parsed_u128, parse_u128, s40_to_fixed};
use crate::pow::{self, ln_value, exp_value, expm1_value, pow_value, pow_up_value, pow_down_value, exponent_in_domain};
use crate::weighted::{
    self, out_given_in_envelope, out_given_in_value, in_given_out_envelope, in_given_out_value,
};

verus! {

/// Number of the largest operation code.
pub open spec fn last_op() -> u32 {
    9
}

/// Input words per case for each operation code.
pub open spec fn words_for_value(op: u32) -> int {
    if op <= 2 || op == 9 {
        4
    } else if op <= 5 || op == 8 {
        8
    } else {
        20
    }
}

/// Input words per case for an operation code.
pub fn words_for(op: u32) -> (r: usize)
    requires
        op <= last_op(),
    ensures
        r == words_for_value(op),
{
    match op {
        0..=2 | 9 => 4,
        3..=5 | 8 => 8,
        _ => 20,
    }
}

/// The `u128` held by the four words `words[4i .. 4i + 4]`, low limb first.
pub open spec fn limbs_value(words: Seq<u32>, i: int, count: int) -> int
    decreases count,
{
    if count <= 0 {
        0
    } else {
        limbs_value(words, i, count - 1) + words[4 * i + count - 1] * pow2((32 * (count - 1)) as nat)
    }
}

/// The `i`-th `u128` of a word buffer, four limbs low-to-high.
pub fn u128_at(words: &[u32], i: usize) -> (r: u128)
    requires
        4 * i + 4 <= words.len(),
    ensures
        r == limbs_value(words@, i as int, 4),
{
    let mut v = 0u128;
    let mut limb: usize = 0;
    proof {
        vstd::arithmetic::power2::lemma2_to64();
    }
    while limb < 4
        invariant
            limb <= 4,
            4 * i + 4 <= words.len(),
            v == limbs_value(words@, i as int, limb as int),
            v < pow2((32 * limb) as nat),
        decreases 4 - limb,
    {
        let w = words[i * 4 + limb] as u128;
        let sh = (32 * limb) as u32;
        proof {
            lemma_pow2_values();
            vstd::arithmetic::power2::lemma2_to64();
            lemma_pow2_adds(32, 32);
            lemma_pow2_adds(64, 32);
            lemma_pow2_adds(96, 32);
            lemma_pow2_pos(sh as nat);
            assert(w < 0x1_0000_0000);
            assert(w * pow2(sh as nat) < pow2((sh + 32) as nat)) by (nonlinear_arith)
                requires
                    w < 0x1_0000_0000,
                    pow2((sh + 32) as nat) == pow2(sh as nat) * 0x1_0000_0000,
                    pow2(sh as nat) > 0,
            ;
            assert(pow2((sh + 32) as nat) <= crate::arith::two_128());
            lemma_u128_shl_is_mul(w, sh);
            crate::arith::lemma_u128_low_mask(0, sh);
            let ws = w << sh;
            assert(v + w * pow2(sh as nat) < pow2((sh + 32) as nat)) by (nonlinear_arith)
                requires
                    v < pow2(sh as nat),
                    w < 0x1_0000_0000,
                    pow2((sh + 32) as nat) == pow2(sh as nat) * 0x1_0000_0000,
            ;
            assert((32 * (limb + 1)) as nat == (sh + 32) as nat);
            assert(v | ws == v + ws) by (bit_vector)
                requires
                    v < (1u128 << sh),
                    ws == w << sh,
                    sh < 128,
            ;
        }
        v |= w << (32 * limb as u32);
        limb += 1;
    }
    v
}

/// The operation of an operation code on its input values, as the guest
/// and host both evaluate it.
pub open spec fn op_value(op: u32, c: Seq<u128>) -> int {
    if op == 0 {
        (ln_value((c[0] as i128) as int) as i128) as u128 as int
    } else if op == 1 {
        (exp_value((c[0] as i128) as int) as i128) as u128 as int
    } else if op == 2 {
        (expm1_value((c[0] as i128) as int) as i128) as u128 as int
    } else if op == 3 {
        (pow_value((c[0] as i128) as int, (c[1] as i128) as int) as i128) as u128 as int
    } else if op == 4 {
        (pow_up_value((c[0] as i128) as int, (c[1] as i128) as int) as i128) as u128 as int
    } else if op == 5 {
        (pow_down_value((c[0] as i128) as int, (c[1] as i128) as int) as i128) as u128 as int
    } else if op == 6 {
        out_given_in_value(c[0] as int, c[1] as int, c[2] as int, c[3] as int, c[4] as int)
    } else if op == 7 {
        in_given_out_value(c[0] as int, c[1] as int, c[2] as int, c[3] as int, c[4] as int)
    } else if op == 8 {
        c[0] as int / c[1] as int
    } else {
        c[0] as int
    }
}

/// The inputs an operation code accepts: the domain of the kernel function
/// it calls.
pub open spec fn op_inputs_ok(op: u32, c: Seq<u128>) -> bool {
    &&& op <= last_op()
    &&& c.len() * 4 >= words_for_value(op)
    &&& (op == 0 ==> 0 < (c[0] as i128) <= ONE)
    &&& (op == 1 || op == 2 ==> (c[0] as i128) <= 0)
    &&& (3 <= op <= 5 ==> 0 < (c[0] as i128) <= ONE && exponent_in_domain((c[1] as i128) as int))
    &&& (op == 6 ==> out_given_in_envelope(c[0] as int, c[1] as int, c[2] as int, c[3] as int, c[4] as int))
    &&& (op == 7 ==> in_given_out_envelope(c[0] as int, c[1] as int, c[2] as int, c[3] as int, c[4] as int))
    &&& (op == 8 ==> c[1] != 0)
}

/// Evaluates one operation on its inputs (the dispatch the guest runs; the
/// host runs the same on host arithmetic for the parity check).
pub fn host_eval(op: u32, c: &[u128]) -> (r: u128)
    requires
        op_inputs_ok(op, c@),
    ensures
        r == op_value(op, c@),
{
    match op {
        0 => pow::ln(Fixed(c[0] as i128)).0 as u128,
        1 => pow::exp(Fixed(c[0] as i128)).0 as u128,
        2 => pow::expm1(Fixed(c[0] as i128)).0 as u128,
        3 => pow::pow(Fixed(c[0] as i128), Fixed(c[1] as i128)).0 as u128,
        4 => pow::pow_up(Fixed(c[0] as i128), Fixed(c[1] as i128)).0 as u128,
        5 => pow::pow_down(Fixed(c[0] as i128), Fixed(c[1] as i128)).0 as u128,
        6 => weighted::calc_out_given_in(c[0], c[1], c[2], c[3], c[4]),
        7 => weighted::calc_in_given_out(c[0], c[1], c[2], c[3], c[4]),
        8 => c[0] / c[1],
        _ => c[0],
    }
}

/// A fixture `value · 2^40` field as the raw bit pattern of its `Fixed` at
/// `SCALE`.
pub fn s40(s: &str) -> (r: u128)
    requires
        parsed_i128(s@) is Some,
    ensures
        r == ((parsed_i128(s@).unwrap() * 0x1000) as i128) as u128,
{
    s40_to_fixed(s).0 as u128
}

/// A fixture wei field.
pub fn wei(s: &str) -> (r: u128)
    requires
        parsed_u128(s@) is Some,
    ensures
        parsed_u128(s@) == Some(r),
{
    parse_u128(s)
}

/// Minimum, median (upper middle) and maximum of a batch of cycle counts.
#[derive(Debug, Clone, Copy)]
pub struct CycleStats {
    pub min: u64,
    pub median: u64,
    pub max: u64,
}

/// Ascending order on cycle counts.
pub open spec fn cycles_le() -> spec_fn(u64, u64) -> bool {
    |a: u64, b: u64| a <= b
}

/// `slice::sort_unstable` from std on `u64`: sorts ascending, so the result
/// is the one ascending arrangement of the same items.
#[verifier::external_body]
fn sort_unstable_u64(v: &mut Vec<u64>)
    ensures
        final(v)@ == old(v)@.sort_by(cycles_le()),
{
    v.sort_unstable()
}

/// Cycle statistics of a nonempty batch: the first, middle and last items
/// of the batch in ascending order.
pub fn stats(cycles: &[u64]) -> (r: CycleStats)
    requires
        cycles.len() > 0,
    ensures
        ({
            let sorted = cycles@.sort_by(cycles_le());
            &&& r.min == sorted[0]
            &&& r.median == sorted[cycles.len() as int / 2]
            &&& r.max == sorted[cycles.len() - 1]
        }),
{
    let mut sorted: Vec<u64> = Vec::new();
    let mut i: usize = 0;
    while i < cycles.len()
        invariant
            i <= cycles.len(),
            sorted@ == cycles@.subrange(0, i as int),
        decreases cycles.len() - i,
    {
        sorted.push(cycles[i]);
        i += 1;
    }
    proof {
        assert(sorted@ == cycles@);
        lemma_sort_len(cycles@);
    }
    sort_unstable_u64(&mut sorted);
    let n = sorted.len();
    CycleStats {
        min: sorted[0],
        median: sorted[n / 2],
        max: sorted[n - 1],
    }
}

/// Sorting keeps the length.
proof fn lemma_sort_len(s: Seq<u64>)
    ensures
        s.sort_by(cycles_le()).len() == s.len(),
{
    let leq = cycles_le();
    assert(vstd::relations::total_ordering(leq)) by {
        assert(vstd::relations::reflexive(leq));
        assert(vstd::relations::antisymmetric(leq));
        assert(vstd::relations::transitive(leq));
        assert(vstd::relations::strongly_connected(leq));
    }
    s.lemma_sort_by_ensures(leq);
    s.to_multiset_ensures();
    s.sort_by(leq).to_multiset_ensures();
}

// ---------------------------------------------------------------------------
// Host side of the protocol: the batch the runner sends, the journal it
// reads back, and the parity check between guest and host.
// ---------------------------------------------------------------------------

/// The first `count` little-endian `u32` limbs of `v`, low first.
pub open spec fn limbs_of(v: int, count: nat) -> Seq<u32>
    decreases count,
{
    if count == 0 {
        Seq::empty()
    } else {
        seq![(v % 0x1_0000_0000) as u32] + limbs_of(v / 0x1_0000_0000, (count - 1) as nat)
    }
}

/// The words of one case: each value's four limbs, in order.
pub open spec fn case_words(c: Seq<u128>) -> Seq<u32>
    decreases c.len(),
{
    if c.len() == 0 {
        Seq::empty()
    } else {
        case_words(c.drop_last()) + limbs_of(c.last() as int, 4)
    }
}

/// The words of all cases, in order.
pub open spec fn cases_words(cases: Seq<Vec<u128>>) -> Seq<u32>
    decreases cases.len(),
{
    if cases.len() == 0 {
        Seq::empty()
    } else {
        cases_words(cases.drop_last()) + case_words(cases.last()@)
    }
}

/// The guest input of a batch: the operation code, the number of cases,
/// then the words of every case.
pub open spec fn batch_words(op: u32, cases: Seq<Vec<u128>>) -> Seq<u32> {
    seq![op, cases.len() as u32] + cases_words(cases)
}

/// Appends the four limbs of `v`, low first.
fn push_limbs(out: &mut Vec<u32>, v: u128)
    ensures
        final(out)@ == old(out)@ + limbs_of(v as int, 4),
{
    let ghost start = out@;
    let mut w = v;
    let mut limb: usize = 0;
    while limb < 4
        invariant
            limb <= 4,
            out@ + limbs_of(w as int, (4 - limb) as nat) == start + limbs_of(v as int, 4),
        decreases 4 - limb,
    {
        let ghost before = out@;
        let ghost rest = limbs_of(w as int, (4 - limb) as nat);
        out.push((w % 0x1_0000_0000) as u32);
        proof {
            let tail = limbs_of((w / 0x1_0000_0000) as int, (4 - limb - 1) as nat);
            assert(rest == seq![(w % 0x1_0000_0000) as u32] + tail);
            assert(out@ + tail =~= before + rest);
        }
        w = w / 0x1_0000_0000;
        limb += 1;
    }
    assert(limbs_of(w as int, 0) =~= Seq::<u32>::empty());
    assert(out@ =~= out@ + limbs_of(w as int, 0));
}

/// The guest input of a batch: `[op, n]`, then every value of every case
/// as four `u32` limbs, low first.
pub fn encode_batch(op: u32, cases: &[Vec<u128>]) -> (r: Vec<u32>)
    requires
        cases.len() <= u32::MAX,
    ensures
        r@ == batch_words(op, cases@),
{
    let mut input: Vec<u32> = Vec::new();
    input.push(op);
    input.push(cases.len() as u32);
    let ghost header = seq![op, cases.len() as u32];
    let mut i: usize = 0;
    while i < cases.len()
        invariant
            i <= cases.len(),
            input@ == header + cases_words(cases@.subrange(0, i as int)),
        decreases cases.len() - i,
    {
        let case = &cases[i];
        let ghost done = input@;
        let mut j: usize = 0;
        while j < case.len()
            invariant
                j <= case.len(),
                input@ == done + case_words(case@.subrange(0, j as int)),
            decreases case.len() - j,
        {
            let ghost before = input@;
            push_limbs(&mut input, case[j]);
            proof {
                let next = case@.subrange(0, j + 1);
                assert(next.drop_last() =~= case@.subrange(0, j as int));
                assert(input@ =~= done + case_words(next));
            }
            j += 1;
        }
        proof {
            let next = cases@.subrange(0, i + 1);
            assert(next.drop_last() =~= cases@.subrange(0, i as int));
            assert(case@.subrange(0, case.len() as int) =~= case@);
            assert(input@ =~= header + cases_words(next));
        }
        i += 1;
    }
    proof {
        assert(cases@.subrange(0, cases.len() as int) =~= cases@);
    }
    input
}

/// Decoding the four limbs of a value gives the value back: what the host
/// sends is what the guest reads.
pub proof fn law_limbs_round_trip(v: u128)
    ensures
        limbs_value(limbs_of(v as int, 4), 0, 4) == v,
{
    let b = 0x1_0000_0000int;
    let s = limbs_of(v as int, 4);
    let q1 = v as int / b;
    let q2 = q1 / b;
    let q3 = q2 / b;
    assert(s == seq![(v % 0x1_0000_0000) as u32] + limbs_of(q1, 3));
    assert(limbs_of(q1, 3) == seq![(q1 % b) as u32] + limbs_of(q2, 2));
    assert(limbs_of(q2, 2) == seq![(q2 % b) as u32] + limbs_of(q3, 1));
    assert(limbs_of(q3, 1) == seq![(q3 % b) as u32] + limbs_of(q3 / b, 0));
    vstd::arithmetic::div_mod::lemma_fundamental_div_mod(v as int, b);
    vstd::arithmetic::div_mod::lemma_fundamental_div_mod(q1, b);
    vstd::arithmetic::div_mod::lemma_fundamental_div_mod(q2, b);
    vstd::arithmetic::div_mod::lemma_fundamental_div_mod(q3, b);
    assert(q1 < 0x1_0000_0000_0000_0000_0000_0000);
    assert(q2 < 0x1_0000_0000_0000_0000);
    assert(q3 < b);
    assert(q3 % b == q3) by {
        vstd::arithmetic::div_mod::lemma_small_mod(q3 as nat, b as nat);
    }
    vstd::arithmetic::power2::lemma2_to64();
    lemma_pow2_values();
    lemma_pow2_adds(64, 32);
    assert(s[0] == v as int % b);
    assert(s[1] == q1 % b);
    assert(s[2] == q2 % b);
    assert(s[3] == q3);
    assert(pow2(32) == b);
    assert(pow2(96) == 0x1_0000_0000_0000_0000_0000_0000);
    assert(pow2(0) == 1);
    assert(limbs_value(s, 0, 0) == 0);
    assert(limbs_value(s, 0, 1) == limbs_value(s, 0, 0) + s[0] * pow2(0));
    assert(limbs_value(s, 0, 1) == s[0]);
    assert(limbs_value(s, 0, 2) == s[0] + s[1] * pow2(32));
    assert(limbs_value(s, 0, 3) == s[0] + s[1] * pow2(32) + s[2] * pow2(64));
    assert(limbs_value(s, 0, 4) == s[0] + s[1] * pow2(32) + s[2] * pow2(64) + s[3] * pow2(96));
}

/// The little-endian value of `count` bytes starting at `start`.
pub open spec fn le_value(bytes: Seq<u8>, start: int, count: nat) -> int
    decreases count,
{
    if count == 0 {
        0
    } else {
        bytes[start] + 256 * le_value(bytes, start + 1, (count - 1) as nat)
    }
}

/// The little-endian `u128` of `count <= 16` bytes starting at `start`.
fn le_bytes_at(bytes: &[u8], start: usize, count: usize) -> (r: u128)
    requires
        count <= 16,
        start + count <= bytes.len(),
    ensures
        r == le_value(bytes@, start as int, count as nat),
        r < pow2((8 * count) as nat),
{
    let mut v: u128 = 0;
    let mut k: usize = count;
    proof {
        vstd::arithmetic::power2::lemma2_to64();
    }
    while k > 0
        invariant
            k <= count <= 16,
            start + count <= bytes.len(),
            v == le_value(bytes@, start + k, (count - k) as nat),
            v < pow2((8 * (count - k)) as nat),
        decreases k,
    {
        k -= 1;
        let b = bytes[start + k];
        proof {
            let m = (8 * (count - k - 1)) as nat;
            lemma_pow2_adds(m, 8);
            vstd::arithmetic::power2::lemma2_to64();
            lemma_pow2_values();
            assert(m + 8 <= 128);
            if m + 8 < 128 {
                vstd::arithmetic::power2::lemma_pow2_strictly_increases(m + 8, 128);
            }
            assert(v * 256 + b < pow2(m + 8)) by (nonlinear_arith)
                requires v < pow2(m), b < 256, pow2(m + 8) == pow2(m) * 256;
            assert((8 * (count - k)) as nat == m + 8);
        }
        v = v * 256 + b as u128;
    }
    v
}

/// A journal record is 24 bytes: the `u128` result, then the `u64` cycle
/// count, both little-endian.
pub open spec fn journal_record_len() -> int {
    24
}

/// One journal record as the guest commits it: the four limbs of the
/// result bit pattern, then the cycle count as two limbs, low first.
pub fn journal_record(result: u128, cycles: u64) -> (r: Vec<u32>)
    ensures
        r@ == limbs_of(result as int, 4) + limbs_of(cycles as int, 2),
{
    let mut out: Vec<u32> = Vec::new();
    push_limbs(&mut out, result);
    let low = (cycles % 0x1_0000_0000) as u32;
    let high = (cycles / 0x1_0000_0000) as u32;
    out.push(low);
    out.push(high);
    proof {
        let c = cycles as int;
        let q = c / 0x1_0000_0000;
        assert(q < 0x1_0000_0000);
        assert(q % 0x1_0000_0000 == q) by {
            vstd::arithmetic::div_mod::lemma_small_mod(q as nat, 0x1_0000_0000nat);
        }
        let two = limbs_of(c, 2);
        assert(two == seq![(c % 0x1_0000_0000) as u32] + limbs_of(q, 1));
        assert(limbs_of(q, 1) == seq![(q % 0x1_0000_0000) as u32] + limbs_of(q / 0x1_0000_0000, 0));
        assert(limbs_of(q / 0x1_0000_0000, 0) =~= Seq::<u32>::empty());
        assert(two =~= seq![low, high]);
        assert(out@ =~= limbs_of(result as int, 4) + two);
    }
    out
}

/// The cycles of a call net of the measurement baseline, floored at zero.
pub fn net_cycles(median: u64, baseline: u64) -> (r: u64)
    ensures
        r == (if median >= baseline { median - baseline } else { 0 }),
{
    median.saturating_sub(baseline)
}

/// The bit width of a division operand, as the benchmark report lists it.
pub fn bit_width(v: u128) -> (r: u32)
    ensures
        r == crate::weighted::bit_len(v as int),
{
    proof {
        crate::weighted::lemma_bit_len(v as int);
        crate::arith::lemma_pow2_values();
        if crate::weighted::bit_len(v as int) > 128 {
            vstd::arithmetic::power2::lemma_pow2_strictly_increases(128, (crate::weighted::bit_len(v as int) - 1) as nat);
        }
    }
    128 - crate::weighted::leading_zeros(v)
}

/// Reads the journal of a batch of `n` cases: `Some` exactly when it holds
/// `24 · n` bytes, with each record's result and cycle count.
pub fn decode_journal(bytes: &[u8], n: usize) -> (r: Option<(Vec<u128>, Vec<u64>)>)
    ensures
        r is Some <==> bytes.len() == journal_record_len() * n,
        r matches Some((outputs, cycles)) ==> {
            &&& outputs.len() == n
            &&& cycles.len() == n
            &&& forall|i: int| 0 <= i < n ==> #[trigger] outputs@[i] == le_value(bytes@, 24 * i, 16)
            &&& forall|i: int| 0 <= i < n ==> #[trigger] cycles@[i] == le_value(bytes@, 24 * i + 16, 8)
        },
{
    match n.checked_mul(24) {
        None => {
            return None;
        },
        Some(len) => {
            if bytes.len() != len {
                return None;
            }
        },
    }
    let mut outputs: Vec<u128> = Vec::new();
    let mut cycles: Vec<u64> = Vec::new();
    let mut i: usize = 0;
    while i < n
        invariant
            i <= n,
            bytes.len() == 24 * n,
            outputs.len() == i,
            cycles.len() == i,
            forall|j: int| 0 <= j < i ==> #[trigger] outputs@[j] == le_value(bytes@, 24 * j, 16),
            forall|j: int| 0 <= j < i ==> #[trigger] cycles@[j] == le_value(bytes@, 24 * j + 16, 8),
        decreases n - i,
    {
        let at = 24 * i;
        outputs.push(le_bytes_at(bytes, at, 16));
        let c = le_bytes_at(bytes, at + 16, 8);
        proof {
            lemma_pow2_values();
        }
        cycles.push(c as u64);
        i += 1;
    }
    Some((outputs, cycles))
}

/// The number of cases among the first `n` whose output differs from the
/// host evaluation of their inputs.
pub open spec fn mismatch_count(op: u32, inputs: Seq<Vec<u128>>, outputs: Seq<u128>, n: int) -> nat
    decreases n,
{
    if n <= 0 {
        0
    } else {
        mismatch_count(op, inputs, outputs, n - 1) + if op_value(op, inputs[n - 1]@) != outputs[n - 1] {
            1nat
        } else {
            0nat
        }
    }
}

/// How many cases came back from the guest with a result other than the
/// host's own evaluation (cases paired in order, up to the shorter list).
pub fn parity_mismatches(op: u32, inputs: &[Vec<u128>], outputs: &[u128]) -> (r: usize)
    requires
        forall|i: int| 0 <= i < inputs.len() && i < outputs.len() ==> op_inputs_ok(op, #[trigger] inputs[i]@),
    ensures
        r == mismatch_count(op, inputs@, outputs@, if inputs.len() < outputs.len() { inputs.len() as int } else { outputs.len() as int }),
{
    let n = if inputs.len() < outputs.len() { inputs.len() } else { outputs.len() };
    let mut count: usize = 0;
    let mut i: usize = 0;
    while i < n
        invariant
            i <= n,
            n <= inputs.len(),
            n <= outputs.len(),
            count <= i,
            count == mismatch_count(op, inputs@, outputs@, i as int),
            forall|k: int| 0 <= k < inputs.len() && k < outputs.len() ==> op_inputs_ok(op, #[trigger] inputs[k]@),
        decreases n - i,
    {
        let host = host_eval(op, inputs[i].as_slice());
        if host != outputs[i] {
            count += 1;
        }
        i += 1;
    }
    count
}

/// The position of the first case whose cycle count equals `median`: the
/// representative case the runner replays on its own.
pub fn median_position(cycles: &[u64], median: u64) -> (r: Option<usize>)
    ensures
        match r {
            Some(i) => i < cycles.len() && cycles[i as int] == median
                && forall|j: int| 0 <= j < i ==> cycles[j] != median,
            None => forall|j: int| 0 <= j < cycles.len() ==> cycles[j] != median,
        },
{
    let mut i: usize = 0;
    while i < cycles.len()
        invariant
            i <= cycles.len(),
            forall|j: int| 0 <= j < i ==> cycles[j] != median,
        decreases cycles.len() - i,
    {
        if cycles[i] == median {
            return Some(i);
        }
        i += 1;
    }
    None
}

} // verus!
