//! End-to-end accumulator scenarios: processing a stream with some
//! elements dropped (or a malicious substitution) and validating against
//! the full log.

use subset_digest::cbf_acc::CBFAccumulator;
use subset_digest::iblt_acc::IBLTAccumulator;
use subset_digest::naive::NaiveAccumulator;
use subset_digest::power_sum::PowerSumAccumulator;
use subset_digest::ValidationResult;

const SEED: u64 = 1234;
const NBYTES: usize = 16;

/// Deterministic pseudo-random byte elements.
fn gen_elems(seed: u64, n: usize) -> Vec<Vec<u8>> {
    let mut state = seed.wrapping_mul(0x9e3779b97f4a7c15).wrapping_add(1);
    let mut out = Vec::new();
    for _ in 0..n {
        let mut elem = Vec::new();
        while elem.len() < NBYTES {
            state = state
                .wrapping_mul(6364136223846793005)
                .wrapping_add(1442695040888963407);
            elem.extend_from_slice(&state.to_le_bytes());
        }
        elem.truncate(NBYTES);
        out.push(elem);
    }
    out
}

/// Deterministic distinct drop positions.
fn gen_dropped(seed: u64, num_logged: usize, num_dropped: usize) -> Vec<usize> {
    let mut state = seed.wrapping_mul(0xc2b2ae3d27d4eb4f).wrapping_add(7);
    let mut set: Vec<usize> = Vec::new();
    while set.len() < num_dropped {
        state = state
            .wrapping_mul(6364136223846793005)
            .wrapping_add(1442695040888963407);
        let i = (state % (num_logged as u64)) as usize;
        if !set.contains(&i) {
            set.push(i);
        }
    }
    set.sort();
    set
}

/// The witness a valid verdict carries.
fn witness(r: &ValidationResult) -> Option<&Vec<usize>> {
    match r {
        ValidationResult::Valid(d) => Some(d),
        ValidationResult::PsumCollisionsValid(d) => Some(d),
        ValidationResult::IbltCollisionsValid(d) => Some(d),
        ValidationResult::IbltIlpValid(d) => Some(d),
        ValidationResult::IbltIlpCollisionsValid(d) => Some(d),
        _ => None,
    }
}

/// The synthetic element a malicious forwarder processes without logging
/// it: all zeroes, never among the generated log entries.
fn malicious_elem() -> Vec<u8> {
    vec![0x00; NBYTES]
}

struct Scenario {
    elems: Vec<Vec<u8>>,
    dropped: Vec<usize>,
}

fn scenario(num_logged: usize, num_dropped: usize) -> Scenario {
    Scenario {
        elems: gen_elems(SEED, num_logged),
        dropped: gen_dropped(SEED, num_logged, num_dropped),
    }
}

fn check(result: ValidationResult, sc: &Scenario, malicious: bool) {
    assert_eq!(result.is_valid(), !malicious, "verdict was {:?}", result);
    if !malicious {
        let d = witness(&result).unwrap();
        assert_eq!(d, &sc.dropped);
    }
}

fn run_naive(num_logged: usize, num_dropped: usize, malicious: bool) {
    let sc = scenario(num_logged, num_dropped);
    let mut acc = NaiveAccumulator::new();
    for (i, elem) in sc.elems.iter().enumerate() {
        if malicious && i == num_logged / 2 {
            acc.process(&malicious_elem());
        } else if !sc.dropped.contains(&i) {
            acc.process(elem);
        }
    }
    check(acc.validate(&sc.elems), &sc, malicious);
}

fn run_power_sum(num_logged: usize, num_dropped: usize, malicious: bool, threshold: usize) {
    let sc = scenario(num_logged, num_dropped);
    let mut acc = PowerSumAccumulator::new_with_seed(threshold, SEED);
    for (i, elem) in sc.elems.iter().enumerate() {
        if malicious && i == num_logged / 2 {
            acc.process(&malicious_elem());
        } else if !sc.dropped.contains(&i) {
            acc.process(elem);
        }
    }
    check(acc.validate(&sc.elems), &sc, malicious);
}

fn run_cbf(num_logged: usize, num_dropped: usize, malicious: bool, num_entries: usize) {
    let sc = scenario(num_logged, num_dropped);
    let mut acc = CBFAccumulator::new_with_seeds(16, num_entries, 4, SEED, SEED + 1, SEED + 2);
    for (i, elem) in sc.elems.iter().enumerate() {
        if malicious && i == num_logged / 2 {
            assert!(acc.can_process(&malicious_elem()));
            acc.process(&malicious_elem());
        } else if !sc.dropped.contains(&i) {
            assert!(acc.can_process(elem));
            acc.process(elem);
        }
    }
    check(acc.validate(&sc.elems), &sc, malicious);
}

fn run_iblt(
    num_logged: usize,
    num_dropped: usize,
    malicious: bool,
    params: (usize, usize, u32),
    threshold: usize,
) {
    let sc = scenario(num_logged, num_dropped);
    let (bits, mult, k) = params;
    let mut acc = IBLTAccumulator::new_with_params(threshold, bits, mult, k, Some(SEED));
    for (i, elem) in sc.elems.iter().enumerate() {
        if malicious && i == num_logged / 2 {
            acc.process(&malicious_elem());
        } else if !sc.dropped.contains(&i) {
            acc.process(elem);
        }
    }
    check(acc.validate(&sc.elems), &sc, malicious);
}

#[test]
fn naive_none_dropped() {
    run_naive(100, 0, false);
}

#[test]
fn naive_all_dropped() {
    run_naive(100, 0, false);
}

#[test]
fn naive_one_dropped() {
    run_naive(100, 1, false);
}

#[test]
fn naive_one_malicious_and_none_dropped() {
    run_naive(100, 0, true);
}

#[test]
fn naive_one_malicious_and_one_dropped() {
    run_naive(100, 1, true);
}

#[test]
fn power_sum_none_dropped() {
    run_power_sum(100, 0, false, 100);
}

#[test]
fn power_sum_all_dropped() {
    run_power_sum(100, 0, false, 100);
}

#[test]
fn power_sum_one_dropped() {
    run_power_sum(100, 1, false, 100);
}

#[test]
fn power_sum_two_dropped() {
    run_power_sum(100, 2, false, 100);
}

#[test]
fn power_sum_many_dropped() {
    run_power_sum(1000, 10, false, 1000);
}

#[test]
fn power_sum_one_malicious_and_none_dropped() {
    run_power_sum(100, 0, true, 100);
}

#[test]
fn power_sum_one_malicious_and_one_dropped() {
    run_power_sum(100, 1, true, 100);
}

#[test]
fn power_sum_one_malicious_and_many_dropped() {
    run_power_sum(1000, 10, true, 1000);
}

#[test]
fn power_sum_exceeds_threshold() {
    // One more loss than the threshold can decode.
    let sc = scenario(100, 3);
    let mut acc = PowerSumAccumulator::new_with_seed(2, SEED);
    for (i, elem) in sc.elems.iter().enumerate() {
        if !sc.dropped.contains(&i) {
            acc.process(elem);
        }
    }
    let r = acc.validate(&sc.elems);
    assert!(matches!(r, ValidationResult::PsumExceedsThreshold));
    assert!(r.is_undetermined());
}

#[test]
fn power_sum_at_threshold() {
    // Exactly as many losses as the threshold can decode.
    run_power_sum(100, 3, false, 3);
}

#[test]
fn cbf_none_dropped() {
    run_cbf(100, 0, false, 960);
}

#[test]
fn cbf_all_dropped() {
    run_cbf(100, 100, false, 960);
}

#[test]
fn cbf_one_dropped() {
    run_cbf(100, 1, false, 960);
}

#[test]
fn cbf_two_dropped() {
    run_cbf(100, 2, false, 960);
}

#[test]
fn cbf_many_dropped() {
    run_cbf(1000, 10, false, 9600);
}

#[test]
fn cbf_one_malicious_and_none_dropped() {
    run_cbf(100, 0, true, 960);
}

#[test]
fn cbf_one_malicious_and_one_dropped() {
    run_cbf(100, 1, true, 960);
}

#[test]
fn cbf_one_malicious_and_many_dropped() {
    run_cbf(1000, 10, true, 9600);
}

#[test]
fn iblt_none_dropped() {
    run_iblt(100, 0, false, (8, 10, 2), 100);
}

#[test]
fn iblt_all_dropped() {
    run_iblt(100, 100, false, (8, 10, 2), 100);
}

#[test]
fn iblt_one_dropped() {
    run_iblt(100, 1, false, (8, 10, 2), 100);
}

#[test]
fn iblt_many_dropped_without_ilp_solver() {
    run_iblt(1000, 10, false, (8, 10, 2), 1000);
}

#[test]
fn iblt_many_dropped_with_ilp_solver() {
    // A table far too small to peel 100 losses: the exact-cover search
    // completes the witness.
    let sc = scenario(1000, 100);
    let mut acc = IBLTAccumulator::new_with_params(100, 8, 2, 2, Some(SEED));
    for (i, elem) in sc.elems.iter().enumerate() {
        if !sc.dropped.contains(&i) {
            acc.process(elem);
        }
    }
    let r = acc.validate(&sc.elems);
    assert!(r.is_valid(), "verdict was {:?}", r);
    let d = witness(&r).unwrap();
    assert_eq!(d, &sc.dropped);
}

#[test]
fn iblt_one_malicious_and_none_dropped() {
    run_iblt(100, 0, true, (8, 10, 2), 100);
}

#[test]
fn iblt_one_malicious_and_one_dropped() {
    run_iblt(100, 1, true, (8, 10, 2), 100);
}

#[test]
fn iblt_one_malicious_and_many_dropped() {
    run_iblt(1000, 10, true, (8, 10, 2), 1000);
}

#[test]
fn naive_test_not_equals() {
    let acc1 = NaiveAccumulator::new();
    let acc2 = NaiveAccumulator::new();
    assert!(!acc1.equals(&acc2), "different digest nonce");
}

#[test]
fn cbf_test_not_equals() {
    let acc1 = CBFAccumulator::new(16, 960, 4);
    let acc2 = CBFAccumulator::new(16, 960, 4);
    assert!(!acc1.equals(&acc2), "different digest nonce");
}

#[test]
fn iblt_test_not_equals() {
    let acc1 = IBLTAccumulator::new(8, 1000, 4);
    let acc2 = IBLTAccumulator::new(8, 1000, 4);
    assert!(!acc1.equals(&acc2), "different digest nonce");
}

#[test]
fn process_batch_order_independent() {
    // Any permutation of a batch gives an equal accumulator.
    let elems = gen_elems(SEED, 50);
    let mut reversed = elems.clone();
    reversed.reverse();
    let mut a = PowerSumAccumulator::new_with_seed(10, SEED);
    let mut b = PowerSumAccumulator::new_with_seed(10, SEED);
    a.process_batch(&elems);
    b.process_batch(&reversed);
    assert!(a.equals(&b));

    let mut c = IBLTAccumulator::new_with_params(10, 8, 10, 2, Some(SEED));
    let mut d = IBLTAccumulator::new_with_params(10, 8, 10, 2, Some(SEED));
    c.process_batch(&elems);
    d.process_batch(&reversed);
    assert!(c.equals(&d));

    let mut e = CBFAccumulator::new_with_seeds(16, 960, 4, SEED, SEED + 1, SEED + 2);
    let mut f = CBFAccumulator::new_with_seeds(16, 960, 4, SEED, SEED + 1, SEED + 2);
    e.process_batch(&elems);
    f.process_batch(&reversed);
    assert!(e.equals(&f));
}

#[test]
fn reset_preserves_seed_and_shape() {
    let elems = gen_elems(SEED, 20);
    let mut acc = PowerSumAccumulator::new_with_seed(10, SEED);
    let fresh = PowerSumAccumulator::new_with_seed(10, SEED);
    acc.process_batch(&elems);
    assert!(!acc.equals(&fresh));
    acc.reset();
    assert!(acc.equals(&fresh));
}

#[test]
fn iblt_benign_wraparound() {
    // One-bit counters and one hash: the element's counter wraps, so the
    // difference table cannot count the three lost copies, and the loss
    // count made wrapping possible: the verdict is undetermined.
    let elem = vec![7u8; NBYTES];
    let mut acc = IBLTAccumulator::new_with_seed(SEED, 1, 4, 1);
    acc.process(&elem);
    acc.process(&elem);
    let log = vec![elem.clone(); 5];
    let r = acc.validate(&log);
    assert!(matches!(r, ValidationResult::IbltBenignWraparound), "verdict was {:?}", r);
    assert!(r.is_undetermined());
}

#[test]
fn iblt_malicious_wraparound() {
    // A forged stream that understates the processed count: the difference
    // table sums to zero drops although one loss is claimed, and the
    // counters were wide enough that wrapping cannot explain it.
    let elems = gen_elems(SEED, 8);
    let mut acc = IBLTAccumulator::new_with_seed(SEED, 8, 64, 2);
    for elem in &elems {
        acc.process(elem);
    }
    let mut bytes = acc.to_bytes();
    // The digest count is the little-endian word at offset 10.
    assert_eq!(bytes[10], 8);
    bytes[10] = 7;
    let forged = IBLTAccumulator::from_bytes(&bytes).unwrap();
    let r = forged.validate(&elems);
    assert!(
        matches!(r, ValidationResult::IbltMaliciousWraparound),
        "verdict was {:?}",
        r
    );
    assert!(!r.is_valid());
    assert!(!r.is_undetermined());
}

#[test]
fn max_truncation_cuts_trailing() {
    // The accumulator processed the first 90 of 100 logged packets: the 10
    // trailing packets can be cut and no more.
    let elems = gen_elems(SEED, 100);
    let mut acc = PowerSumAccumulator::new_with_seed(20, SEED);
    for elem in elems.iter().take(90) {
        acc.process(elem);
    }
    assert_eq!(acc.max_truncation(&elems), 10);
    let mut nacc = NaiveAccumulator::new();
    for elem in elems.iter().take(95) {
        nacc.process(elem);
    }
    assert_eq!(nacc.max_truncation(&elems), 5);
}
