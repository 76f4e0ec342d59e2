//! Serialization round trips: `from_bytes(to_bytes(x))` restores an
//! accumulator equal to `x`, empty and with data.

use subset_digest::cbf_acc::CBFAccumulator;
use subset_digest::iblt_acc::IBLTAccumulator;
use subset_digest::naive::NaiveAccumulator;
use subset_digest::power_sum::PowerSumAccumulator;

const NBYTES: usize = 16;

fn gen_elems(seed: u64, n: usize) -> Vec<Vec<u8>> {
    let mut state = seed.wrapping_mul(0x9e3779b97f4a7c15).wrapping_add(1);
    let mut out = Vec::new();
    for _ in 0..n {
        let mut elem = Vec::new();
        while elem.len() < NBYTES {
            state = state
                .wrapping_mul(6364136223846793005)
                .wrapping_add(1442695040888963407);
            elem.extend_from_slice(&state.to_le_bytes());
        }
        elem.truncate(NBYTES);
        out.push(elem);
    }
    out
}

#[test]
fn naive_empty_serialization() {
    let acc1 = NaiveAccumulator::new();
    let bytes = acc1.to_bytes();
    let acc2 = NaiveAccumulator::from_bytes(&bytes).unwrap();
    assert!(acc1.equals(&acc2));
}

#[test]
fn naive_serialization_with_data() {
    let mut acc1 = NaiveAccumulator::new();
    let bytes = acc1.to_bytes();
    let acc2 = NaiveAccumulator::from_bytes(&bytes).unwrap();
    acc1.process_batch(&gen_elems(99, 10));
    let bytes = acc1.to_bytes();
    let acc3 = NaiveAccumulator::from_bytes(&bytes).unwrap();
    assert!(!acc1.equals(&acc2));
    assert!(acc1.equals(&acc3));
}

#[test]
fn power_sum_serialization_round_trip() {
    let mut acc1 = PowerSumAccumulator::new(50);
    let bytes = acc1.to_bytes();
    let acc2 = PowerSumAccumulator::from_bytes(&bytes).unwrap();
    assert!(acc1.equals(&acc2));
    acc1.process_batch(&gen_elems(7, 10));
    let bytes = acc1.to_bytes();
    let acc3 = PowerSumAccumulator::from_bytes(&bytes).unwrap();
    assert!(!acc1.equals(&acc2));
    assert!(acc1.equals(&acc3));
}

#[test]
fn cbf_empty_serialization() {
    let acc1 = CBFAccumulator::new(16, 1000, 4);
    let bytes = acc1.to_bytes();
    let acc2 = CBFAccumulator::from_bytes(&bytes).unwrap();
    assert!(acc1.equals(&acc2));
}

#[test]
fn cbf_serialization_with_data() {
    let mut acc1 = CBFAccumulator::new(16, 1000, 4);
    let bytes = acc1.to_bytes();
    let acc2 = CBFAccumulator::from_bytes(&bytes).unwrap();
    acc1.process_batch(&gen_elems(3, 10));
    let bytes = acc1.to_bytes();
    let acc3 = CBFAccumulator::from_bytes(&bytes).unwrap();
    assert!(!acc1.equals(&acc2));
    assert!(acc1.equals(&acc3));
}

#[test]
fn iblt_empty_serialization() {
    let acc1 = IBLTAccumulator::new(8, 1000, 4);
    let bytes = acc1.to_bytes();
    let acc2 = IBLTAccumulator::from_bytes(&bytes).unwrap();
    assert!(acc1.equals(&acc2));
}

#[test]
fn iblt_serialization_with_data() {
    let mut acc1 = IBLTAccumulator::new(8, 1000, 4);
    let bytes = acc1.to_bytes();
    let acc2 = IBLTAccumulator::from_bytes(&bytes).unwrap();
    acc1.process_batch(&gen_elems(5, 10));
    let bytes = acc1.to_bytes();
    let acc3 = IBLTAccumulator::from_bytes(&bytes).unwrap();
    assert!(!acc1.equals(&acc2));
    assert!(acc1.equals(&acc3));
}

#[test]
fn from_bytes_rejects_foreign_streams() {
    assert!(NaiveAccumulator::from_bytes(&vec![]).is_none());
    assert!(NaiveAccumulator::from_bytes(&vec![9u8; 26]).is_none());
    let naive_bytes = NaiveAccumulator::new().to_bytes();
    assert!(PowerSumAccumulator::from_bytes(&naive_bytes).is_none());
    assert!(CBFAccumulator::from_bytes(&naive_bytes).is_none());
    assert!(IBLTAccumulator::from_bytes(&naive_bytes).is_none());
}

#[test]
fn serialized_stream_is_self_describing() {
    // Version byte, then the accumulator kind tag.
    let b = NaiveAccumulator::new().to_bytes();
    assert_eq!(b[0], subset_digest::serial::FORMAT_VERSION);
    assert_eq!(b[1], subset_digest::serial::TAG_NAIVE);
    let b = PowerSumAccumulator::new(3).to_bytes();
    assert_eq!(b[1], subset_digest::serial::TAG_POWER_SUM);
    let b = CBFAccumulator::new(16, 10, 2).to_bytes();
    assert_eq!(b[1], subset_digest::serial::TAG_CBF);
    let b = IBLTAccumulator::new(8, 10, 2).to_bytes();
    assert_eq!(b[1], subset_digest::serial::TAG_IBLT);
}
