//! Tests of the log helpers: element extraction, multiset comparison,
//! median, and the DJB element hash.

use subset_digest::hashing::elem_to_u32;
use subset_digest::logs::{extract_element, log_is_subset, median};

#[test]
fn extract_element_slices_after_header() {
    let mut pkt: Vec<u8> = (0u8..60).collect();
    let e = extract_element(&pkt, 4);
    assert_eq!(e, vec![14, 15, 16, 17]);
    // Short packets are zero-padded.
    pkt.truncate(16);
    let e = extract_element(&pkt, 4);
    assert_eq!(e, vec![14, 15, 0, 0]);
    // A packet shorter than the header gives all zeros.
    pkt.truncate(3);
    let e = extract_element(&pkt, 4);
    assert_eq!(e, vec![0, 0, 0, 0]);
}

#[test]
fn log_subset_counts_multiplicity() {
    let a = vec![vec![1u8], vec![2u8], vec![1u8]];
    let b = vec![vec![2u8], vec![1u8], vec![1u8], vec![3u8]];
    assert!(log_is_subset(&a, &b));
    assert!(!log_is_subset(&b, &a));
    // One copy of an entry is not two.
    let c = vec![vec![1u8], vec![1u8]];
    let d = vec![vec![1u8], vec![2u8]];
    assert!(!log_is_subset(&c, &d));
    let empty: Vec<Vec<u8>> = vec![];
    assert!(log_is_subset(&empty, &d));
}

#[test]
fn median_of_series() {
    assert_eq!(median(vec![5]), 5);
    assert_eq!(median(vec![3, 1, 2]), 2);
    assert_eq!(median(vec![4, 1, 3, 2]), 2);  // (2 + 3) / 2
    assert_eq!(median(vec![10, 10, 2, 2]), 6);
    assert_eq!(median(vec![7, 7, 7]), 7);
}

#[test]
fn djb_hash_matches_x33a() {
    // h = 5381, then h * 33 + byte for each byte.
    assert_eq!(elem_to_u32(&[]), 5381);
    assert_eq!(elem_to_u32(&[1]), 5381 * 33 + 1);
    assert_eq!(elem_to_u32(&[69, 122]), 5862308);
    assert_eq!(elem_to_u32(&[70, 89]), 5862308);
}
