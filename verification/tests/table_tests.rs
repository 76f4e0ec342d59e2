//! Tests of the counting Bloom filter and the invertible Bloom lookup
//! table.

use subset_digest::cbf::CountingBloomFilter;
use subset_digest::iblt::InvBloomLookupTable;
use subset_digest::valuevec::ValueVec;

fn init_cbf() -> CountingBloomFilter {
    CountingBloomFilter::new(8, 96, 2)
}

fn vvsum(vec: &ValueVec) -> usize {
    let num_entries = vec.num_vals();
    let mut sum: usize = 0;
    let mut i = 0;
    while i < num_entries {
        sum += vec.get(i) as usize;
        i += 1;
    }
    sum
}

fn bytes_of(x: u32) -> Vec<u8> {
    x.to_le_bytes().to_vec()
}

#[test]
fn test_equals() {
    let mut cbf1 = init_cbf();
    let cbf2 = init_cbf();
    assert!(!cbf1.equals(&cbf2), "different random state");
    let cbf3 = cbf1.empty_clone();
    assert!(cbf1.equals(&cbf3), "empty clone duplicates random state");
    cbf1.insert(&bytes_of(1234));
    let cbf4 = cbf1.empty_clone();
    assert!(!cbf1.equals(&cbf4), "empty clone removes data");
    assert!(cbf1.equals(&cbf1), "reflexive equality");
    assert!(cbf2.equals(&cbf2), "reflexive equality");
}

#[test]
fn test_insert() {
    let mut cbf = init_cbf();
    assert!(!cbf.insert(&bytes_of(1234)), "element did not exist already");
    assert_eq!(vvsum(cbf.counters()), 1 * cbf.num_hashes() as usize);
    assert!(cbf.insert(&bytes_of(1234)));
    assert!(cbf.insert(&bytes_of(1234)));
    assert_eq!(vvsum(cbf.counters()), 3 * cbf.num_hashes() as usize);
    assert!(!cbf.insert(&bytes_of(5678)));
    assert_eq!(vvsum(cbf.counters()), 4 * cbf.num_hashes() as usize);
}

#[test]
fn test_contains() {
    let mut cbf = init_cbf();
    cbf.insert(&bytes_of(1234));
    cbf.insert(&bytes_of(1234));
    cbf.insert(&bytes_of(1234));
    cbf.insert(&bytes_of(5678));
    assert!(cbf.contains(&bytes_of(1234)));
    assert!(cbf.contains(&bytes_of(5678)));
    assert!(!cbf.contains(&bytes_of(3456))); // with high probability
}

#[test]
fn test_indexes() {
    let mut cbf = init_cbf();
    cbf.insert(&bytes_of(1234));
    cbf.insert(&bytes_of(1234));
    cbf.insert(&bytes_of(1234));
    cbf.insert(&bytes_of(5678));
    let indexes = cbf.indexes(&bytes_of(1234));
    assert_eq!(indexes.len(), cbf.num_hashes() as usize);
    assert_eq!(indexes, cbf.indexes(&bytes_of(1234)), "indexes are deterministic");
    for i in indexes {
        assert!(cbf.counters().get(i) >= 3);
    }
    for i in cbf.indexes(&bytes_of(5678)) {
        assert!(cbf.counters().get(i) >= 1);
    }
}

#[test]
fn cbf_test_empty_clone() {
    let mut cbf1 = init_cbf();
    cbf1.insert(&bytes_of(1234));
    cbf1.insert(&bytes_of(5678));
    let cbf2 = cbf1.empty_clone();
    assert!(vvsum(cbf1.counters()) > 0);
    assert_eq!(vvsum(cbf2.counters()), 0);
    assert_eq!(cbf1.indexes(&bytes_of(1234)), cbf2.indexes(&bytes_of(1234)));
}

#[test]
fn cbf_can_insert_detects_saturation() {
    // One bit per counter: a second insertion of the same element would
    // saturate its cells.
    let mut cbf = CountingBloomFilter::new(1, 10, 1);
    assert!(cbf.can_insert(&bytes_of(1234)));
    cbf.insert(&bytes_of(1234));
    assert!(!cbf.can_insert(&bytes_of(1234)));
}

fn init_iblt() -> InvBloomLookupTable {
    InvBloomLookupTable::new(8, 100, 2)
}

fn data_is_nonzero(vec: &Vec<u32>) -> bool {
    for i in 0..vec.len() {
        if vec[i] != 0 {
            return true;
        }
    }
    false
}

#[test]
fn test_new_iblt() {
    let iblt = init_iblt();
    assert_eq!(iblt.num_entries(), 100);
    assert_eq!(iblt.num_hashes(), 2);
    assert_eq!(vvsum(iblt.counters()), 0);
    assert_eq!(iblt.data().iter().sum::<u32>(), 0);
}

#[test]
fn test_new_iblt_with_seed() {
    let iblt1 = InvBloomLookupTable::new_with_seed(111, 8, 100, 2);
    let iblt2 = InvBloomLookupTable::new_with_seed(222, 8, 100, 2);
    let iblt3 = InvBloomLookupTable::new_with_seed(111, 8, 100, 2);
    assert!(!iblt1.equals(&iblt2));
    assert!(iblt1.equals(&iblt3));
}

#[test]
fn iblt_test_equals() {
    let mut iblt1 = init_iblt();
    let iblt2 = init_iblt();
    assert!(!iblt1.equals(&iblt2), "different random state");
    let iblt3 = iblt1.empty_clone();
    assert!(iblt1.equals(&iblt3), "empty clone duplicates random state");
    iblt1.insert(1234);
    let iblt4 = iblt1.empty_clone();
    assert!(!iblt1.equals(&iblt4), "empty clone removes data");
    assert!(iblt1.equals(&iblt1), "reflexive equality");
    assert!(iblt2.equals(&iblt2), "reflexive equality");
}

#[test]
fn test_insert_without_overflow() {
    let mut iblt = init_iblt();
    let elem = 1234;
    let indexes = iblt.indexes(elem);
    for &idx in &indexes {
        assert_eq!(iblt.counters().get(idx), 0);
        assert_eq!(iblt.data()[idx], 0);
    }
    assert!(!iblt.insert(elem), "element did not exist already");
    assert_eq!(vvsum(iblt.counters()), 1 * iblt.num_hashes() as usize);
    for &idx in &indexes {
        assert_ne!(iblt.counters().get(idx), 0);
        assert_ne!(iblt.data()[idx], 0);
    }
    assert!(iblt.insert(elem), "added element twice");
    assert_eq!(vvsum(iblt.counters()), 2 * iblt.num_hashes() as usize);
    for &idx in &indexes {
        assert_ne!(iblt.counters().get(idx), 0);
        assert_ne!(iblt.data()[idx], 0);
    }
}

#[test]
fn iblt_test_empty_clone() {
    let mut iblt1 = init_iblt();
    iblt1.insert(1234);
    iblt1.insert(5678);
    let iblt2 = iblt1.empty_clone();
    assert!(vvsum(iblt1.counters()) > 0);
    assert_eq!(vvsum(iblt2.counters()), 0);
    assert!(data_is_nonzero(iblt1.data()));
    assert_eq!(iblt2.data().iter().sum::<u32>(), 0);
    assert_eq!(iblt1.indexes(1234), iblt2.indexes(1234));
}

#[test]
fn test_insert_with_counter_overflow() {
    // 1 bit per entry: the second insertion wraps the counter to zero
    // while the data word keeps accumulating.
    let mut iblt = InvBloomLookupTable::new(1, 10, 1);
    let elem = 1234;
    let i = iblt.indexes(elem)[0];

    iblt.insert(elem);
    assert_eq!(iblt.counters().get(i), 1);
    assert_eq!(iblt.data()[i], elem);

    iblt.insert(elem);
    assert_eq!(iblt.counters().get(i), 0);
    assert_eq!(iblt.data()[i], elem * 2);
}

#[test]
fn test_insert_with_data_wraparound() {
    let mut iblt = InvBloomLookupTable::new(2, 10, 1);
    let elem: u32 = 2086475114;  // very big element
    let i = iblt.indexes(elem)[0];

    iblt.insert(elem);
    assert_eq!(iblt.counters().get(i), 1);
    assert_eq!(iblt.data()[i], elem);

    iblt.insert(elem);
    iblt.insert(elem);
    assert_eq!(iblt.counters().get(i), 3);
    assert!(iblt.data()[i] < elem);
}

#[test]
fn test_eliminate_all_elems_without_duplicates() {
    let mut iblt = InvBloomLookupTable::new_with_seed(2, 8, 10, 2);
    let n: usize = 6;
    for elem in 0..(n as u32) {
        iblt.insert(elem);
    }
    assert_eq!(vvsum(iblt.counters()), n * (iblt.num_hashes() as usize));

    // Peeling recovers every inserted item.
    let mut elems = iblt.eliminate_elems().unwrap();
    assert_eq!(elems.len(), n);
    assert_eq!(vvsum(iblt.counters()), 0);
    assert_eq!(iblt.data().iter().sum::<u32>(), 0);
    for elem in 0..(n as u32) {
        let pos = elems.iter().position(|&e| e == elem);
        assert!(pos.is_some());
        elems.remove(pos.unwrap());
    }
}

#[test]
fn test_eliminate_all_elems_with_duplicates() {
    let mut iblt = InvBloomLookupTable::new_with_seed(111, 8, 10, 2);
    let n: usize = 7;
    for elem in 1..(n as u32) {
        iblt.insert(elem);
    }
    iblt.insert(1_u32);  // duplicate element
    assert_eq!(vvsum(iblt.counters()), n * (iblt.num_hashes() as usize));

    // Not all elements were eliminated.
    let elems = iblt.eliminate_elems().unwrap();
    assert!(elems.len() < n);
    assert_eq!(
        vvsum(iblt.counters()),
        (n - elems.len()) * (iblt.num_hashes() as usize)
    );
    assert!(data_is_nonzero(iblt.data()));
}

#[test]
fn valuevec_with_max_and_set_get() {
    let mut vv = ValueVec::with_max(7, 3);
    assert_eq!(vv.bits_per_val(), 3);
    assert_eq!(vv.max_value(), 7);
    vv.set(0, 7);
    vv.set(1, 5);
    vv.set(2, 1);
    assert_eq!(vv.get(0), 7);
    assert_eq!(vv.get(1), 5);
    assert_eq!(vv.get(2), 1);
    vv.set(1, 0);
    assert_eq!(vv.get(0), 7);
    assert_eq!(vv.get(1), 0);
    assert_eq!(vv.get(2), 1);
}

#[test]
fn valuevec_cross_block_writes() {
    // 20-bit values straddle the 32-bit block boundary.
    let mut vv = ValueVec::new(20, 5);
    assert_eq!(vv.len(), 100);
    vv.set(0, 0xfffff);
    vv.set(1, 0xaaaaa);
    vv.set(2, 0x55555);
    vv.set(3, 1);
    vv.set(4, 0x80000);
    assert_eq!(vv.get(0), 0xfffff);
    assert_eq!(vv.get(1), 0xaaaaa);
    assert_eq!(vv.get(2), 0x55555);
    assert_eq!(vv.get(3), 1);
    assert_eq!(vv.get(4), 0x80000);
    vv.clear();
    for i in 0..5 {
        assert_eq!(vv.get(i), 0);
    }
}


#[test]
fn init_cbf_random_state() {
    let cbf1 = init_cbf();
    let cbf2 = init_cbf();
    assert_ne!(cbf1.indexes(&bytes_of(1234)), cbf2.indexes(&bytes_of(1234)));
}

#[test]
fn valuevec_full_width_values() {
    let mut vv = ValueVec::new(32, 3);
    vv.set(0, u32::MAX);
    vv.set(1, 0);
    vv.set(2, 0x8000_0001);
    assert_eq!(vv.get(0), u32::MAX);
    assert_eq!(vv.get(1), 0);
    assert_eq!(vv.get(2), 0x8000_0001);
}
