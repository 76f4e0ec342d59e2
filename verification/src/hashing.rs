//! Keyed hashing for the accumulators.
//!
//! Elements are opaque byte strings.  Every accumulator derives its cell
//! indices from two keyed 64-bit hashes combined by double hashing, and the
//! IBLT additionally maps each element to a 32-bit value with the DJB/X33A
//! string hash.

use vstd::prelude::*;

verus! {

/// Number of bits of the DJB-mapped data values.
pub const DJB_HASH_SIZE: usize = 32;

/// Second key handed to the first keyed hasher of a filter.
pub const HASH_KEY_ONE: u64 = 0x9e3779b97f4a7c15;

/// Second key handed to the second keyed hasher of a filter.
pub const HASH_KEY_TWO: u64 = 0xc2b2ae3d27d4eb4f;

/// The 64-bit value that SipHash-1-3 with keys `(k0, k1)` gives to `data`.
/// The result is a pure function of the keys and the bytes; nothing further
/// is assumed of it.
pub uninterp spec fn sip13_of(k0: u64, k1: u64, data: Seq<u8>) -> u64;

/// Relies on siphasher's `SipHasher13::new_with_keys`, `Hasher::write` and
/// `Hasher::finish`: the 64-bit result depends only on the keys and the
/// bytes written.
#[verifier::external_body]
pub(crate) fn sip13_hash(k0: u64, k1: u64, data: &[u8]) -> (r: u64)
    ensures
        r == sip13_of(k0, k1, data@),
{
    let mut hasher = siphasher::sip128::SipHasher13::new_with_keys(k0, k1);
    std::hash::Hasher::write(&mut hasher, data);
    std::hash::Hasher::finish(&hasher)
}

/// The DJB/X33A hash of a byte string: starting from 5381, each byte maps
/// `h` to `h * 33 + byte`, modulo `2^32`.
pub open spec fn djb_hash_of(s: Seq<u8>) -> u32
    decreases s.len(),
{
    if s.len() == 0 {
        5381u32
    } else {
        ((djb_hash_of(s.drop_last()) * 33 + s.last()) % 0x1_0000_0000) as u32
    }
}

/// Maps an element to the 32-bit value stored in the lookup table.
///
/// Relies on djb_hash's `X33aU32`: its `write` folds `h * 33 + byte` over
/// the bytes (as `(h << 5) + h + byte`, wrapping) starting from 5381, and
/// `finish_u32` returns the fold, which is exactly `djb_hash_of`.
#[verifier::external_body]
pub fn elem_to_u32(elem: &[u8]) -> (r: u32)
    ensures
        r == djb_hash_of(elem@),
{
    let mut hasher = djb_hash::x33a_u32::X33aU32::new();
    std::hash::Hasher::write(&mut hasher, elem);
    djb_hash::HasherU32::finish_u32(&hasher)
}

/// Relies on rand's `random` for a fresh seed; nothing is assumed of the
/// value, so every property proved below holds whatever comes back.
#[verifier::external_body]
pub(crate) fn random_seed() -> u64 {
    rand::random::<u64>()
}

/// The `i`-th 64-bit hash of the double-hashing sequence built from the two
/// keyed hashes `h1` and `h2`: `h1`, then `h2`, then `h1 + i * h2` mod `2^64`.
pub open spec fn double_hash(h1: u64, h2: u64, i: int) -> u64 {
    if i == 0 {
        h1
    } else if i == 1 {
        h2
    } else {
        ((h1 + i * h2) % 0x1_0000_0000_0000_0000) as u64
    }
}

/// The `i`-th hash of element `e` under a filter keyed by `s1` and `s2`.
pub open spec fn element_hash(s1: u64, s2: u64, e: Seq<u8>, i: int) -> u64 {
    double_hash(sip13_of(s1, HASH_KEY_ONE, e), sip13_of(s2, HASH_KEY_TWO, e), i)
}

/// The cell of an `n`-cell table that the `i`-th hash of `e` selects.
pub open spec fn cell_index(s1: u64, s2: u64, e: Seq<u8>, i: int, n: int) -> int {
    (element_hash(s1, s2, e, i) as int) % n
}

/// How many of the `k` hashes of `e` land on cell `c`: the increment that
/// inserting `e` adds to that cell's counter.
pub open spec fn cell_incidence(s1: u64, s2: u64, e: Seq<u8>, k: nat, n: int, c: int) -> int
    decreases k,
{
    if k == 0 {
        0
    } else {
        cell_incidence(s1, s2, e, (k - 1) as nat, n, c) + if cell_index(
            s1,
            s2,
            e,
            k - 1,
            n,
        ) == c {
            1int
        } else {
            0int
        }
    }
}

/// How many entries of `s` equal `c`.
pub open spec fn count_in(s: Seq<usize>, c: usize) -> int
    decreases s.len(),
{
    if s.len() == 0 {
        0
    } else {
        count_in(s.drop_last(), c) + if s.last() == c {
            1int
        } else {
            0int
        }
    }
}

/// The incidence of an element on a cell never decreases as more hashes
/// are taken, and is nonnegative.
pub proof fn lemma_incidence_monotone(s1: u64, s2: u64, e: Seq<u8>, k1: nat, k2: nat, n: int, c: int)
    requires
        k1 <= k2,
    ensures
        0 <= cell_incidence(s1, s2, e, k1, n, c) <= cell_incidence(s1, s2, e, k2, n, c),
    decreases k2,
{
    if k2 == 0 {
    } else if k1 == k2 {
        lemma_incidence_monotone(s1, s2, e, (k1 - 1) as nat, (k2 - 1) as nat, n, c);
    } else {
        lemma_incidence_monotone(s1, s2, e, k1, (k2 - 1) as nat, n, c);
    }
}

/// A cell with positive incidence is selected by one of the `k` hashes.
pub proof fn lemma_incidence_positive(s1: u64, s2: u64, e: Seq<u8>, k: nat, n: int, c: int)
    requires
        cell_incidence(s1, s2, e, k, n, c) > 0,
    ensures
        exists|j: int| 0 <= j < k && #[trigger] cell_index(s1, s2, e, j, n) == c,
    decreases k,
{
    if k == 0 {
    } else if cell_index(s1, s2, e, k - 1, n) == c {
        assert(0 <= k - 1 < k && cell_index(s1, s2, e, k - 1, n) == c);
    } else {
        lemma_incidence_positive(s1, s2, e, (k - 1) as nat, n, c);
    }
}

/// If `s` lists the `k` cell indices of `e`, the number of entries of `s`
/// equal to `c` is the incidence of `e` on `c`.
pub proof fn lemma_count_is_incidence(
    s: Seq<usize>,
    s1: u64,
    s2: u64,
    e: Seq<u8>,
    k: nat,
    n: int,
    c: usize,
)
    requires
        s.len() == k,
        forall|j: int| 0 <= j < k ==> s[j] == cell_index(s1, s2, e, j, n),
    ensures
        count_in(s, c) == cell_incidence(s1, s2, e, k, n, c as int),
    decreases k,
{
    if k == 0 {
    } else {
        lemma_count_is_incidence(s.drop_last(), s1, s2, e, (k - 1) as nat, n, c);
    }
}

/// Counts the occurrences of `c` in `s`.
pub fn count_occurrences(s: &Vec<usize>, c: usize) -> (r: usize)
    ensures
        r == count_in(s@, c),
{
    let mut r: usize = 0;
    let mut t: usize = 0;
    while t < s.len()
        invariant
            t <= s@.len(),
            r <= t,
            r == count_in(s@.take(t as int), c),
        decreases s@.len() - t,
    {
        proof {
            assert(s@.take(t as int + 1).drop_last() =~= s@.take(t as int));
        }
        if s[t] == c {
            r = r + 1;
        }
        t = t + 1;
    }
    proof {
        assert(s@.take(s@.len() as int) =~= s@);
    }
    r
}

/// Restartable, deterministic double-hashing iterator: exactly `count`
/// 64-bit outputs for one element.
pub struct HashIter {
    /// First keyed hash of the element.
    pub h1: u64,
    /// Second keyed hash of the element.
    pub h2: u64,
    /// Position of the next output.
    pub i: u32,
    /// Total number of outputs.
    pub count: u32,
}

impl HashIter {
    /// Starts the hash sequence of `item` for a filter keyed by `s1`, `s2`.
    pub fn from(item: &[u8], count: u32, s1: u64, s2: u64) -> (r: HashIter)
        ensures
            r.h1 == sip13_of(s1, HASH_KEY_ONE, item@),
            r.h2 == sip13_of(s2, HASH_KEY_TWO, item@),
            r.i == 0,
            r.count == count,
    {
        let h1 = sip13_hash(s1, HASH_KEY_ONE, item);
        let h2 = sip13_hash(s2, HASH_KEY_TWO, item);
        HashIter { h1, h2, i: 0, count }
    }

    /// The next 64-bit hash, or `None` once `count` outputs were produced.
    pub fn next(&mut self) -> (r: Option<u64>)
        ensures
            final(self).h1 == old(self).h1,
            final(self).h2 == old(self).h2,
            final(self).count == old(self).count,
            old(self).i >= old(self).count ==> r is None && final(self).i == old(self).i,
            old(self).i < old(self).count ==> r == Some(
                double_hash(old(self).h1, old(self).h2, old(self).i as int),
            ) && final(self).i == old(self).i + 1,
    {
        if self.i >= self.count {
            return None;
        }
        let r = nth_hash(self.h1, self.h2, self.i);
        self.i = self.i + 1;
        Some(r)
    }
}

/// Computes `double_hash(h1, h2, i)` without overflow.
fn nth_hash(h1: u64, h2: u64, i: u32) -> (r: u64)
    ensures
        r == double_hash(h1, h2, i as int),
{
    if i == 0 {
        h1
    } else if i == 1 {
        h2
    } else {
        proof {
            assert((h1 as int) + (i as int) * (h2 as int) < 0x1_0000_0000_0000_0000_0000_0000)
                by (nonlinear_arith)
                requires
                    h1 <= 0xffff_ffff_ffff_ffff,
                    h2 <= 0xffff_ffff_ffff_ffff,
                    i <= 0xffff_ffff,
            ;
        }
        let wide: u128 = (h1 as u128) + (i as u128) * (h2 as u128);
        (wide % 0x1_0000_0000_0000_0000) as u64
    }
}

/// The cell indices that `item` selects in an `n`-cell table, in hash order.
pub fn hash_indexes(item: &[u8], k: u32, s1: u64, s2: u64, n: u64) -> (r: Vec<usize>)
    requires
        1 <= n <= usize::MAX,
    ensures
        r.len() == k,
        forall|j: int|
            0 <= j < k ==> r@[j] == cell_index(s1, s2, item@, j, n as int) && r@[j] < n,
{
    let mut it = HashIter::from(item, k, s1, s2);
    let mut r: Vec<usize> = Vec::new();
    loop
        invariant
            it.count == k,
            it.h1 == sip13_of(s1, HASH_KEY_ONE, item@),
            it.h2 == sip13_of(s2, HASH_KEY_TWO, item@),
            it.i == r.len(),
            r.len() <= k,
            1 <= n <= usize::MAX,
            forall|j: int|
                0 <= j < r.len() ==> r@[j] == cell_index(s1, s2, item@, j, n as int) && r@[j]
                    < n,
        decreases k - r.len(),
    {
        match it.next() {
            Some(h) => {
                let idx = (h % n) as usize;
                r.push(idx);
            },
            None => {
                return r;
            },
        }
    }
}

} // verus!
