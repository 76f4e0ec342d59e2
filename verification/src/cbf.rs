//! Counting Bloom filter keyed by two seeds.
//!
//! Each inserted element increments the `k` cells its hashes select; the
//! model states that every counter is exactly the summed incidence of the
//! inserted multiset on that cell, so the filter is independent of the
//! insertion order.  Counter saturation is a fatal condition: `insert`
//! demands room (`can_insert`), which callers must check.

use vstd::prelude::*;

use crate::hashing::{
    cell_incidence, cell_index, count_occurrences, hash_indexes, lemma_count_is_incidence,
    lemma_incidence_monotone, lemma_incidence_positive, random_seed,
};
use crate::seqsum::{lemma_weight_sum_insert, weight_sum};
use crate::valuevec::ValueVec;

verus! {

use vstd::multiset::Multiset;

/// The weight an element adds to cell `c` of an `n`-cell filter with `k`
/// hashes keyed by `s1`, `s2`.
pub open spec fn cbf_weight(s1: u64, s2: u64, k: nat, n: int, c: int) -> spec_fn(Seq<u8>) -> int {
    |e: Seq<u8>| cell_incidence(s1, s2, e, k, n, c)
}

/// A counting Bloom filter over byte-string elements.
pub struct CountingBloomFilter {
    /// The packed counters, one per cell.
    pub counters: ValueVec,
    /// Number of cells.
    pub num_entries: u64,
    /// Number of hashes per element.
    pub num_hashes: u32,
    /// Seed of the first keyed hasher.
    pub seed_one: u64,
    /// Seed of the second keyed hasher.
    pub seed_two: u64,
    /// The multiset of inserted elements (model only).
    pub elems: Ghost<Multiset<Seq<u8>>>,
}

impl CountingBloomFilter {
    /// Every counter is the summed incidence of the inserted multiset.
    pub open spec fn wf(self) -> bool {
        &&& self.counters.wf()
        &&& self.counters.count == self.num_entries
        &&& 1 <= self.num_entries <= usize::MAX
        &&& 1 <= self.num_hashes
        &&& forall|c: int|
            0 <= c < self.num_entries ==> #[trigger] self.counters@[c] == weight_sum(
                self.elems@,
                cbf_weight(self.seed_one, self.seed_two, self.num_hashes as nat,
                self.num_entries as int, c),
            ) && self.counters@[c] <= self.counters.mask
    }

    /// Same shape: cell count, counter width, hash count and seeds.
    pub open spec fn same_shape(self, other: CountingBloomFilter) -> bool {
        self.num_entries == other.num_entries && self.num_hashes == other.num_hashes
            && self.seed_one == other.seed_one && self.seed_two == other.seed_two
            && self.counters.bits_per_val == other.counters.bits_per_val
    }

    /// Value equality as `equals` decides it: same shape and counters.
    pub open spec fn spec_equals(self, other: CountingBloomFilter) -> bool {
        self.same_shape(other) && self.counters@ == other.counters@
    }

    /// A filter with the given seeds; deterministic.
    pub fn new_with_seeds(
        bits_per_entry: usize,
        num_entries: usize,
        num_hashes: u32,
        seed_one: u64,
        seed_two: u64,
    ) -> (r: CountingBloomFilter)
        requires
            1 <= bits_per_entry <= 32,
            1 <= num_entries,
            num_entries * bits_per_entry + 31 <= usize::MAX,
            1 <= num_hashes,
        ensures
            r.wf(),
            r.elems@ == Multiset::<Seq<u8>>::empty(),
            r.num_entries == num_entries,
            r.num_hashes == num_hashes,
            r.seed_one == seed_one,
            r.seed_two == seed_two,
            r.counters.bits_per_val == bits_per_entry,
    {
        let counters = ValueVec::new(bits_per_entry, num_entries);
        let r = CountingBloomFilter {
            counters,
            num_entries: num_entries as u64,
            num_hashes,
            seed_one,
            seed_two,
            elems: Ghost(Multiset::empty()),
        };
        proof {
            broadcast use vstd::multiset::group_multiset_axioms;

            assert(Multiset::<Seq<u8>>::empty().len() == 0);
        }
        r
    }

    /// A filter with freshly drawn random seeds.
    pub fn new(bits_per_entry: usize, num_entries: usize, num_hashes: u32) -> (r:
        CountingBloomFilter)
        requires
            1 <= bits_per_entry <= 32,
            1 <= num_entries,
            num_entries * bits_per_entry + 31 <= usize::MAX,
            1 <= num_hashes,
        ensures
            r.wf(),
            r.elems@ == Multiset::<Seq<u8>>::empty(),
            r.num_entries == num_entries,
            r.num_hashes == num_hashes,
            r.counters.bits_per_val == bits_per_entry,
    {
        let s1 = random_seed();
        let s2 = random_seed();
        CountingBloomFilter::new_with_seeds(bits_per_entry, num_entries, num_hashes, s1, s2)
    }

    /// A filter of the same shape and seeds with all counters zero.
    pub fn empty_clone(&self) -> (r: CountingBloomFilter)
        requires
            self.wf(),
        ensures
            r.wf(),
            r.elems@ == Multiset::<Seq<u8>>::empty(),
            self.same_shape(r),
    {
        proof {
            assert(self.counters.count * self.counters.bits_per_val + 31 <= usize::MAX);
        }
        CountingBloomFilter::new_with_seeds(
            self.counters.bits_per_val(),
            self.counters.num_vals(),
            self.num_hashes,
            self.seed_one,
            self.seed_two,
        )
    }

    /// The packed counters.
    pub fn counters(&self) -> (r: &ValueVec)
        ensures
            r == self.counters,
    {
        &self.counters
    }

    /// Mutable access to the packed counters.  Well-formedness is the
    /// caller's burden afterwards.
    pub fn counters_mut(&mut self) -> (r: &mut ValueVec)
        ensures
            *r == old(self).counters,
            final(self).counters == *final(r),
            final(self).num_entries == old(self).num_entries,
            final(self).num_hashes == old(self).num_hashes,
            final(self).seed_one == old(self).seed_one,
            final(self).seed_two == old(self).seed_two,
            final(self).elems == old(self).elems,
    {
        &mut self.counters
    }

    /// Number of cells.
    pub fn num_entries(&self) -> (r: u64)
        ensures
            r == self.num_entries,
    {
        self.num_entries
    }

    /// Number of hashes per element.
    pub fn num_hashes(&self) -> (r: u32)
        ensures
            r == self.num_hashes,
    {
        self.num_hashes
    }

    /// Value equality over shape, seeds and counter values.
    pub fn equals(&self, other: &CountingBloomFilter) -> (r: bool)
        requires
            self.counters.wf(),
            self.counters.count == self.num_entries,
            other.counters.wf(),
            other.counters.count == other.num_entries,
        ensures
            r == self.spec_equals(*other),
    {
        if self.num_entries != other.num_entries || self.num_hashes != other.num_hashes
            || self.seed_one != other.seed_one || self.seed_two != other.seed_two
            || self.counters.bits_per_val() != other.counters.bits_per_val() {
            return false;
        }
        let n = self.counters.num_vals();
        let mut c: usize = 0;
        while c < n
            invariant
                self.counters.wf(),
                self.counters.count == self.num_entries,
                other.counters.wf(),
                other.counters.count == other.num_entries,
                n == self.counters.count,
                self.counters.count == other.counters.count,
                c <= n,
                forall|t: int| 0 <= t < c ==> self.counters@[t] == other.counters@[t],
            decreases n - c,
        {
            if self.counters.get(c) != other.counters.get(c) {
                return false;
            }
            c = c + 1;
        }
        proof {
            assert(self.counters@ =~= other.counters@);
        }
        true
    }

    /// The cell indices of `item`, in hash order.
    pub fn indexes(&self, item: &[u8]) -> (r: Vec<usize>)
        requires
            self.wf(),
        ensures
            r@.len() == self.num_hashes,
            forall|j: int|
                0 <= j < r@.len() ==> r@[j] == cell_index(self.seed_one, self.seed_two, item@, j,
                self.num_entries as int) && r@[j] < self.num_entries,
    {
        hash_indexes(item, self.num_hashes, self.seed_one, self.seed_two, self.num_entries)
    }

    /// Whether all of `item`'s cells are nonzero: no false negatives, and
    /// false positives only from colliding elements.
    pub open spec fn spec_contains(self, e: Seq<u8>) -> bool {
        forall|j: int|
            0 <= j < self.num_hashes ==> self.counters@[cell_index(self.seed_one, self.seed_two, e,
            j, self.num_entries as int)] > 0
    }

    /// Whether `item` may have been inserted (no false negatives).
    pub fn contains(&self, item: &[u8]) -> (r: bool)
        requires
            self.wf(),
        ensures
            r == self.spec_contains(item@),
    {
        let idxs = self.indexes(item);
        let mut j: usize = 0;
        while j < idxs.len()
            invariant
                self.wf(),
                idxs@.len() == self.num_hashes,
                forall|t: int|
                    0 <= t < idxs@.len() ==> idxs@[t] == cell_index(self.seed_one, self.seed_two,
                    item@, t, self.num_entries as int) && idxs@[t] < self.num_entries,
                j <= idxs@.len(),
                forall|t: int|
                    0 <= t < j ==> self.counters@[cell_index(self.seed_one, self.seed_two, item@,
                    t, self.num_entries as int)] > 0,
            decreases idxs@.len() - j,
        {
            if self.counters.get(idxs[j]) == 0 {
                return false;
            }
            j = j + 1;
        }
        true
    }

    /// Whether `item` can be inserted without saturating a counter.
    pub open spec fn spec_can_insert(self, e: Seq<u8>) -> bool {
        forall|c: int|
            0 <= c < self.num_entries ==> #[trigger] self.counters@[c] + cell_incidence(
                self.seed_one,
                self.seed_two,
                e,
                self.num_hashes as nat,
                self.num_entries as int,
                c,
            ) <= self.counters.mask
    }

    /// Checks that inserting `item` saturates no counter.  Callers must
    /// test this before `insert`; saturation is a fatal configuration
    /// error.
    pub fn can_insert(&self, item: &[u8]) -> (r: bool)
        requires
            self.wf(),
        ensures
            r == self.spec_can_insert(item@),
    {
        let idxs = self.indexes(item);
        let ghost s1 = self.seed_one;
        let ghost s2 = self.seed_two;
        let ghost k = self.num_hashes as nat;
        let ghost n = self.num_entries as int;
        let mut j: usize = 0;
        while j < idxs.len()
            invariant
                self.wf(),
                idxs@.len() == self.num_hashes,
                s1 == self.seed_one,
                s2 == self.seed_two,
                k == self.num_hashes as nat,
                n == self.num_entries as int,
                forall|t: int|
                    0 <= t < idxs@.len() ==> idxs@[t] == cell_index(s1, s2, item@, t, n)
                        && idxs@[t] < self.num_entries,
                j <= idxs@.len(),
                forall|t: int|
                    0 <= t < j ==> self.counters@[idxs@[t] as int] + cell_incidence(
                        s1,
                        s2,
                        item@,
                        k,
                        n,
                        #[trigger] idxs@[t] as int,
                    ) <= self.counters.mask,
            decreases idxs@.len() - j,
        {
            let c = idxs[j];
            let occ = count_occurrences(&idxs, c);
            proof {
                lemma_count_is_incidence(idxs@, s1, s2, item@, k, n, c);
            }
            let cur = self.counters.get(c);
            if occ > self.counters.max_value() as usize
                || cur > self.counters.max_value() - (occ as u32) {
                proof {
                    assert(!self.spec_can_insert(item@)) by {
                        assert(self.counters@[c as int] + cell_incidence(s1, s2, item@, k, n,
                            c as int) > self.counters.mask);
                    };
                }
                return false;
            }
            j = j + 1;
        }
        proof {
            assert forall|c: int| 0 <= c < self.num_entries implies self.counters@[c]
                + cell_incidence(s1, s2, item@, k, n, c) <= self.counters.mask by {
                let inc = cell_incidence(s1, s2, item@, k, n, c);
                lemma_incidence_monotone(s1, s2, item@, 0, k, n, c);
                if inc > 0 {
                    lemma_incidence_positive(s1, s2, item@, k, n, c);
                    let j2 = choose|j2: int| 0 <= j2 < k && #[trigger] cell_index(s1, s2, item@,
                        j2, n) == c;
                    assert(idxs@[j2] as int == c);
                }
            }
        }
        true
    }

    /// Inserts an item; returns whether every cell of the item was already
    /// nonzero (i.e. the item may have been present).
    pub fn insert(&mut self, item: &[u8]) -> (r: bool)
        requires
            old(self).wf(),
            old(self).spec_can_insert(item@),
        ensures
            final(self).wf(),
            old(self).same_shape(*final(self)),
            final(self).counters.mask == old(self).counters.mask,
            final(self).elems@ == old(self).elems@.insert(item@),
            r == old(self).spec_contains(item@),
    {
        let present = self.contains(item);
        let idxs = self.indexes(item);
        let ghost s1 = self.seed_one;
        let ghost s2 = self.seed_two;
        let ghost k = self.num_hashes as nat;
        let ghost n = self.num_entries as int;
        let ghost m0 = self.elems@;
        let ghost c0 = self.counters@;
        let mut j: usize = 0;
        while j < idxs.len()
            invariant
                idxs@.len() == k,
                s1 == self.seed_one,
                s2 == self.seed_two,
                k == self.num_hashes as nat,
                n == self.num_entries as int,
                1 <= self.num_hashes,
                1 <= self.num_entries <= usize::MAX,
                self.elems@ == m0,
                self.counters.wf(),
                self.counters.count == self.num_entries,
                self.counters.mask == old(self).counters.mask,
                self.counters.bits_per_val == old(self).counters.bits_per_val,
                self.num_entries == old(self).num_entries,
                self.num_hashes == old(self).num_hashes,
                self.seed_one == old(self).seed_one,
                self.seed_two == old(self).seed_two,
                self.elems == old(self).elems,
                forall|t: int|
                    0 <= t < idxs@.len() ==> idxs@[t] == cell_index(s1, s2, item@, t, n)
                        && idxs@[t] < self.num_entries,
                j <= idxs@.len(),
                forall|c: int|
                    0 <= c < n ==> #[trigger] self.counters@[c] == c0[c] + cell_incidence(s1, s2,
                    item@, j as nat, n, c),
                forall|c: int|
                    0 <= c < n ==> c0[c] + cell_incidence(s1, s2, item@, k, n, c)
                        <= self.counters.mask,
            decreases idxs@.len() - j,
        {
            let c = idxs[j];
            let cur = self.counters.get(c);
            proof {
                lemma_incidence_monotone(s1, s2, item@, (j + 1) as nat, k, n, c as int);
                assert(cell_incidence(s1, s2, item@, (j + 1) as nat, n, c as int)
                    == cell_incidence(s1, s2, item@, j as nat, n, c as int) + 1);
            }
            self.counters.set(c, cur + 1);
            proof {
                assert forall|c2: int| 0 <= c2 < n implies #[trigger] self.counters@[c2] == c0[c2]
                    + cell_incidence(s1, s2, item@, (j + 1) as nat, n, c2) by {
                    if c2 != c as int {
                        assert(cell_index(s1, s2, item@, j as int, n) != c2);
                        assert(cell_incidence(s1, s2, item@, (j + 1) as nat, n, c2)
                            == cell_incidence(s1, s2, item@, j as nat, n, c2));
                    }
                }
            }
            j = j + 1;
        }
        proof {
            self.elems@ = m0.insert(item@);
            assert forall|c: int| 0 <= c < n implies #[trigger] self.counters@[c] == weight_sum(
                self.elems@,
                cbf_weight(s1, s2, k, n, c),
            ) && self.counters@[c] <= self.counters.mask by {
                let w = cbf_weight(s1, s2, k, n, c);
                lemma_weight_sum_insert(m0, item@, w);
            }
        }
        present
    }
}

/// Law: a counting Bloom filter is a function of its shape, seeds and the
/// *multiset* of inserted elements, so filters built by inserting any two
/// permutations of the same batch are equal.
pub proof fn lemma_cbf_order_invariant(a: CountingBloomFilter, b: CountingBloomFilter)
    requires
        a.wf(),
        b.wf(),
        a.same_shape(b),
        a.counters.count == a.num_entries,
        b.counters.count == b.num_entries,
        a.elems@ == b.elems@,
    ensures
        a.spec_equals(b),
{
    assert(a.counters@ =~= b.counters@) by {
        assert forall|c: int| 0 <= c < a.num_entries implies a.counters@[c] == b.counters@[c] by {
            assert(a.counters@[c] == weight_sum(
                a.elems@,
                cbf_weight(a.seed_one, a.seed_two, a.num_hashes as nat, a.num_entries as int, c),
            ));
        }
    };
}

} // verus!
