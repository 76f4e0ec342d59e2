//! Invertible Bloom lookup table.
//!
//! The table stores 32-bit items (the DJB values of elements).  Each item
//! increments the counters of its `k` cells modulo `2^w` and adds itself to
//! each cell's data word modulo `2^32`; `remove` undoes both.  The model
//! keeps the multisets of inserted and removed items, and states every cell
//! as the (wrapped) difference of the two incidence sums, so the table is
//! independent of operation order.  Peeling (`eliminate_elems`) repeatedly
//! removes the item named by any cell with counter exactly 1.

use vstd::prelude::*;

use crate::hashing::{cell_incidence, cell_index, hash_indexes, random_seed};
use crate::seqsum::{lemma_weight_sum_insert, weight_sum};
use crate::valuevec::ValueVec;

verus! {

use vstd::bytes::spec_u32_to_le_bytes;
use vstd::multiset::Multiset;

/// Multiplier used to derive the second hash seed from the table seed.
pub const SEED_MIX: u64 = 0x9e3779b97f4a7c15;

/// The modulus of the data words.
pub const DATA_MODULUS: u64 = 0x1_0000_0000;

/// The byte string an item is hashed as.
pub open spec fn item_bytes(u: u32) -> Seq<u8> {
    spec_u32_to_le_bytes(u)
}

/// The number of times item `u` lands on cell `c`.
pub open spec fn iblt_count_weight(s1: u64, s2: u64, k: nat, n: int, c: int) -> spec_fn(u32) -> int {
    |u: u32| cell_incidence(s1, s2, item_bytes(u), k, n, c)
}

/// The amount item `u` adds to the data word of cell `c`.
pub open spec fn iblt_data_weight(s1: u64, s2: u64, k: nat, n: int, c: int) -> spec_fn(u32) -> int {
    |u: u32| (u as int) * cell_incidence(s1, s2, item_bytes(u), k, n, c)
}

/// An invertible Bloom lookup table over 32-bit items.
pub struct InvBloomLookupTable {
    /// The packed cell counters, wrapping at their width.
    pub counters: ValueVec,
    /// Per-cell sums of the inserted items, wrapping at 32 bits.
    pub data: Vec<u32>,
    /// Number of cells.
    pub num_entries: u64,
    /// Number of hashes per item.
    pub num_hashes: u32,
    /// The seed the hash seeds derive from.
    pub seed: u64,
    /// Seed of the first keyed hasher.
    pub seed_one: u64,
    /// Seed of the second keyed hasher.
    pub seed_two: u64,
    /// The multiset of inserted items (model only).
    pub ins: Ghost<Multiset<u32>>,
    /// The multiset of removed items (model only).
    pub outs: Ghost<Multiset<u32>>,
}

impl InvBloomLookupTable {
    /// Every counter and data word is the wrapped difference of the
    /// inserted and removed incidence sums.
    pub open spec fn wf(self) -> bool {
        &&& self.counters.wf()
        &&& self.counters.count == self.num_entries
        &&& self.data@.len() == self.num_entries
        &&& 1 <= self.num_entries <= usize::MAX
        &&& 1 <= self.num_hashes
        &&& forall|c: int|
            0 <= c < self.num_entries ==> #[trigger] self.counters@[c] == (weight_sum(
                self.ins@,
                iblt_count_weight(self.seed_one, self.seed_two, self.num_hashes as nat,
                self.num_entries as int, c),
            ) - weight_sum(
                self.outs@,
                iblt_count_weight(self.seed_one, self.seed_two, self.num_hashes as nat,
                self.num_entries as int, c),
            )) % (self.counters.mask + 1)
        &&& forall|c: int|
            0 <= c < self.num_entries ==> #[trigger] self.data@[c] == (weight_sum(
                self.ins@,
                iblt_data_weight(self.seed_one, self.seed_two, self.num_hashes as nat,
                self.num_entries as int, c),
            ) - weight_sum(
                self.outs@,
                iblt_data_weight(self.seed_one, self.seed_two, self.num_hashes as nat,
                self.num_entries as int, c),
            )) % (DATA_MODULUS as int)
    }

    /// Same shape: cell count, counter width, hash count and hash seeds.
    pub open spec fn same_shape(self, other: InvBloomLookupTable) -> bool {
        self.num_entries == other.num_entries && self.num_hashes == other.num_hashes
            && self.seed_one == other.seed_one && self.seed_two == other.seed_two
            && self.counters.bits_per_val == other.counters.bits_per_val
    }

    /// Value equality as `equals` decides it.
    pub open spec fn spec_equals(self, other: InvBloomLookupTable) -> bool {
        self.same_shape(other) && self.counters@ == other.counters@ && self.data@ == other.data@
    }

    /// A table seeded from `seed`; deterministic.
    pub fn new_with_seed(
        seed: u64,
        bits_per_entry: usize,
        num_entries: usize,
        num_hashes: u32,
    ) -> (r: InvBloomLookupTable)
        requires
            1 <= bits_per_entry <= 32,
            1 <= num_entries,
            num_entries * bits_per_entry + 31 <= usize::MAX,
            1 <= num_hashes,
        ensures
            r.wf(),
            r.ins@ == Multiset::<u32>::empty(),
            r.outs@ == Multiset::<u32>::empty(),
            r.num_entries == num_entries,
            r.num_hashes == num_hashes,
            r.seed == seed,
            r.seed_one == seed,
            r.seed_two == ((seed * SEED_MIX + 1) % 0x1_0000_0000_0000_0000) as u64,
            r.counters.bits_per_val == bits_per_entry,
    {
        let counters = ValueVec::new(bits_per_entry, num_entries);
        let data = zero_data(num_entries);
        let seed_two = (((seed as u128) * (SEED_MIX as u128) + 1) % 0x1_0000_0000_0000_0000) as u64;
        let r = InvBloomLookupTable {
            counters,
            data,
            num_entries: num_entries as u64,
            num_hashes,
            seed,
            seed_one: seed,
            seed_two,
            ins: Ghost(Multiset::empty()),
            outs: Ghost(Multiset::empty()),
        };
        proof {
            broadcast use vstd::multiset::group_multiset_axioms;

            assert(Multiset::<u32>::empty().len() == 0);
            vstd::arithmetic::div_mod::lemma_small_mod(0nat, (r.counters.mask + 1) as nat);
            vstd::arithmetic::div_mod::lemma_small_mod(0nat, DATA_MODULUS as nat);
        }
        r
    }

    /// A table with a freshly drawn random seed.
    pub fn new(bits_per_entry: usize, num_entries: usize, num_hashes: u32) -> (r:
        InvBloomLookupTable)
        requires
            1 <= bits_per_entry <= 32,
            1 <= num_entries,
            num_entries * bits_per_entry + 31 <= usize::MAX,
            1 <= num_hashes,
        ensures
            r.wf(),
            r.ins@ == Multiset::<u32>::empty(),
            r.outs@ == Multiset::<u32>::empty(),
            r.num_entries == num_entries,
            r.num_hashes == num_hashes,
            r.counters.bits_per_val == bits_per_entry,
    {
        let seed = random_seed();
        InvBloomLookupTable::new_with_seed(seed, bits_per_entry, num_entries, num_hashes)
    }

    /// A table of the same shape and seeds with all cells zero.
    pub fn empty_clone(&self) -> (r: InvBloomLookupTable)
        requires
            self.counters.wf(),
            self.counters.count == self.num_entries,
            1 <= self.num_entries <= usize::MAX,
            1 <= self.num_hashes,
        ensures
            r.wf(),
            r.ins@ == Multiset::<u32>::empty(),
            r.outs@ == Multiset::<u32>::empty(),
            self.same_shape(r),
            r.counters.mask == mask_for(self.counters.bits_per_val as u32),
    {
        proof {
            assert(self.counters.count * self.counters.bits_per_val + 31 <= usize::MAX);
        }
        let mut r = InvBloomLookupTable::new_with_seed(
            self.seed,
            self.counters.bits_per_val(),
            self.counters.num_vals(),
            self.num_hashes,
        );
        r.seed_one = self.seed_one;
        r.seed_two = self.seed_two;
        proof {
            broadcast use vstd::multiset::group_multiset_axioms;

            assert(Multiset::<u32>::empty().len() == 0);
            vstd::arithmetic::div_mod::lemma_small_mod(0nat, (r.counters.mask + 1) as nat);
            vstd::arithmetic::div_mod::lemma_small_mod(0nat, DATA_MODULUS as nat);
        }
        r
    }

    /// The per-cell data words.
    pub fn data(&self) -> (r: &Vec<u32>)
        ensures
            r == self.data,
    {
        &self.data
    }

    /// Mutable access to the data words.  Well-formedness is the caller's
    /// burden afterwards.
    pub fn data_mut(&mut self) -> (r: &mut Vec<u32>)
        ensures
            *r == old(self).data,
            final(self).data == *final(r),
            final(self).counters == old(self).counters,
            final(self).num_entries == old(self).num_entries,
            final(self).num_hashes == old(self).num_hashes,
            final(self).seed == old(self).seed,
            final(self).seed_one == old(self).seed_one,
            final(self).seed_two == old(self).seed_two,
    {
        &mut self.data
    }

    /// The packed counters.
    pub fn counters(&self) -> (r: &ValueVec)
        ensures
            r == self.counters,
    {
        &self.counters
    }

    /// Mutable access to the packed counters.  Well-formedness is the
    /// caller's burden afterwards.
    pub fn counters_mut(&mut self) -> (r: &mut ValueVec)
        ensures
            *r == old(self).counters,
            final(self).counters == *final(r),
            final(self).data == old(self).data,
            final(self).num_entries == old(self).num_entries,
            final(self).num_hashes == old(self).num_hashes,
            final(self).seed == old(self).seed,
            final(self).seed_one == old(self).seed_one,
            final(self).seed_two == old(self).seed_two,
    {
        &mut self.counters
    }

    /// Number of cells.
    pub fn num_entries(&self) -> (r: u64)
        ensures
            r == self.num_entries,
    {
        self.num_entries
    }

    /// Number of hashes per item.
    pub fn num_hashes(&self) -> (r: u32)
        ensures
            r == self.num_hashes,
    {
        self.num_hashes
    }

    /// The seed the table was built from.
    pub fn seed(&self) -> (r: u64)
        ensures
            r == self.seed,
    {
        self.seed
    }

    /// Value equality over shape, hash seeds, counters and data.
    pub fn equals(&self, other: &InvBloomLookupTable) -> (r: bool)
        requires
            self.counters.wf(),
            self.counters.count == self.num_entries,
            self.data@.len() == self.num_entries,
            other.counters.wf(),
            other.counters.count == other.num_entries,
            other.data@.len() == other.num_entries,
        ensures
            r == self.spec_equals(*other),
    {
        if self.num_entries != other.num_entries || self.num_hashes != other.num_hashes
            || self.seed_one != other.seed_one || self.seed_two != other.seed_two
            || self.counters.bits_per_val() != other.counters.bits_per_val() {
            return false;
        }
        let n = self.counters.num_vals();
        let mut c: usize = 0;
        while c < n
            invariant
                self.counters.wf(),
                self.counters.count == self.num_entries,
                other.counters.wf(),
                other.counters.count == other.num_entries,
                n == self.counters.count,
                self.counters.count == other.counters.count,
                self.data@.len() == other.data@.len(),
                n == self.data@.len(),
                c <= n,
                forall|t: int| 0 <= t < c ==> self.counters@[t] == other.counters@[t],
                forall|t: int| 0 <= t < c ==> self.data@[t] == other.data@[t],
            decreases n - c,
        {
            if self.counters.get(c) != other.counters.get(c) {
                return false;
            }
            if self.data[c] != other.data[c] {
                return false;
            }
            c = c + 1;
        }
        proof {
            assert(self.counters@ =~= other.counters@);
            assert(self.data@ =~= other.data@);
        }
        true
    }

    /// The cell indices of `item`, in hash order.
    pub fn indexes(&self, item: u32) -> (r: Vec<usize>)
        requires
            self.wf(),
        ensures
            r@.len() == self.num_hashes,
            forall|j: int|
                0 <= j < r@.len() ==> r@[j] == cell_index(self.seed_one, self.seed_two,
                item_bytes(item), j, self.num_entries as int) && r@[j] < self.num_entries,
    {
        let bytes = vstd::bytes::u32_to_le_bytes(item);
        hash_indexes(
            bytes.as_slice(),
            self.num_hashes,
            self.seed_one,
            self.seed_two,
            self.num_entries,
        )
    }

    /// Whether all of `item`'s cells have nonzero counters.
    pub open spec fn spec_contains(self, item: u32) -> bool {
        forall|j: int|
            0 <= j < self.num_hashes ==> self.counters@[cell_index(self.seed_one, self.seed_two,
            item_bytes(item), j, self.num_entries as int)] > 0
    }

    /// Whether `item` may be in the table (no false negatives).
    pub fn contains(&self, item: u32) -> (r: bool)
        requires
            self.wf(),
        ensures
            r == self.spec_contains(item),
    {
        let idxs = self.indexes(item);
        let mut j: usize = 0;
        while j < idxs.len()
            invariant
                self.wf(),
                idxs@.len() == self.num_hashes,
                forall|t: int|
                    0 <= t < idxs@.len() ==> idxs@[t] == cell_index(self.seed_one, self.seed_two,
                    item_bytes(item), t, self.num_entries as int) && idxs@[t] < self.num_entries,
                j <= idxs@.len(),
                forall|t: int|
                    0 <= t < j ==> self.counters@[cell_index(self.seed_one, self.seed_two,
                    item_bytes(item), t, self.num_entries as int)] > 0,
            decreases idxs@.len() - j,
        {
            if self.counters.get(idxs[j]) == 0 {
                return false;
            }
            j = j + 1;
        }
        true
    }

    /// Inserts an item, wrapping counters at their width and data at 32
    /// bits; returns whether every cell of the item was already nonzero.
    pub fn insert(&mut self, item: u32) -> (r: bool)
        requires
            old(self).wf(),
        ensures
            final(self).wf(),
            old(self).same_shape(*final(self)),
            final(self).counters.mask == old(self).counters.mask,
            final(self).seed == old(self).seed,
            final(self).data@.len() == old(self).data@.len(),
            final(self).ins@ == old(self).ins@.insert(item),
            final(self).outs@ == old(self).outs@,
            r == old(self).spec_contains(item),
    {
        let present = self.contains(item);
        let idxs = self.indexes(item);
        let ghost s1 = self.seed_one;
        let ghost s2 = self.seed_two;
        let ghost k = self.num_hashes as nat;
        let ghost n = self.num_entries as int;
        let ghost i0 = self.ins@;
        let ghost o0 = self.outs@;
        let ghost c0 = self.counters@;
        let ghost d0 = self.data@;
        let ghost snap = *self;
        proof {
            lemma_cell_zero_incidence(s1, s2, item_bytes(item), n);
            crate::valuevec::lemma_mask_of_positive(self.counters.bits_per_val as u32);
            assert forall|c: int| 0 <= c < n implies #[trigger] self.counters@[c] == (c0[c]
                + cell_incidence(s1, s2, item_bytes(item), 0, n, c)) % (self.counters.mask + 1) by {
                vstd::arithmetic::div_mod::lemma_small_mod(
                    c0[c] as nat,
                    (self.counters.mask + 1) as nat,
                );
            }
            assert forall|c: int| 0 <= c < n implies #[trigger] self.data@[c] == (d0[c] + (
            item as int) * cell_incidence(s1, s2, item_bytes(item), 0, n, c)) % (
            DATA_MODULUS as int) by {
                vstd::arithmetic::div_mod::lemma_small_mod(d0[c] as nat, DATA_MODULUS as nat);
                let inc0 = cell_incidence(s1, s2, item_bytes(item), 0, n, c);
                assert((item as int) * inc0 == 0) by (nonlinear_arith)
                    requires
                        inc0 == 0,
                ;
            }
        }
        let mut j: usize = 0;
        while j < idxs.len()
            invariant
                idxs@.len() == k,
                s1 == self.seed_one,
                s2 == self.seed_two,
                k == self.num_hashes as nat,
                n == self.num_entries as int,
                1 <= self.num_hashes,
                1 <= self.num_entries <= usize::MAX,
                self.ins@ == i0,
                self.outs@ == o0,
                self.counters.wf(),
                self.counters.count == self.num_entries,
                self.data@.len() == self.num_entries,
                c0.len() == n,
                d0.len() == n,
                self.counters.mask == snap.counters.mask,
                self.counters.bits_per_val == snap.counters.bits_per_val,
                self.num_entries == snap.num_entries,
                self.num_hashes == snap.num_hashes,
                self.seed == snap.seed,
                self.seed_one == snap.seed_one,
                self.seed_two == snap.seed_two,
                c0 == snap.counters@,
                d0 == snap.data@,
                forall|t: int|
                    0 <= t < idxs@.len() ==> idxs@[t] == cell_index(s1, s2, item_bytes(item), t, n)
                        && idxs@[t] < self.num_entries,
                j <= idxs@.len(),
                forall|c: int|
                    0 <= c < n ==> #[trigger] self.counters@[c] == (c0[c] + cell_incidence(s1, s2,
                    item_bytes(item), j as nat, n, c)) % (self.counters.mask + 1),
                forall|c: int|
                    0 <= c < n ==> #[trigger] self.data@[c] == (d0[c] + (item as int)
                        * cell_incidence(s1, s2, item_bytes(item), j as nat, n, c)) % (
                    DATA_MODULUS as int),
            decreases idxs@.len() - j,
        {
            let ghost cm = self.counters.mask as int + 1;
            proof {
                crate::valuevec::lemma_mask_of_positive(self.counters.bits_per_val as u32);
            }
            let c = idxs[j];
            let cur = self.counters.get(c);
            let newc = if cur < self.counters.max_value() {
                cur + 1
            } else {
                0
            };
            proof {
                let base = c0[c as int] + cell_incidence(s1, s2, item_bytes(item), j as nat, n,
                    c as int);
                lemma_mod_step_up(base, cm);
                assert(cell_incidence(s1, s2, item_bytes(item), (j + 1) as nat, n, c as int)
                    == cell_incidence(s1, s2, item_bytes(item), j as nat, n, c as int) + 1);
            }
            self.counters.set(c, newc);
            let curd = self.data[c];
            let newd = (((curd as u64) + (item as u64)) % DATA_MODULUS) as u32;
            proof {
                let based = d0[c as int] + (item as int) * cell_incidence(s1, s2,
                    item_bytes(item), j as nat, n, c as int);
                lemma_mod_add_small(based, item as int, DATA_MODULUS as int);
                assert((item as int) * (cell_incidence(s1, s2, item_bytes(item), j as nat, n,
                    c as int) + 1) == (item as int) * cell_incidence(s1, s2, item_bytes(item),
                    j as nat, n, c as int) + item as int) by (nonlinear_arith);
            }
            self.data.set(c, newd);
            proof {
                assert forall|c2: int| 0 <= c2 < n implies #[trigger] self.counters@[c2] == (
                c0[c2] + cell_incidence(s1, s2, item_bytes(item), (j + 1) as nat, n, c2)) % (
                self.counters.mask + 1) by {
                    if c2 != c as int {
                        assert(cell_index(s1, s2, item_bytes(item), j as int, n) != c2);
                        assert(cell_incidence(s1, s2, item_bytes(item), (j + 1) as nat, n, c2)
                            == cell_incidence(s1, s2, item_bytes(item), j as nat, n, c2));
                    }
                }
                assert forall|c2: int| 0 <= c2 < n implies #[trigger] self.data@[c2] == (d0[c2]
                    + (item as int) * cell_incidence(s1, s2, item_bytes(item), (j + 1) as nat,
                n, c2)) % (DATA_MODULUS as int) by {
                    if c2 != c as int {
                        assert(cell_index(s1, s2, item_bytes(item), j as int, n) != c2);
                        assert(cell_incidence(s1, s2, item_bytes(item), (j + 1) as nat, n, c2)
                            == cell_incidence(s1, s2, item_bytes(item), j as nat, n, c2));
                    }
                }
            }
            j = j + 1;
        }
        proof {
            self.ins@ = i0.insert(item);
            assert forall|c: int| 0 <= c < n implies #[trigger] self.counters@[c] == (weight_sum(
                self.ins@,
                iblt_count_weight(s1, s2, k, n, c),
            ) - weight_sum(self.outs@, iblt_count_weight(s1, s2, k, n, c))) % (self.counters.mask
                + 1) by {
                let cw = iblt_count_weight(s1, s2, k, n, c);
                lemma_weight_sum_insert(i0, item, cw);
                lemma_mod_add_any(
                    weight_sum(i0, cw) - weight_sum(o0, cw),
                    cw(item),
                    self.counters.mask as int + 1,
                );
            }
            assert forall|c: int| 0 <= c < n implies #[trigger] self.data@[c] == (weight_sum(
                self.ins@,
                iblt_data_weight(s1, s2, k, n, c),
            ) - weight_sum(self.outs@, iblt_data_weight(s1, s2, k, n, c))) % (
            DATA_MODULUS as int) by {
                let dw = iblt_data_weight(s1, s2, k, n, c);
                lemma_weight_sum_insert(i0, item, dw);
                lemma_mod_add_any(
                    weight_sum(i0, dw) - weight_sum(o0, dw),
                    dw(item),
                    DATA_MODULUS as int,
                );
            }
        }
        present
    }

    /// Removes an item, wrapping counters and data downwards.
    pub fn remove(&mut self, item: u32)
        requires
            old(self).wf(),
        ensures
            final(self).wf(),
            old(self).same_shape(*final(self)),
            final(self).counters.mask == old(self).counters.mask,
            final(self).seed == old(self).seed,
            final(self).data@.len() == old(self).data@.len(),
            final(self).ins@ == old(self).ins@,
            final(self).outs@ == old(self).outs@.insert(item),
    {
        let idxs = self.indexes(item);
        let ghost s1 = self.seed_one;
        let ghost s2 = self.seed_two;
        let ghost k = self.num_hashes as nat;
        let ghost n = self.num_entries as int;
        let ghost i0 = self.ins@;
        let ghost o0 = self.outs@;
        let ghost c0 = self.counters@;
        let ghost d0 = self.data@;
        let ghost snap = *self;
        proof {
            lemma_cell_zero_incidence(s1, s2, item_bytes(item), n);
            crate::valuevec::lemma_mask_of_positive(self.counters.bits_per_val as u32);
            assert forall|c: int| 0 <= c < n implies #[trigger] self.counters@[c] == (c0[c]
                - cell_incidence(s1, s2, item_bytes(item), 0, n, c)) % (self.counters.mask + 1) by {
                vstd::arithmetic::div_mod::lemma_small_mod(
                    c0[c] as nat,
                    (self.counters.mask + 1) as nat,
                );
            }
            assert forall|c: int| 0 <= c < n implies #[trigger] self.data@[c] == (d0[c] - (
            item as int) * cell_incidence(s1, s2, item_bytes(item), 0, n, c)) % (
            DATA_MODULUS as int) by {
                vstd::arithmetic::div_mod::lemma_small_mod(d0[c] as nat, DATA_MODULUS as nat);
                let inc0 = cell_incidence(s1, s2, item_bytes(item), 0, n, c);
                assert((item as int) * inc0 == 0) by (nonlinear_arith)
                    requires
                        inc0 == 0,
                ;
            }
        }
        let mut j: usize = 0;
        while j < idxs.len()
            invariant
                idxs@.len() == k,
                s1 == self.seed_one,
                s2 == self.seed_two,
                k == self.num_hashes as nat,
                n == self.num_entries as int,
                1 <= self.num_hashes,
                1 <= self.num_entries <= usize::MAX,
                self.ins@ == i0,
                self.outs@ == o0,
                self.counters.wf(),
                self.counters.count == self.num_entries,
                self.data@.len() == self.num_entries,
                c0.len() == n,
                d0.len() == n,
                self.counters.mask == snap.counters.mask,
                self.counters.bits_per_val == snap.counters.bits_per_val,
                self.num_entries == snap.num_entries,
                self.num_hashes == snap.num_hashes,
                self.seed == snap.seed,
                self.seed_one == snap.seed_one,
                self.seed_two == snap.seed_two,
                c0 == snap.counters@,
                d0 == snap.data@,
                forall|t: int|
                    0 <= t < idxs@.len() ==> idxs@[t] == cell_index(s1, s2, item_bytes(item), t, n)
                        && idxs@[t] < self.num_entries,
                j <= idxs@.len(),
                forall|c: int|
                    0 <= c < n ==> #[trigger] self.counters@[c] == (c0[c] - cell_incidence(s1, s2,
                    item_bytes(item), j as nat, n, c)) % (self.counters.mask + 1),
                forall|c: int|
                    0 <= c < n ==> #[trigger] self.data@[c] == (d0[c] - (item as int)
                        * cell_incidence(s1, s2, item_bytes(item), j as nat, n, c)) % (
                    DATA_MODULUS as int),
            decreases idxs@.len() - j,
        {
            let ghost cm = self.counters.mask as int + 1;
            proof {
                crate::valuevec::lemma_mask_of_positive(self.counters.bits_per_val as u32);
            }
            let c = idxs[j];
            let cur = self.counters.get(c);
            let newc = if cur == 0 {
                self.counters.max_value()
            } else {
                cur - 1
            };
            proof {
                let base = c0[c as int] - cell_incidence(s1, s2, item_bytes(item), j as nat, n,
                    c as int);
                lemma_mod_step_down(base, cm);
                assert(cell_incidence(s1, s2, item_bytes(item), (j + 1) as nat, n, c as int)
                    == cell_incidence(s1, s2, item_bytes(item), j as nat, n, c as int) + 1);
            }
            self.counters.set(c, newc);
            let curd = self.data[c];
            let newd = (((curd as u64) + DATA_MODULUS - (item as u64)) % DATA_MODULUS) as u32;
            proof {
                let based = d0[c as int] - (item as int) * cell_incidence(s1, s2,
                    item_bytes(item), j as nat, n, c as int);
                lemma_mod_sub_small(based, item as int, DATA_MODULUS as int);
                assert((item as int) * (cell_incidence(s1, s2, item_bytes(item), j as nat, n,
                    c as int) + 1) == (item as int) * cell_incidence(s1, s2, item_bytes(item),
                    j as nat, n, c as int) + item as int) by (nonlinear_arith);
            }
            self.data.set(c, newd);
            proof {
                assert forall|c2: int| 0 <= c2 < n implies #[trigger] self.counters@[c2] == (
                c0[c2] - cell_incidence(s1, s2, item_bytes(item), (j + 1) as nat, n, c2)) % (
                self.counters.mask + 1) by {
                    if c2 != c as int {
                        assert(cell_index(s1, s2, item_bytes(item), j as int, n) != c2);
                        assert(cell_incidence(s1, s2, item_bytes(item), (j + 1) as nat, n, c2)
                            == cell_incidence(s1, s2, item_bytes(item), j as nat, n, c2));
                    }
                }
                assert forall|c2: int| 0 <= c2 < n implies #[trigger] self.data@[c2] == (d0[c2]
                    - (item as int) * cell_incidence(s1, s2, item_bytes(item), (j + 1) as nat,
                n, c2)) % (DATA_MODULUS as int) by {
                    if c2 != c as int {
                        assert(cell_index(s1, s2, item_bytes(item), j as int, n) != c2);
                        assert(cell_incidence(s1, s2, item_bytes(item), (j + 1) as nat, n, c2)
                            == cell_incidence(s1, s2, item_bytes(item), j as nat, n, c2));
                    }
                }
            }
            j = j + 1;
        }
        proof {
            self.outs@ = o0.insert(item);
            assert forall|c: int| 0 <= c < n implies #[trigger] self.counters@[c] == (weight_sum(
                self.ins@,
                iblt_count_weight(s1, s2, k, n, c),
            ) - weight_sum(self.outs@, iblt_count_weight(s1, s2, k, n, c))) % (self.counters.mask
                + 1) by {
                let cw = iblt_count_weight(s1, s2, k, n, c);
                lemma_weight_sum_insert(o0, item, cw);
                lemma_mod_sub_any(
                    weight_sum(i0, cw) - weight_sum(o0, cw),
                    cw(item),
                    self.counters.mask as int + 1,
                );
            }
            assert forall|c: int| 0 <= c < n implies #[trigger] self.data@[c] == (weight_sum(
                self.ins@,
                iblt_data_weight(s1, s2, k, n, c),
            ) - weight_sum(self.outs@, iblt_data_weight(s1, s2, k, n, c))) % (
            DATA_MODULUS as int) by {
                let dw = iblt_data_weight(s1, s2, k, n, c);
                lemma_weight_sum_insert(o0, item, dw);
                lemma_mod_sub_any(
                    weight_sum(i0, dw) - weight_sum(o0, dw),
                    dw(item),
                    DATA_MODULUS as int,
                );
            }
        }
    }

    /// Peels the table: repeatedly removes the item named by any cell whose
    /// counter is exactly 1, until a full pass removes nothing.
    ///
    /// On success the removed items are pairwise distinct (no item is
    /// peeled twice) and no cell with counter 1 remains: the removed set
    /// grew monotonically to a fixed point.  A table that is already at a
    /// fixed point peels nothing and is left unchanged.  `None` reports a
    /// corrupt table: a cell named an item that was already peeled.
    pub fn eliminate_elems(&mut self) -> (r: Option<Vec<u32>>)
        requires
            old(self).wf(),
        ensures
            final(self).wf(),
            old(self).same_shape(*final(self)),
            final(self).counters.mask == old(self).counters.mask,
            final(self).seed == old(self).seed,
            final(self).data@.len() == old(self).data@.len(),
            final(self).ins@ == old(self).ins@,
            match r {
                Some(removed) => {
                    &&& final(self).outs@ == old(self).outs@.add(removed@.to_multiset())
                    &&& removed@.no_duplicates()
                    &&& forall|c: int|
                        0 <= c < final(self).num_entries ==> #[trigger] final(self).counters@[c]
                            != 1
                },
                None => true,
            },
            (forall|c: int|
                0 <= c < old(self).num_entries ==> #[trigger] old(self).counters@[c] != 1) ==> (
            r matches Some(removed) && removed@.len() == 0 && *final(self) == *old(self)),
    {
        let mut removed: Vec<u32> = Vec::new();
        let ghost o0 = self.outs@;
        proof {
            broadcast use vstd::seq_lib::group_to_multiset_ensures;
            broadcast use vstd::multiset::group_multiset_axioms;

            assert(removed@.to_multiset() =~= Multiset::<u32>::empty());
            assert(o0.add(removed@.to_multiset()) =~= o0);
        }
        let mut fuel: u64 = 0x1_0000_0001;
        let n = self.counters.num_vals();
        while fuel > 0
            invariant
                self.wf(),
                old(self).same_shape(*self),
                self.counters.mask == old(self).counters.mask,
                self.seed == old(self).seed,
                self.data@.len() == old(self).data@.len(),
                self.ins@ == old(self).ins@,
                n == self.counters.count,
                n == self.num_entries,
                self.outs@ == old(self).outs@.add(removed@.to_multiset()),
                removed@.no_duplicates(),
                removed@.len() == 0 ==> *self == *old(self),
                (forall|c: int|
                    0 <= c < old(self).num_entries ==> #[trigger] old(self).counters@[c] != 1)
                    ==> removed@.len() == 0 && fuel == 0x1_0000_0001,
            decreases fuel,
        {
            let ghost snap = *self;
            let ghost removed_snap = removed@;
            let mut progressed = false;
            let mut i: usize = 0;
            while i < n
                invariant
                    self.wf(),
                    old(self).same_shape(*self),
                    self.counters.mask == old(self).counters.mask,
                    self.seed == old(self).seed,
                    self.data@.len() == old(self).data@.len(),
                    self.ins@ == old(self).ins@,
                    n == self.counters.count,
                    n == self.num_entries,
                    i <= n,
                    self.outs@ == old(self).outs@.add(removed@.to_multiset()),
                    removed@.no_duplicates(),
                    !progressed ==> *self == snap && removed@ == removed_snap,
                    !progressed ==> forall|t: int| 0 <= t < i ==> #[trigger] self.counters@[t]
                        != 1,
                    progressed ==> removed@.len() > 0,
                    removed@.len() == 0 ==> *self == *old(self),
                    (forall|c: int|
                        0 <= c < old(self).num_entries ==> #[trigger] old(self).counters@[c]
                            != 1) ==> removed@.len() == 0,
                decreases n - i,
            {
                if self.counters.get(i) == 1 {
                    proof {
                        if removed@.len() == 0 {
                            assert(old(self).counters@[i as int] == 1);
                        }
                    }
                    let item = self.data[i];
                    if contains_u32(&removed, item) {
                        return None;
                    }
                    self.remove(item);
                    proof {
                        broadcast use vstd::seq_lib::group_to_multiset_ensures;
                        broadcast use vstd::multiset::group_multiset_axioms;

                        assert(removed@.push(item).to_multiset() =~= removed@.to_multiset().insert(
                            item,
                        ));
                        assert(old(self).outs@.add(removed@.to_multiset()).insert(item) =~= old(
                            self,
                        ).outs@.add(removed@.push(item).to_multiset()));
                        let pushed = removed@.push(item);
                        assert forall|t1: int, t2: int|
                            0 <= t1 < t2 < pushed.len() implies pushed[t1] != pushed[t2] by {
                            if t2 == pushed.len() - 1 {
                                assert(pushed[t2] == item);
                                assert(pushed[t1] == removed@[t1]);
                            }
                        }
                        assert(pushed.no_duplicates());
                    }
                    removed.push(item);
                    progressed = true;
                }
                i = i + 1;
            }
            if !progressed {
                return Some(removed);
            }
            fuel = fuel - 1;
        }
        None
    }
}

/// `mask_of` re-exported under the filter vocabulary.
pub open spec fn mask_for(w: u32) -> u32 {
    crate::valuevec::mask_of(w)
}

/// No hash of an element lands on any cell before the first hash is taken.
proof fn lemma_cell_zero_incidence(s1: u64, s2: u64, e: Seq<u8>, n: int)
    ensures
        forall|c: int| #[trigger] cell_incidence(s1, s2, e, 0, n, c) == 0,
{
}

/// Stepping a wrapped counter up: `(x % m + 1)` wrapped equals `(x+1) % m`.
proof fn lemma_mod_step_up(x: int, m: int)
    requires
        2 <= m,
    ensures
        x % m < m - 1 ==> x % m + 1 == (x + 1) % m,
        x % m == m - 1 ==> (x + 1) % m == 0,
{
    vstd::arithmetic::div_mod::lemma_add_mod_noop(x, 1, m);
    vstd::arithmetic::div_mod::lemma_small_mod(1nat, m as nat);
    if x % m < m - 1 {
        vstd::arithmetic::div_mod::lemma_small_mod((x % m + 1) as nat, m as nat);
    } else {
        vstd::arithmetic::div_mod::lemma_mod_self_0(m);
    }
}

/// Stepping a wrapped counter down: `(x % m - 1)` wrapped equals `(x-1) % m`.
proof fn lemma_mod_step_down(x: int, m: int)
    requires
        2 <= m,
    ensures
        x % m == 0 ==> (x - 1) % m == m - 1,
        x % m > 0 ==> (x - 1) % m == x % m - 1,
{
    vstd::arithmetic::div_mod::lemma_sub_mod_noop(x, 1, m);
    vstd::arithmetic::div_mod::lemma_small_mod(1nat, m as nat);
    if x % m == 0 {
        vstd::arithmetic::div_mod::lemma_mod_add_multiples_vanish(-1, m);
        vstd::arithmetic::div_mod::lemma_small_mod((m - 1) as nat, m as nat);
    } else {
        vstd::arithmetic::div_mod::lemma_small_mod((x % m - 1) as nat, m as nat);
    }
}

/// Reducing the left summand first does not change a sum modulo `m`.
proof fn lemma_mod_add_any(x: int, y: int, m: int)
    requires
        1 <= m,
    ensures
        ((x % m) + y) % m == (x + y) % m,
{
    vstd::arithmetic::div_mod::lemma_add_mod_noop(x % m, y, m);
    vstd::arithmetic::div_mod::lemma_mod_twice(x, m);
    vstd::arithmetic::div_mod::lemma_add_mod_noop(x, y, m);
}

/// Reducing the minuend first does not change a difference modulo `m`.
proof fn lemma_mod_sub_any(x: int, y: int, m: int)
    requires
        1 <= m,
    ensures
        ((x % m) - y) % m == (x - y) % m,
{
    vstd::arithmetic::div_mod::lemma_sub_mod_noop(x % m, y, m);
    vstd::arithmetic::div_mod::lemma_mod_twice(x, m);
    vstd::arithmetic::div_mod::lemma_sub_mod_noop(x, y, m);
}

/// Adding a reduced value commutes with reduction.
proof fn lemma_mod_add_small(x: int, u: int, m: int)
    requires
        2 <= m,
        0 <= u < m,
    ensures
        (x % m + u) % m == (x + u) % m,
{
    vstd::arithmetic::div_mod::lemma_add_mod_noop(x, u, m);
    vstd::arithmetic::div_mod::lemma_small_mod(u as nat, m as nat);
}

/// Subtracting a reduced value, shifted up by one modulus to stay
/// nonnegative, commutes with reduction.
pub(crate) proof fn lemma_mod_sub_small(x: int, u: int, m: int)
    requires
        2 <= m,
        0 <= u < m,
    ensures
        (x % m + m - u) % m == (x - u) % m,
{
    vstd::arithmetic::div_mod::lemma_sub_mod_noop(x, u, m);
    vstd::arithmetic::div_mod::lemma_small_mod(u as nat, m as nat);
    vstd::arithmetic::div_mod::lemma_mod_add_multiples_vanish(x % m - u, m);
    assert((x % m + m - u) == m + (x % m - u));
    vstd::arithmetic::div_mod::lemma_mod_twice(x, m);
}

/// Linear membership scan.
fn contains_u32(d: &Vec<u32>, x: u32) -> (r: bool)
    ensures
        r == d@.contains(x),
{
    let mut t: usize = 0;
    while t < d.len()
        invariant
            t <= d@.len(),
            forall|u: int| 0 <= u < t ==> d@[u] != x,
        decreases d@.len() - t,
    {
        if d[t] == x {
            return true;
        }
        t = t + 1;
    }
    false
}

/// A vector of `n` zeroed data words.
fn zero_data(n: usize) -> (r: Vec<u32>)
    ensures
        r@.len() == n,
        forall|j: int| 0 <= j < n ==> #[trigger] r@[j] == 0,
{
    let mut r: Vec<u32> = Vec::new();
    let mut k: usize = 0;
    while k < n
        invariant
            r@.len() == k,
            k <= n,
            forall|j: int| 0 <= j < k ==> #[trigger] r@[j] == 0,
        decreases n - k,
    {
        r.push(0);
        k = k + 1;
    }
    r
}

/// Law: an IBLT is a function of its shape, seeds and the *multisets* of
/// inserted and removed items, so tables built by any two permutations of
/// the same operations are equal.
pub proof fn lemma_iblt_order_invariant(a: InvBloomLookupTable, b: InvBloomLookupTable)
    requires
        a.wf(),
        b.wf(),
        a.same_shape(b),
        a.counters.mask == b.counters.mask,
        a.ins@ == b.ins@,
        a.outs@ == b.outs@,
    ensures
        a.spec_equals(b),
{
    assert(a.counters@ =~= b.counters@) by {
        assert forall|c: int| 0 <= c < a.num_entries implies a.counters@[c] == b.counters@[c] by {
            assert(a.counters@[c] == (weight_sum(
                a.ins@,
                iblt_count_weight(a.seed_one, a.seed_two, a.num_hashes as nat,
                a.num_entries as int, c),
            ) - weight_sum(
                a.outs@,
                iblt_count_weight(a.seed_one, a.seed_two, a.num_hashes as nat,
                a.num_entries as int, c),
            )) % (a.counters.mask + 1));
        }
    };
    assert(a.data@ =~= b.data@) by {
        assert forall|c: int| 0 <= c < a.num_entries implies a.data@[c] == b.data@[c] by {
            assert(a.data@[c] == (weight_sum(
                a.ins@,
                iblt_data_weight(a.seed_one, a.seed_two, a.num_hashes as nat, a.num_entries as int,
                c),
            ) - weight_sum(
                a.outs@,
                iblt_data_weight(a.seed_one, a.seed_two, a.num_hashes as nat, a.num_entries as int,
                c),
            )) % (DATA_MODULUS as int));
        }
    };
}

/// The operations an invertible Bloom lookup table supports.
pub trait IBLTOperations {
    /// The type's internal invariant.
    spec fn inv(&self) -> bool;

    /// Inserts an item; returns whether it may already have been present.
    fn insert(&mut self, item: u32) -> (r: bool)
        requires
            old(self).inv(),
        ensures
            final(self).inv(),
    ;

    /// Removes an item (wrapping when absent).
    fn remove(&mut self, item: u32)
        requires
            old(self).inv(),
        ensures
            final(self).inv(),
    ;

    /// Whether the item may be present; no false negatives.
    fn contains(&self, item: u32) -> bool
        requires
            self.inv(),
    ;

    /// The cell indices of the item.
    fn indexes(&self, item: u32) -> Vec<usize>
        requires
            self.inv(),
    ;

    /// Peels all recoverable items; `None` reports a corrupt table.
    fn eliminate_elems(&mut self) -> (r: Option<Vec<u32>>)
        requires
            old(self).inv(),
        ensures
            final(self).inv(),
    ;
}

impl IBLTOperations for InvBloomLookupTable {
    open spec fn inv(&self) -> bool {
        self.wf()
    }

    fn insert(&mut self, item: u32) -> bool {
        InvBloomLookupTable::insert(self, item)
    }

    fn remove(&mut self, item: u32) {
        InvBloomLookupTable::remove(self, item)
    }

    fn contains(&self, item: u32) -> bool {
        InvBloomLookupTable::contains(self, item)
    }

    fn indexes(&self, item: u32) -> Vec<usize> {
        InvBloomLookupTable::indexes(self, item)
    }

    fn eliminate_elems(&mut self) -> Option<Vec<u32>> {
        InvBloomLookupTable::eliminate_elems(self)
    }
}

} // verus!
