//! IBLT accumulator.
//!
//! The accumulator keeps a digest and an invertible Bloom lookup table of
//! the processed elements' DJB values.  Validation builds the table of the
//! candidate log, takes the wrapped per-cell difference (the table of the
//! dropped elements), applies the wraparound sanity rule, peels the
//! difference, and falls back to an exact-cover search for whatever the
//! peeling could not name.  Every recovered drop set is confirmed against
//! the digest.

use vstd::prelude::*;

use crate::digest::{digest_state, Digest};
use crate::hashing::{djb_hash_of, elem_to_u32, hash_indexes};
use crate::iblt::{
    iblt_count_weight, iblt_data_weight, lemma_mod_sub_small, InvBloomLookupTable, DATA_MODULUS,
};
use crate::power_sum::{byte_views, djb_vals, valid_witness};
use crate::seqsum::{lemma_weight_sum_seq_multiset, weight_sum, weight_sum_seq};
use crate::solver::{
    digest_matches_excluding, keep_prefix, lemma_keep_prefix_empty, solve_cover,
};
use crate::ValidationResult;

verus! {

use vstd::multiset::Multiset;

/// The IBLT accumulator: a digest plus a lookup table of DJB values.
pub struct IBLTAccumulator {
    /// Keyed order-invariant fingerprint of the processed elements.
    pub digest: Digest,
    /// Lookup table of the processed elements' DJB values.
    pub iblt: InvBloomLookupTable,
}

impl IBLTAccumulator {
    /// Structural well-formedness: what deserialization can promise.
    pub open spec fn wfs(self) -> bool {
        &&& self.iblt.counters.wf()
        &&& self.iblt.counters.count == self.iblt.num_entries
        &&& self.iblt.data@.len() == self.iblt.num_entries
        &&& 1 <= self.iblt.num_entries <= 0xffff_ffff
        &&& 1 <= self.iblt.num_hashes <= 0xffff_ffff
        &&& self.digest.count <= usize::MAX
    }

    /// Full well-formedness: the table and digest summarize the same
    /// processed elements.
    pub open spec fn wf(self) -> bool {
        &&& self.wfs()
        &&& self.digest.wf()
        &&& self.iblt.wf()
        &&& self.iblt.outs@ == Multiset::<u32>::empty()
    }

    /// A fresh accumulator with random seeds.
    pub fn new(bits_per_entry: usize, num_entries: usize, num_hashes: u32) -> (r: IBLTAccumulator)
        requires
            1 <= bits_per_entry <= 32,
            1 <= num_entries <= 0xffff_ffff,
            num_entries * bits_per_entry + 31 <= usize::MAX,
            1 <= num_hashes <= 0xffff_ffff,
        ensures
            r.wf(),
            r.digest.count == 0,
            r.digest.elems@ == Multiset::<Seq<u8>>::empty(),
            r.iblt.ins@ == Multiset::<u32>::empty(),
    {
        IBLTAccumulator {
            digest: Digest::new(),
            iblt: InvBloomLookupTable::new(bits_per_entry, num_entries, num_hashes),
        }
    }

    /// A fresh accumulator seeded from `seed`; deterministic.
    pub fn new_with_seed(
        seed: u64,
        bits_per_entry: usize,
        num_entries: usize,
        num_hashes: u32,
    ) -> (r: IBLTAccumulator)
        requires
            1 <= bits_per_entry <= 32,
            1 <= num_entries <= 0xffff_ffff,
            num_entries * bits_per_entry + 31 <= usize::MAX,
            1 <= num_hashes <= 0xffff_ffff,
        ensures
            r.wf(),
            r.digest.seed == seed,
            r.digest.count == 0,
            r.digest.elems@ == Multiset::<Seq<u8>>::empty(),
            r.iblt.ins@ == Multiset::<u32>::empty(),
            r.iblt.seed == seed,
            r.iblt.num_entries == num_entries,
            r.iblt.num_hashes == num_hashes,
            r.iblt.counters.bits_per_val == bits_per_entry,
    {
        IBLTAccumulator {
            digest: Digest::new_with_seed(seed),
            iblt: InvBloomLookupTable::new_with_seed(
                seed,
                bits_per_entry,
                num_entries,
                num_hashes,
            ),
        }
    }

    /// A fresh accumulator sized as `cells_multiplier` cells per expected
    /// loss, up to `threshold` losses, optionally seeded.
    pub fn new_with_params(
        threshold: usize,
        bits_per_entry: usize,
        cells_multiplier: usize,
        num_hashes: u32,
        seed: Option<u64>,
    ) -> (r: IBLTAccumulator)
        requires
            1 <= bits_per_entry <= 32,
            1 <= threshold,
            1 <= cells_multiplier,
            threshold * cells_multiplier <= 0xffff_ffff,
            threshold * cells_multiplier * bits_per_entry + 31 <= usize::MAX,
            1 <= num_hashes <= 0xffff_ffff,
        ensures
            r.wf(),
            r.digest.count == 0,
            r.digest.elems@ == Multiset::<Seq<u8>>::empty(),
            r.iblt.ins@ == Multiset::<u32>::empty(),
    {
        proof {
            assert(threshold * cells_multiplier >= 1) by (nonlinear_arith)
                requires
                    threshold >= 1,
                    cells_multiplier >= 1,
            ;
        }
        let num_entries = threshold * cells_multiplier;
        match seed {
            Some(s) => IBLTAccumulator {
                digest: Digest::new_with_seed(s),
                iblt: InvBloomLookupTable::new_with_seed(
                    s,
                    bits_per_entry,
                    num_entries,
                    num_hashes,
                ),
            },
            None => IBLTAccumulator {
                digest: Digest::new(),
                iblt: InvBloomLookupTable::new(bits_per_entry, num_entries, num_hashes),
            },
        }
    }

    /// Value equality over the digest and the table.
    pub open spec fn spec_equals(self, other: IBLTAccumulator) -> bool {
        self.digest.spec_equals(other.digest) && self.iblt.spec_equals(other.iblt)
    }

    /// Value equality over the digest and the table.
    pub fn equals(&self, other: &IBLTAccumulator) -> (r: bool)
        requires
            self.wfs(),
            other.wfs(),
        ensures
            r == self.spec_equals(*other),
    {
        self.digest.equals(&other.digest) && self.iblt.equals(&other.iblt)
    }

    /// The number of absorbed elements.
    pub fn total(&self) -> (r: usize)
        requires
            self.digest.count <= usize::MAX,
        ensures
            r == self.digest.count,
    {
        self.digest.count as usize
    }

    /// Absorbs one element.
    pub fn process(&mut self, elem: &[u8])
        requires
            old(self).wf(),
            old(self).digest.count < usize::MAX,
        ensures
            final(self).wf(),
            final(self).digest.seed == old(self).digest.seed,
            final(self).digest.count == old(self).digest.count + 1,
            final(self).digest.elems@ == old(self).digest.elems@.insert(elem@),
            final(self).iblt.ins@ == old(self).iblt.ins@.insert(
                crate::hashing::djb_hash_of(elem@),
            ),
            old(self).iblt.same_shape(final(self).iblt),
    {
        self.digest.add(elem);
        let u = elem_to_u32(elem);
        self.iblt.insert(u);
    }

    /// Absorbs a batch of elements; equal to processing them one by one.
    pub fn process_batch(&mut self, elems: &Vec<Vec<u8>>)
        requires
            old(self).wf(),
            old(self).digest.count + elems@.len() <= usize::MAX,
        ensures
            final(self).wf(),
            final(self).digest.seed == old(self).digest.seed,
            final(self).digest.count == old(self).digest.count + elems@.len(),
            final(self).digest.elems@ == old(self).digest.elems@.add(
                byte_views(elems@).to_multiset(),
            ),
            final(self).iblt.ins@ == old(self).iblt.ins@.add(
                crate::power_sum::djb_vals(elems@).to_multiset(),
            ),
            old(self).iblt.same_shape(final(self).iblt),
    {
        proof {
            broadcast use vstd::multiset::group_multiset_axioms;
            broadcast use vstd::seq_lib::group_to_multiset_ensures;

            assert(byte_views(elems@).take(0) =~= Seq::<Seq<u8>>::empty());
            assert(byte_views(elems@).take(0).to_multiset() =~= Multiset::<Seq<u8>>::empty());
            assert(old(self).digest.elems@.add(Multiset::<Seq<u8>>::empty()) =~= old(
                self,
            ).digest.elems@);
            assert(crate::power_sum::djb_vals(elems@).take(0).to_multiset() =~= Multiset::<
                u32,
            >::empty());
            assert(old(self).iblt.ins@.add(Multiset::<u32>::empty()) =~= old(self).iblt.ins@);
        }
        let ghost bv = byte_views(elems@);
        let ghost dv = crate::power_sum::djb_vals(elems@);
        let mut i: usize = 0;
        while i < elems.len()
            invariant
                old(self).wf(),
                bv == byte_views(elems@),
                dv == crate::power_sum::djb_vals(elems@),
                i <= elems@.len(),
                old(self).digest.count + elems@.len() <= usize::MAX,
                self.wf(),
                self.digest.seed == old(self).digest.seed,
                self.digest.count == old(self).digest.count + i,
                self.digest.elems@ == old(self).digest.elems@.add(
                    bv.take(i as int).to_multiset(),
                ),
                self.iblt.ins@ == old(self).iblt.ins@.add(dv.take(i as int).to_multiset()),
                old(self).iblt.same_shape(self.iblt),
            decreases elems@.len() - i,
        {
            self.process(elems[i].as_slice());
            proof {
                broadcast use vstd::multiset::group_multiset_axioms;
                broadcast use vstd::seq_lib::group_to_multiset_ensures;

                assert(bv.take(i as int).push(bv[i as int]) =~= bv.take(i as int + 1));
                assert(bv[i as int] == elems@[i as int]@);
                assert(self.digest.elems@ =~= old(self).digest.elems@.add(
                    bv.take(i as int + 1).to_multiset(),
                ));
                assert(dv.take(i as int).push(dv[i as int]) =~= dv.take(i as int + 1));
                assert(dv[i as int] == crate::hashing::djb_hash_of(elems@[i as int]@));
                assert(self.iblt.ins@ =~= old(self).iblt.ins@.add(
                    dv.take(i as int + 1).to_multiset(),
                ));
            }
            i = i + 1;
        }
        proof {
            assert(bv.take(elems@.len() as int) =~= bv);
            assert(dv.take(elems@.len() as int) =~= dv);
        }
    }

    /// Drops the absorbed elements, preserving the seeds and shape.
    pub fn reset(&mut self)
        requires
            old(self).wf(),
        ensures
            final(self).wf(),
            final(self).digest.seed == old(self).digest.seed,
            final(self).digest.count == 0,
            final(self).digest.elems@ == Multiset::<Seq<u8>>::empty(),
            old(self).iblt.same_shape(final(self).iblt),
    {
        self.digest.reset();
        let fresh = self.iblt.empty_clone();
        self.iblt = fresh;
    }

    /// The number of hits the candidate log's items make on cell `c` of
    /// the table.
    pub open spec fn log_cell_count(self, elems: Seq<Vec<u8>>, c: int) -> int {
        weight_sum_seq(
            djb_vals(elems),
            iblt_count_weight(self.iblt.seed_one, self.iblt.seed_two, self.iblt.num_hashes as nat,
            self.iblt.num_entries as int, c),
        )
    }

    /// The amount the candidate log's items add to cell `c`'s data word.
    pub open spec fn log_cell_data(self, elems: Seq<Vec<u8>>, c: int) -> int {
        weight_sum_seq(
            djb_vals(elems),
            iblt_data_weight(self.iblt.seed_one, self.iblt.seed_two, self.iblt.num_hashes as nat,
            self.iblt.num_entries as int, c),
        )
    }

    /// Counter `c` of the wrapped difference table the validator builds:
    /// the candidate log's hits minus the stored counter, at counter width.
    pub open spec fn diff_count(self, elems: Seq<Vec<u8>>, c: int) -> int {
        (self.log_cell_count(elems, c) - self.iblt.counters@[c]) % (self.iblt.counters.mask + 1)
    }

    /// Data word `c` of the wrapped difference table.
    pub open spec fn diff_data(self, elems: Seq<Vec<u8>>, c: int) -> int {
        (self.log_cell_data(elems, c) - self.iblt.data@[c]) % (DATA_MODULUS as int)
    }

    /// A zero counter difference with a nonzero data difference: no true
    /// sub-multiset difference can produce it.
    pub open spec fn diff_anomaly(self, elems: Seq<Vec<u8>>) -> bool {
        exists|c: int|
            0 <= c < self.iblt.num_entries && #[trigger] self.diff_count(elems, c) == 0
                && self.diff_data(elems, c) != 0
    }

    /// The sum of the difference counters over the cells below `c`.
    pub open spec fn diff_count_sum(self, elems: Seq<Vec<u8>>, c: int) -> int
        decreases c,
    {
        if c <= 0 {
            0
        } else {
            self.diff_count_sum(elems, c - 1) + self.diff_count(elems, c - 1)
        }
    }


    /// The largest number of trailing candidates that can be cut while the
    /// accumulator still validates, by binary search over `validate` (the
    /// verifier's truncation probe; callers assume validity is monotone in
    /// the cut length).
    pub fn max_truncation(&self, elems: &Vec<Vec<u8>>) -> (r: usize)
        requires
            self.wfs(),
            self.digest.count <= elems@.len(),
            elems@.len() <= 0x7fff_ffff,
        ensures
            r <= elems@.len() - self.digest.count,
    {
        let total = self.total();
        let mut lo: usize = 0;
        let mut hi: usize = elems.len() - total;
        while lo != hi
            invariant
                self.wfs(),
                self.digest.count <= elems@.len(),
                elems@.len() <= 0x7fff_ffff,
                lo <= hi <= elems@.len() - self.digest.count,
            decreases hi - lo,
        {
            let mid = lo + (hi - lo) / 2;
            let prefix = crate::solver::log_prefix(elems, elems.len() - mid);
            if self.validate(&prefix).is_valid() {
                lo = mid + 1;
            } else {
                hi = mid;
            }
        }
        lo
    }
    /// Validates a candidate log against the accumulator.
    ///
    /// With `n` candidates beyond the processed count: a shorter list is
    /// `Invalid`; at `n == 0` the verdict reduces to the digest.  Otherwise
    /// the wrapped difference table of the candidates against the stored
    /// table is computed, checked for wraparound (undetermined when the
    /// loss count made wrapping possible, proof of tampering when not),
    /// peeled, completed by exact-cover search if peeling stalls, and the
    /// recovered drop set is confirmed against the digest.
    pub fn validate(&self, elems: &Vec<Vec<u8>>) -> (r: ValidationResult)
        requires
            self.wfs(),
            elems@.len() <= 0x7fff_ffff,
        ensures
            elems@.len() < self.digest.count ==> r is Invalid,
            elems@.len() == self.digest.count ==> ((r matches ValidationResult::Valid(d)
                && d@.len() == 0) <==> (digest_state(
                self.digest.seed,
                byte_views(elems@).to_multiset(),
            ) == self.digest.state && elems@.len() == self.digest.count)),
            elems@.len() == self.digest.count ==> (r is Valid || r is Invalid),
            r is IbltMaliciousWraparound ==> (elems@.len() - self.digest.count) * (
            self.iblt.num_hashes as int) <= self.iblt.counters.mask,
            r is IbltBenignWraparound ==> (elems@.len() - self.digest.count) * (
            self.iblt.num_hashes as int) > self.iblt.counters.mask,
            elems@.len() > self.digest.count && self.diff_anomaly(elems@) ==> r is Invalid,
            elems@.len() > self.digest.count && !self.diff_anomaly(elems@)
                && self.diff_count_sum(elems@, self.iblt.num_entries as int) / (
            self.iblt.num_hashes as int) != elems@.len() - self.digest.count && (elems@.len()
                - self.digest.count) * (self.iblt.num_hashes as int) <= self.iblt.counters.mask
                ==> r is IbltMaliciousWraparound,
            elems@.len() > self.digest.count && !self.diff_anomaly(elems@)
                && self.diff_count_sum(elems@, self.iblt.num_entries as int) / (
            self.iblt.num_hashes as int) != elems@.len() - self.digest.count && (elems@.len()
                - self.digest.count) * (self.iblt.num_hashes as int) > self.iblt.counters.mask
                ==> r is IbltBenignWraparound,
            forall|d: Vec<usize>|
                (#[trigger] valid_witness(r, d)) ==> (forall|t1: int, t2: int|
                    0 <= t1 < t2 < d@.len() ==> d@[t1] < d@[t2]) && (forall|t: int|
                    0 <= t < d@.len() ==> #[trigger] d@[t] < elems@.len()) && digest_state(
                    self.digest.seed,
                    keep_prefix(elems@, d@, elems@.len() as int),
                ) == self.digest.state && keep_prefix(elems@, d@, elems@.len() as int).len()
                    == self.digest.count,
    {
        let total = self.total();
        if elems.len() < total {
            return ValidationResult::Invalid;
        }
        let n = elems.len() - total;
        if n == 0 {
            let empty_drop: Vec<usize> = Vec::new();
            let ok = digest_matches_excluding(
                self.digest.seed,
                self.digest.count,
                self.digest.state,
                elems,
                &empty_drop,
            );
            proof {
                broadcast use vstd::seq_lib::group_to_multiset_ensures;

                lemma_keep_prefix_empty(elems@, elems@.len() as int);
                assert(byte_views(elems@).take(elems@.len() as int) =~= byte_views(elems@));
                assert(empty_drop@ =~= Seq::<usize>::empty());
                assert(byte_views(elems@).to_multiset().len() == byte_views(elems@).len());
            }
            if ok {
                return ValidationResult::Valid(empty_drop);
            } else {
                return ValidationResult::Invalid;
            }
        }
        let k = self.iblt.num_hashes();
        let s1 = self.iblt.seed_one;
        let s2 = self.iblt.seed_two;
        let ne = self.iblt.counters.num_vals();
        let mask = self.iblt.counters.max_value();
        let modulus = (mask as u64) + 1;
        // DJB values of the candidates and the candidate table's cells.
        let mut vals: Vec<u32> = Vec::new();
        let mut i: usize = 0;
        while i < elems.len()
            invariant
                i <= elems@.len(),
                vals@.len() == i,
                forall|t: int| 0 <= t < i ==> #[trigger] vals@[t] == djb_hash_of(elems@[t]@),
            decreases elems@.len() - i,
        {
            vals.push(elem_to_u32(elems[i].as_slice()));
            i = i + 1;
        }
        proof {
            assert(vals@ =~= djb_vals(elems@));
        }
        let mut ctab = self.iblt.empty_clone();
        proof {
            broadcast use vstd::multiset::group_multiset_axioms;
            broadcast use vstd::seq_lib::group_to_multiset_ensures;

            assert(vals@.take(0).to_multiset() =~= Multiset::<u32>::empty());
        }
        let mut i2: usize = 0;
        while i2 < vals.len()
            invariant
                i2 <= vals@.len(),
                ctab.wf(),
                ctab.counters.count == ne,
                ctab.data@.len() == ne,
                ctab.num_entries == ne,
                ctab.num_hashes == k,
                ctab.counters.mask == mask,
                ctab.seed_one == s1,
                ctab.seed_two == s2,
                ctab.ins@ == vals@.take(i2 as int).to_multiset(),
                ctab.outs@ == Multiset::<u32>::empty(),
                1 <= ne <= 0xffff_ffff,
            decreases vals@.len() - i2,
        {
            ctab.insert(vals[i2]);
            proof {
                broadcast use vstd::seq_lib::group_to_multiset_ensures;

                assert(vals@.take(i2 as int).push(vals@[i2 as int]) =~= vals@.take(i2 as int + 1));
                assert(ctab.ins@ =~= vals@.take(i2 as int + 1).to_multiset());
            }
            i2 = i2 + 1;
        }
        proof {
            assert(vals@.take(vals@.len() as int) =~= vals@);
        }
        // Wrapped per-cell differences: the table of the dropped elements.
        let mut dc: Vec<u32> = Vec::new();
        let mut dd: Vec<u32> = Vec::new();
        let mut ssum: u64 = 0;
        let mut c: usize = 0;
        while c < ne
            invariant
                self.wfs(),
                elems@.len() > self.digest.count,
                ctab.wf(),
                ctab.counters.count == ne,
                ctab.data@.len() == ne,
                ctab.counters.mask == mask,
                ctab.num_entries == ne,
                ctab.num_hashes == k,
                ctab.seed_one == s1,
                ctab.seed_two == s2,
                ctab.ins@ == vals@.to_multiset(),
                ctab.outs@ == Multiset::<u32>::empty(),
                vals@ == djb_vals(elems@),
                s1 == self.iblt.seed_one,
                s2 == self.iblt.seed_two,
                k == self.iblt.num_hashes,
                ne == self.iblt.num_entries,
                ne == self.iblt.counters.count,
                self.iblt.data@.len() == ne,
                ne <= 0xffff_ffff,
                mask == self.iblt.counters.mask,
                modulus == mask as u64 + 1,
                c <= ne,
                dc@.len() == c,
                dd@.len() == c,
                forall|t: int| 0 <= t < c ==> #[trigger] dc@[t] <= mask,
                forall|t: int| 0 <= t < c ==> #[trigger] dc@[t] == self.diff_count(elems@, t),
                forall|t: int| 0 <= t < c ==> #[trigger] dd@[t] == self.diff_data(elems@, t),
                forall|t: int|
                    0 <= t < c ==> !(#[trigger] self.diff_count(elems@, t) == 0
                        && self.diff_data(elems@, t) != 0),
                ssum == self.diff_count_sum(elems@, c as int),
                ssum <= c * 0x1_0000_0000,
            decreases ne - c,
        {
            let cc = ctab.counters.get(c);
            let cs = self.iblt.counters.get(c);
            let d1 = (((cc as u64) + modulus - (cs as u64)) % modulus) as u32;
            let ddc = ctab.data[c];
            let dds = self.iblt.data[c];
            let d2 = (((ddc as u64) + 0x1_0000_0000u64 - (dds as u64)) % 0x1_0000_0000u64) as u32;
            proof {
                broadcast use vstd::multiset::group_multiset_axioms;

                let mi = mask as int + 1;
                let wcnt = iblt_count_weight(s1, s2, k as nat, ne as int, c as int);
                let wdat = iblt_data_weight(s1, s2, k as nat, ne as int, c as int);
                lemma_weight_sum_seq_multiset(vals@, wcnt);
                lemma_weight_sum_seq_multiset(vals@, wdat);
                assert(Multiset::<u32>::empty().len() == 0);
                assert(weight_sum(ctab.outs@, wcnt) == 0);
                assert(weight_sum(ctab.outs@, wdat) == 0);
                assert(cc as int == self.log_cell_count(elems@, c as int) % mi);
                assert(ddc as int == self.log_cell_data(elems@, c as int) % (DATA_MODULUS as int));
                crate::valuevec::lemma_mask_of_positive(self.iblt.counters.bits_per_val as u32);
                lemma_mod_sub_small(self.log_cell_count(elems@, c as int), cs as int, mi);
                lemma_mod_sub_small(
                    self.log_cell_data(elems@, c as int),
                    dds as int,
                    DATA_MODULUS as int,
                );
                assert(d1 as int == self.diff_count(elems@, c as int));
                assert(d2 as int == self.diff_data(elems@, c as int));
            }
            if d1 == 0 && d2 != 0 {
                proof {
                    assert(self.diff_anomaly(elems@)) by {
                        assert(self.diff_count(elems@, c as int) == 0 && self.diff_data(
                            elems@,
                            c as int,
                        ) != 0);
                    };
                }
                return ValidationResult::Invalid;
            }
            proof {
                assert(ssum + d1 <= (c + 1) * 0x1_0000_0000) by (nonlinear_arith)
                    requires
                        ssum <= c * 0x1_0000_0000,
                        d1 <= 0xffff_ffff,
                ;
                assert((c + 1) * 0x1_0000_0000 <= 0x1_0000_0000_0000_0000) by (nonlinear_arith)
                    requires
                        c + 1 <= 0x1_0000_0000,
                ;
            }
            ssum = ssum + (d1 as u64);
            dc.push(d1);
            dd.push(d2);
            c = c + 1;
        }
        proof {
            assert(!self.diff_anomaly(elems@));
        }
        // Wraparound sanity: the counter sum must name exactly n drops.
        let expected = ssum / (k as u64);
        if expected != n as u64 {
            if (n as u64) <= (mask as u64) / (k as u64) {
                proof {
                    vstd::arithmetic::div_mod::lemma_fundamental_div_mod(
                        self.iblt.counters.mask as int,
                        self.iblt.num_hashes as int,
                    );
                    let nn = elems@.len() - self.digest.count;
                    let kk = self.iblt.num_hashes as int;
                    let q = self.iblt.counters.mask as int / kk;
                    assert(nn * kk <= q * kk) by (nonlinear_arith)
                        requires
                            nn <= q,
                            kk >= 1,
                    ;
                    assert(q * kk <= self.iblt.counters.mask as int) by {
                        assert(self.iblt.counters.mask as int == kk * q
                            + self.iblt.counters.mask as int % kk);
                        assert(q * kk == kk * q) by (nonlinear_arith);
                    };
                }
                return ValidationResult::IbltMaliciousWraparound;
            } else {
                proof {
                    vstd::arithmetic::div_mod::lemma_fundamental_div_mod(
                        self.iblt.counters.mask as int,
                        self.iblt.num_hashes as int,
                    );
                    let nn = elems@.len() - self.digest.count;
                    let kk = self.iblt.num_hashes as int;
                    let q = self.iblt.counters.mask as int / kk;
                    assert(nn >= q + 1);
                    assert((q + 1) * kk >= q * kk + kk) by (nonlinear_arith);
                    assert(nn * kk >= (q + 1) * kk) by (nonlinear_arith)
                        requires
                            nn >= q + 1,
                            kk >= 1,
                    ;
                    assert(q * kk + kk > self.iblt.counters.mask as int) by {
                        assert(self.iblt.counters.mask as int == kk * q
                            + self.iblt.counters.mask as int % kk);
                        assert(q * kk == kk * q) by (nonlinear_arith);
                        assert(self.iblt.counters.mask as int % kk < kk);
                    };
                }
                return ValidationResult::IbltBenignWraparound;
            }
        }
        proof {
            assert(self.diff_count_sum(elems@, self.iblt.num_entries as int) / (
            self.iblt.num_hashes as int) == elems@.len() - self.digest.count);
        }
        // Peel: remove the item named by any cell with counter exactly 1.
        let mut removed: Vec<u32> = Vec::new();
        let mut fuel: u64 = 0x1_0000_0001;
        loop
            invariant
                self.wfs(),
                elems@.len() > self.digest.count,
                !self.diff_anomaly(elems@),
                self.diff_count_sum(elems@, self.iblt.num_entries as int) / (
                self.iblt.num_hashes as int) == elems@.len() - self.digest.count,
                s1 == self.iblt.seed_one,
                s2 == self.iblt.seed_two,
                ne == self.iblt.num_entries,
                1 <= ne <= 0xffff_ffff,
                mask == self.iblt.counters.mask,
                k == self.iblt.num_hashes,
                1 <= k,
                dc@.len() == ne,
                dd@.len() == ne,
                vals@.len() == elems@.len(),
            decreases fuel,
        {
            if fuel == 0 {
                return ValidationResult::Invalid;
            }
            fuel = fuel - 1;
            let mut progressed = false;
            let mut ci: usize = 0;
            while ci < ne
                invariant
                    self.wfs(),
                    elems@.len() > self.digest.count,
                    !self.diff_anomaly(elems@),
                    self.diff_count_sum(elems@, self.iblt.num_entries as int) / (
                    self.iblt.num_hashes as int) == elems@.len() - self.digest.count,
                    s1 == self.iblt.seed_one,
                    s2 == self.iblt.seed_two,
                    mask == self.iblt.counters.mask,
                    k == self.iblt.num_hashes,
                    ne == self.iblt.num_entries,
                    1 <= ne <= 0xffff_ffff,
                    1 <= k,
                    dc@.len() == ne,
                    dd@.len() == ne,
                    ci <= ne,
                decreases ne - ci,
            {
                if dc[ci] == 1 {
                    let item = dd[ci];
                    if contains_u32(&removed, item) {
                        return ValidationResult::Invalid;
                    }
                    removed.push(item);
                    // Subtract the item from its cells.
                    let item_bytes = vstd::bytes::u32_to_le_bytes(item);
                    let idxs = hash_indexes(item_bytes.as_slice(), k, s1, s2, ne as u64);
                    let mut j: usize = 0;
                    while j < idxs.len()
                        invariant
                            dc@.len() == ne,
                            dd@.len() == ne,
                            forall|t: int| 0 <= t < idxs@.len() ==> #[trigger] idxs@[t] < ne,
                            j <= idxs@.len(),
                        decreases idxs@.len() - j,
                    {
                        let cx = idxs[j];
                        let cur = dc[cx];
                        if cur == 0 {
                            dc.set(cx, mask);
                        } else {
                            dc.set(cx, cur - 1);
                        }
                        let curd = dd[cx];
                        let nd = (((curd as u64) + 0x1_0000_0000u64 - (item as u64))
                            % 0x1_0000_0000u64) as u32;
                        dd.set(cx, nd);
                        j = j + 1;
                    }
                    progressed = true;
                }
                ci = ci + 1;
            }
            if !progressed {
                break ;
            }
        }
        if removed.len() > n {
            return ValidationResult::Invalid;
        }
        if removed.len() == n {
            // Everything was named by peeling; match values to positions.
            let (dropped, collisions) = match_removed(&vals, &removed, &Vec::new());
            let ok = digest_matches_excluding(
                self.digest.seed,
                self.digest.count,
                self.digest.state,
                elems,
                &dropped,
            );
            if ok {
                if collisions {
                    return ValidationResult::IbltCollisionsValid(dropped);
                } else {
                    return ValidationResult::Valid(dropped);
                }
            } else {
                if collisions {
                    return ValidationResult::IbltCollisionsInvalid;
                } else {
                    return ValidationResult::Invalid;
                }
            }
        }
        // Exact-cover fallback for the residue the peeling left.
        let need = n - removed.len();
        let mut cand_pos: Vec<usize> = Vec::new();
        let mut cand_cells: Vec<Vec<usize>> = Vec::new();
        let mut i3: usize = 0;
        while i3 < vals.len()
            invariant
                1 <= ne <= 0xffff_ffff,
                1 <= k,
                dc@.len() == ne,
                vals@.len() == elems@.len(),
                i3 <= vals@.len(),
                cand_pos@.len() == cand_cells@.len(),
                forall|t: int| 0 <= t < cand_pos@.len() ==> #[trigger] cand_pos@[t] < i3,
                forall|t1: int, t2: int|
                    0 <= t1 < t2 < cand_pos@.len() ==> cand_pos@[t1] < cand_pos@[t2],
                forall|a: int, t: int|
                    0 <= a < cand_cells@.len() && 0 <= t < cand_cells@[a]@.len()
                        ==> #[trigger] cand_cells@[a]@[t] < dc@.len(),
            decreases vals@.len() - i3,
        {
            let cand_bytes = vstd::bytes::u32_to_le_bytes(vals[i3]);
            let idxs = hash_indexes(cand_bytes.as_slice(), k, s1, s2, ne as u64);
            let mut all_pos = true;
            let mut j: usize = 0;
            while j < idxs.len()
                invariant
                    dc@.len() == ne,
                    forall|t: int| 0 <= t < idxs@.len() ==> #[trigger] idxs@[t] < ne,
                    j <= idxs@.len(),
                decreases idxs@.len() - j,
            {
                if dc[idxs[j]] == 0 {
                    all_pos = false;
                }
                j = j + 1;
            }
            if all_pos {
                cand_pos.push(i3);
                cand_cells.push(idxs);
            }
            i3 = i3 + 1;
        }
        let mut diffs: Vec<i64> = Vec::new();
        let mut c2: usize = 0;
        while c2 < ne
            invariant
                dc@.len() == ne,
                c2 <= ne,
                diffs@.len() == c2,
            decreases ne - c2,
        {
            diffs.push(dc[c2] as i64);
            c2 = c2 + 1;
        }
        match solve_cover(&diffs, &cand_cells, 0, need) {
            Some(sol) => {
                let mut ilp_dropped: Vec<usize> = Vec::new();
                let mut t: usize = 0;
                while t < sol.len()
                    invariant
                        forall|u: int| 0 <= u < sol@.len() ==> #[trigger] sol@[u]
                            < cand_pos@.len(),
                        forall|u1: int, u2: int|
                            0 <= u1 < u2 < sol@.len() ==> sol@[u1] < sol@[u2],
                        forall|u: int|
                            0 <= u < cand_pos@.len() ==> #[trigger] cand_pos@[u] < elems@.len(),
                        forall|u1: int, u2: int|
                            0 <= u1 < u2 < cand_pos@.len() ==> cand_pos@[u1] < cand_pos@[u2],
                        vals@.len() == elems@.len(),
                        t <= sol@.len(),
                        ilp_dropped@.len() == t,
                        forall|u: int|
                            0 <= u < t ==> #[trigger] ilp_dropped@[u] == cand_pos@[sol@[u] as int],
                        forall|u: int| 0 <= u < t ==> #[trigger] ilp_dropped@[u] < elems@.len(),
                        forall|u1: int, u2: int|
                            0 <= u1 < u2 < t ==> ilp_dropped@[u1] < ilp_dropped@[u2],
                    decreases sol@.len() - t,
                {
                    ilp_dropped.push(cand_pos[sol[t]]);
                    t = t + 1;
                }
                let (dropped, collisions) = match_removed(&vals, &removed, &ilp_dropped);
                let ok = digest_matches_excluding(
                    self.digest.seed,
                    self.digest.count,
                    self.digest.state,
                    elems,
                    &dropped,
                );
                if ok {
                    if collisions {
                        ValidationResult::IbltIlpCollisionsValid(dropped)
                    } else {
                        ValidationResult::IbltIlpValid(dropped)
                    }
                } else {
                    if collisions {
                        ValidationResult::IbltIlpCollisionsInvalid
                    } else {
                        ValidationResult::IbltIlpInvalid
                    }
                }
            },
            None => ValidationResult::IbltIlpInvalid,
        }
    }
}

/// Law: IBLT accumulators of one shape that absorbed the same multisets
/// of items from the same seeds are equal, whatever the operation order.
pub proof fn lemma_iblt_acc_order_invariant(a: IBLTAccumulator, b: IBLTAccumulator)
    requires
        a.wf(),
        b.wf(),
        a.digest.seed == b.digest.seed,
        a.digest.elems@ == b.digest.elems@,
        a.iblt.same_shape(b.iblt),
        a.iblt.ins@ == b.iblt.ins@,
    ensures
        a.spec_equals(b),
{
    crate::digest::lemma_digest_order_invariant(a.digest, b.digest);
    assert(a.iblt.counters.mask == b.iblt.counters.mask);
    crate::iblt::lemma_iblt_order_invariant(a.iblt, b.iblt);
}

/// Marks, in ascending position order, every candidate position that is
/// either in `forced` or matches a still-unconsumed removed value.  The
/// flag reports a DJB collision: some candidate matched a removed value
/// that was already consumed (or forced).
fn match_removed(vals: &Vec<u32>, removed: &Vec<u32>, forced: &Vec<usize>) -> (r: (
    Vec<usize>,
    bool,
))
    ensures
        forall|t1: int, t2: int| 0 <= t1 < t2 < r.0@.len() ==> r.0@[t1] < r.0@[t2],
        forall|t: int| 0 <= t < r.0@.len() ==> #[trigger] r.0@[t] < vals@.len(),
{
    let mut dropped: Vec<usize> = Vec::new();
    let mut used: Vec<bool> = Vec::new();
    let mut t: usize = 0;
    while t < removed.len()
        invariant
            used@.len() == t,
            t <= removed@.len(),
        decreases removed@.len() - t,
    {
        used.push(false);
        t = t + 1;
    }
    let mut collisions = false;
    let mut i: usize = 0;
    while i < vals.len()
        invariant
            used@.len() == removed@.len(),
            i <= vals@.len(),
            forall|t1: int, t2: int|
                0 <= t1 < t2 < dropped@.len() ==> dropped@[t1] < dropped@[t2],
            forall|t2: int| 0 <= t2 < dropped@.len() ==> #[trigger] dropped@[t2] < i,
        decreases vals@.len() - i,
    {
        if contains_idx_sorted(forced, i) {
            dropped.push(i);
        } else {
            let v = vals[i];
            let mut matched = false;
            let mut saw_value = false;
            let mut u: usize = 0;
            while u < removed.len()
                invariant
                    used@.len() == removed@.len(),
                    u <= removed@.len(),
                decreases removed@.len() - u,
            {
                if removed[u] == v {
                    saw_value = true;
                    if !matched && !used[u] {
                        used.set(u, true);
                        matched = true;
                    }
                }
                u = u + 1;
            }
            if matched {
                dropped.push(i);
            } else if saw_value {
                collisions = true;
            }
        }
        i = i + 1;
    }
    (dropped, collisions)
}

/// Linear membership scan.
fn contains_idx_sorted(d: &Vec<usize>, x: usize) -> (r: bool)
    ensures
        r == d@.contains(x),
{
    let mut t: usize = 0;
    while t < d.len()
        invariant
            t <= d@.len(),
            forall|u: int| 0 <= u < t ==> d@[u] != x,
        decreases d@.len() - t,
    {
        if d[t] == x {
            return true;
        }
        t = t + 1;
    }
    false
}

/// Linear membership scan.
fn contains_u32(d: &Vec<u32>, x: u32) -> (r: bool)
    ensures
        r == d@.contains(x),
{
    let mut t: usize = 0;
    while t < d.len()
        invariant
            t <= d@.len(),
            forall|u: int| 0 <= u < t ==> d@[u] != x,
        decreases d@.len() - t,
    {
        if d[t] == x {
            return true;
        }
        t = t + 1;
    }
    false
}

} // verus!
