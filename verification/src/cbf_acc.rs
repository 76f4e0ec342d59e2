//! Counting-Bloom-filter accumulator.
//!
//! The accumulator keeps a digest and a counting Bloom filter of the
//! processed elements.  Validation computes the exact per-cell counts of
//! the candidate log, subtracts the stored counters (any negative cell
//! proves the log is not a superset), searches for a set of candidates
//! whose incidences consume the difference exactly, and confirms the
//! recovered drop set against the digest.

use vstd::prelude::*;

use crate::cbf::{cbf_weight, CountingBloomFilter};
use crate::digest::{digest_state, Digest};
use crate::hashing::{cell_incidence, cell_index, hash_indexes, lemma_incidence_monotone};
use crate::power_sum::{byte_views, valid_witness};
use crate::seqsum::{lemma_weight_sum_seq_take_step, weight_sum_seq};
use crate::solver::{
    digest_matches_excluding, keep_prefix, lemma_keep_prefix_empty, solve_cover,
};
use crate::ValidationResult;

verus! {

use vstd::multiset::Multiset;

/// The exact number of cell-`c` hits the candidate list produces.
pub open spec fn batch_count(
    elems: Seq<Vec<u8>>,
    s1: u64,
    s2: u64,
    k: nat,
    n: int,
    c: int,
) -> int {
    weight_sum_seq(byte_views(elems), cbf_weight(s1, s2, k, n, c))
}

/// Counts, per cell, how often the candidate elements hit it.
fn batch_counts(elems: &Vec<Vec<u8>>, k: u32, s1: u64, s2: u64, n: u64) -> (r: Vec<u64>)
    requires
        1 <= n <= usize::MAX,
        elems@.len() <= 0xffff_ffff,
    ensures
        r@.len() == n,
        forall|c: int|
            0 <= c < n ==> #[trigger] r@[c] == batch_count(elems@, s1, s2, k as nat, n as int, c)
                && r@[c] <= elems@.len() * (k as int),
{
    let mut r: Vec<u64> = Vec::new();
    let mut t: usize = 0;
    while t < n as usize
        invariant
            n <= usize::MAX,
            r@.len() == t,
            t <= n,
            forall|c: int| 0 <= c < t ==> #[trigger] r@[c] == 0,
        decreases n - t,
    {
        r.push(0);
        t = t + 1;
    }
    proof {
        assert forall|c: int| 0 <= c < n implies #[trigger] r@[c] == weight_sum_seq(
            byte_views(elems@).take(0),
            cbf_weight(s1, s2, k as nat, n as int, c),
        ) by {
            assert(byte_views(elems@).take(0).len() == 0);
        }
    }
    let ghost bv = byte_views(elems@);
    let mut i: usize = 0;
    while i < elems.len()
        invariant
            1 <= n <= usize::MAX,
            elems@.len() <= 0xffff_ffff,
            bv == byte_views(elems@),
            r@.len() == n,
            i <= elems@.len(),
            forall|c: int|
                0 <= c < n ==> #[trigger] r@[c] == weight_sum_seq(
                    bv.take(i as int),
                    cbf_weight(s1, s2, k as nat, n as int, c),
                ) && 0 <= r@[c] <= i * (k as int),
        decreases elems@.len() - i,
    {
        let idxs = hash_indexes(elems[i].as_slice(), k, s1, s2, n);
        let ghost r0 = r@;
        let mut j: usize = 0;
        while j < idxs.len()
            invariant
                1 <= n <= usize::MAX,
                elems@.len() <= 0xffff_ffff,
                i < elems@.len(),
                bv == byte_views(elems@),
                idxs@.len() == k,
                forall|t2: int|
                    0 <= t2 < idxs@.len() ==> idxs@[t2] == cell_index(s1, s2, elems@[i as int]@,
                    t2, n as int) && idxs@[t2] < n,
                r@.len() == n,
                r0.len() == n,
                j <= idxs@.len(),
                forall|c: int|
                    0 <= c < n ==> #[trigger] r@[c] == r0[c] + cell_incidence(s1, s2,
                    elems@[i as int]@, j as nat, n as int, c) && 0 <= r@[c] <= i * (k as int) + j,
                forall|c: int|
                    0 <= c < n ==> 0 <= #[trigger] r0[c] <= i * (k as int),
            decreases idxs@.len() - j,
        {
            let c = idxs[j];
            let cur = r[c];
            proof {
                assert(i * (k as int) + j + 1 <= 0xffff_ffff * (k as int) + (k as int))
                    by (nonlinear_arith)
                    requires
                        i + 1 <= 0xffff_ffff,
                        0 <= j < k,
                ;
                assert(0xffff_ffff * (k as int) + (k as int) < 0xffff_ffff_ffff_ffff)
                    by (nonlinear_arith)
                    requires
                        k <= 0xffff_ffff,
                ;
            }
            r.set(c, cur + 1);
            proof {
                assert forall|c2: int| 0 <= c2 < n implies #[trigger] r@[c2] == r0[c2]
                    + cell_incidence(s1, s2, elems@[i as int]@, (j + 1) as nat, n as int, c2) && 0
                    <= r@[c2] <= i * (k as int) + j + 1 by {
                    if c2 != c as int {
                        assert(cell_index(s1, s2, elems@[i as int]@, j as int, n as int) != c2);
                        assert(cell_incidence(s1, s2, elems@[i as int]@, (j + 1) as nat, n as int,
                            c2) == cell_incidence(s1, s2, elems@[i as int]@, j as nat, n as int,
                            c2));
                    }
                }
            }
            j = j + 1;
        }
        proof {
            assert forall|c: int| 0 <= c < n implies #[trigger] r@[c] == weight_sum_seq(
                bv.take(i as int + 1),
                cbf_weight(s1, s2, k as nat, n as int, c),
            ) && 0 <= r@[c] <= (i + 1) * (k as int) by {
                let w = cbf_weight(s1, s2, k as nat, n as int, c);
                lemma_weight_sum_seq_take_step(bv, i as int, w);
                assert(bv[i as int] == elems@[i as int]@);
                assert((i + 1) * (k as int) == i * (k as int) + (k as int)) by (nonlinear_arith);
            }
        }
        i = i + 1;
    }
    proof {
        assert(bv.take(elems@.len() as int) =~= bv);
        assert forall|c: int| 0 <= c < n implies #[trigger] r@[c] <= elems@.len() * (
        k as int) by {}
    }
    r
}

/// The CBF accumulator: a digest plus a counting Bloom filter.
pub struct CBFAccumulator {
    /// Keyed order-invariant fingerprint of the processed elements.
    pub digest: Digest,
    /// Counting Bloom filter of the processed elements.
    pub cbf: CountingBloomFilter,
}

impl CBFAccumulator {
    /// Structural well-formedness: what deserialization can promise.
    pub open spec fn wfs(self) -> bool {
        &&& self.cbf.counters.wf()
        &&& self.cbf.counters.count == self.cbf.num_entries
        &&& 1 <= self.cbf.num_entries <= usize::MAX
        &&& 1 <= self.cbf.num_hashes <= 0xffff_ffff
        &&& self.digest.count <= usize::MAX
    }

    /// Full well-formedness: the filter and digest summarize the same
    /// processed multiset.
    pub open spec fn wf(self) -> bool {
        &&& self.wfs()
        &&& self.digest.wf()
        &&& self.cbf.wf()
        &&& self.cbf.elems@ == self.digest.elems@
    }

    /// A fresh accumulator with random digest and filter seeds.
    pub fn new(bits_per_entry: usize, num_entries: usize, num_hashes: u32) -> (r: CBFAccumulator)
        requires
            1 <= bits_per_entry <= 32,
            1 <= num_entries,
            num_entries * bits_per_entry + 31 <= usize::MAX,
            1 <= num_hashes,
        ensures
            r.wf(),
            r.digest.count == 0,
            r.digest.elems@ == Multiset::<Seq<u8>>::empty(),
    {
        CBFAccumulator {
            digest: Digest::new(),
            cbf: CountingBloomFilter::new(bits_per_entry, num_entries, num_hashes),
        }
    }

    /// A fresh accumulator with the given seeds; deterministic.
    pub fn new_with_seeds(
        bits_per_entry: usize,
        num_entries: usize,
        num_hashes: u32,
        digest_seed: u64,
        seed_one: u64,
        seed_two: u64,
    ) -> (r: CBFAccumulator)
        requires
            1 <= bits_per_entry <= 32,
            1 <= num_entries,
            num_entries * bits_per_entry + 31 <= usize::MAX,
            1 <= num_hashes,
        ensures
            r.wf(),
            r.digest.seed == digest_seed,
            r.digest.count == 0,
            r.digest.elems@ == Multiset::<Seq<u8>>::empty(),
            r.cbf.num_entries == num_entries,
            r.cbf.num_hashes == num_hashes,
            r.cbf.counters.bits_per_val == bits_per_entry,
    {
        CBFAccumulator {
            digest: Digest::new_with_seed(digest_seed),
            cbf: CountingBloomFilter::new_with_seeds(
                bits_per_entry,
                num_entries,
                num_hashes,
                seed_one,
                seed_two,
            ),
        }
    }

    /// Value equality over the digest and the filter.
    pub open spec fn spec_equals(self, other: CBFAccumulator) -> bool {
        self.digest.spec_equals(other.digest) && self.cbf.spec_equals(other.cbf)
    }

    /// Value equality over the digest and the filter.
    pub fn equals(&self, other: &CBFAccumulator) -> (r: bool)
        requires
            self.wfs(),
            other.wfs(),
        ensures
            r == self.spec_equals(*other),
    {
        self.digest.equals(&other.digest) && self.cbf.equals(&other.cbf)
    }

    /// The number of absorbed elements.
    pub fn total(&self) -> (r: usize)
        requires
            self.digest.count <= usize::MAX,
        ensures
            r == self.digest.count,
    {
        self.digest.count as usize
    }

    /// Whether `elem` can be absorbed without saturating a counter; callers
    /// must check before `process`, as saturation is fatal.
    pub fn can_process(&self, elem: &[u8]) -> (r: bool)
        requires
            self.wf(),
        ensures
            r == self.cbf.spec_can_insert(elem@),
    {
        self.cbf.can_insert(elem)
    }

    /// Absorbs one element.
    pub fn process(&mut self, elem: &[u8])
        requires
            old(self).wf(),
            old(self).digest.count < usize::MAX,
            old(self).cbf.spec_can_insert(elem@),
        ensures
            final(self).wf(),
            final(self).digest.seed == old(self).digest.seed,
            final(self).digest.count == old(self).digest.count + 1,
            final(self).digest.elems@ == old(self).digest.elems@.insert(elem@),
            old(self).cbf.same_shape(final(self).cbf),
            final(self).cbf.counters.mask == old(self).cbf.counters.mask,
            forall|c: int|
                0 <= c < old(self).cbf.num_entries ==> #[trigger] final(self).cbf.counters@[c]
                    == old(self).cbf.counters@[c] + cell_incidence(
                    old(self).cbf.seed_one,
                    old(self).cbf.seed_two,
                    elem@,
                    old(self).cbf.num_hashes as nat,
                    old(self).cbf.num_entries as int,
                    c,
                ),
    {
        self.digest.add(elem);
        self.cbf.insert(elem);
        proof {
            let s1 = self.cbf.seed_one;
            let s2 = self.cbf.seed_two;
            let k = self.cbf.num_hashes as nat;
            let n = self.cbf.num_entries as int;
            assert forall|c: int| 0 <= c < n implies #[trigger] self.cbf.counters@[c] == old(
                self,
            ).cbf.counters@[c] + cell_incidence(s1, s2, elem@, k, n, c) by {
                crate::seqsum::lemma_weight_sum_insert(
                    old(self).cbf.elems@,
                    elem@,
                    cbf_weight(s1, s2, k, n, c),
                );
            }
        }
    }

    /// Absorbs a batch of elements; equal to processing them one by one.
    /// The batch must fit: no counter may saturate along the way.
    pub fn process_batch(&mut self, elems: &Vec<Vec<u8>>)
        requires
            old(self).wf(),
            old(self).digest.count + elems@.len() <= usize::MAX,
            forall|c: int|
                0 <= c < old(self).cbf.num_entries ==> #[trigger] old(self).cbf.counters@[c]
                    + batch_count(elems@, old(self).cbf.seed_one, old(self).cbf.seed_two, old(
                    self,
                ).cbf.num_hashes as nat, old(self).cbf.num_entries as int, c) <= old(
                    self,
                ).cbf.counters.mask,
        ensures
            final(self).wf(),
            final(self).digest.seed == old(self).digest.seed,
            final(self).digest.count == old(self).digest.count + elems@.len(),
            final(self).digest.elems@ == old(self).digest.elems@.add(
                byte_views(elems@).to_multiset(),
            ),
            old(self).cbf.same_shape(final(self).cbf),
    {
        proof {
            broadcast use vstd::multiset::group_multiset_axioms;
            broadcast use vstd::seq_lib::group_to_multiset_ensures;

            assert(byte_views(elems@).take(0) =~= Seq::<Seq<u8>>::empty());
            assert(byte_views(elems@).take(0).to_multiset() =~= Multiset::<Seq<u8>>::empty());
            assert(old(self).digest.elems@.add(Multiset::<Seq<u8>>::empty()) =~= old(
                self,
            ).digest.elems@);
        }
        let ghost bv = byte_views(elems@);
        let mut i: usize = 0;
        while i < elems.len()
            invariant
                old(self).wf(),
                bv == byte_views(elems@),
                i <= elems@.len(),
                old(self).digest.count + elems@.len() <= usize::MAX,
                self.wf(),
                self.digest.seed == old(self).digest.seed,
                self.digest.count == old(self).digest.count + i,
                self.digest.elems@ == old(self).digest.elems@.add(
                    bv.take(i as int).to_multiset(),
                ),
                old(self).cbf.same_shape(self.cbf),
                self.cbf.counters.mask == old(self).cbf.counters.mask,
                forall|c: int|
                    0 <= c < self.cbf.num_entries ==> #[trigger] self.cbf.counters@[c]
                        == old(self).cbf.counters@[c] + weight_sum_seq(
                        bv.take(i as int),
                        cbf_weight(self.cbf.seed_one, self.cbf.seed_two,
                        self.cbf.num_hashes as nat, self.cbf.num_entries as int, c),
                    ),
                forall|c: int|
                    0 <= c < old(self).cbf.num_entries ==> #[trigger] old(self).cbf.counters@[c]
                        + batch_count(elems@, old(self).cbf.seed_one, old(self).cbf.seed_two, old(
                        self,
                    ).cbf.num_hashes as nat, old(self).cbf.num_entries as int, c) <= old(
                        self,
                    ).cbf.counters.mask,
            decreases elems@.len() - i,
        {
            let ghost s1 = self.cbf.seed_one;
            let ghost s2 = self.cbf.seed_two;
            let ghost k = self.cbf.num_hashes as nat;
            let ghost n = self.cbf.num_entries as int;
            proof {
                assert forall|c: int| 0 <= c < n implies #[trigger] self.cbf.counters@[c]
                    + cell_incidence(s1, s2, elems@[i as int]@, k, n, c)
                    <= self.cbf.counters.mask by {
                    let w = cbf_weight(s1, s2, k, n, c);
                    lemma_weight_sum_seq_take_step(bv, i as int, w);
                    lemma_weight_sum_seq_prefix_le(bv, i as int + 1, w, s1, s2, k, n, c);
                    assert(bv[i as int] == elems@[i as int]@);
                }
            }
            self.process(elems[i].as_slice());
            proof {
                broadcast use vstd::multiset::group_multiset_axioms;
                broadcast use vstd::seq_lib::group_to_multiset_ensures;

                assert(bv.take(i as int).push(bv[i as int]) =~= bv.take(i as int + 1));
                assert(bv[i as int] == elems@[i as int]@);
                assert(self.digest.elems@ =~= old(self).digest.elems@.add(
                    bv.take(i as int + 1).to_multiset(),
                ));
                assert forall|c: int| 0 <= c < self.cbf.num_entries implies
                    #[trigger] self.cbf.counters@[c] == old(self).cbf.counters@[c]
                    + weight_sum_seq(
                    bv.take(i as int + 1),
                    cbf_weight(s1, s2, k, n, c),
                ) by {
                    let w = cbf_weight(s1, s2, k, n, c);
                    lemma_weight_sum_seq_take_step(bv, i as int, w);
                }
            }
            i = i + 1;
        }
        proof {
            assert(bv.take(elems@.len() as int) =~= bv);
        }
    }

    /// Drops the absorbed elements, preserving the seeds and shape.
    pub fn reset(&mut self)
        requires
            old(self).wf(),
        ensures
            final(self).wf(),
            final(self).digest.seed == old(self).digest.seed,
            final(self).digest.count == 0,
            final(self).digest.elems@ == Multiset::<Seq<u8>>::empty(),
            old(self).cbf.same_shape(final(self).cbf),
    {
        self.digest.reset();
        let fresh = self.cbf.empty_clone();
        self.cbf = fresh;
    }


    /// The largest number of trailing candidates that can be cut while the
    /// accumulator still validates, by binary search over `validate` (the
    /// verifier's truncation probe; callers assume validity is monotone in
    /// the cut length).
    pub fn max_truncation(&self, elems: &Vec<Vec<u8>>) -> (r: usize)
        requires
            self.wfs(),
            self.digest.count <= elems@.len(),
            elems@.len() <= 0x7fff_ffff,
        ensures
            r <= elems@.len() - self.digest.count,
    {
        let total = self.total();
        let mut lo: usize = 0;
        let mut hi: usize = elems.len() - total;
        while lo != hi
            invariant
                self.wfs(),
                self.digest.count <= elems@.len(),
                elems@.len() <= 0x7fff_ffff,
                lo <= hi <= elems@.len() - self.digest.count,
            decreases hi - lo,
        {
            let mid = lo + (hi - lo) / 2;
            let prefix = crate::solver::log_prefix(elems, elems.len() - mid);
            if self.validate(&prefix).is_valid() {
                lo = mid + 1;
            } else {
                hi = mid;
            }
        }
        lo
    }
    /// Validates a candidate log against the accumulator.
    ///
    /// With `n` candidates beyond the processed count: a shorter list is
    /// `Invalid`; at `n == 0` the verdict reduces to the digest; otherwise
    /// any cell the candidates hit fewer times than the stored counter
    /// proves `Invalid`, and a digest-confirmed exact cover of the
    /// difference gives the drop witness.
    pub fn validate(&self, elems: &Vec<Vec<u8>>) -> (r: ValidationResult)
        requires
            self.wfs(),
            elems@.len() <= 0x7fff_ffff,
        ensures
            elems@.len() < self.digest.count ==> r is Invalid,
            elems@.len() == self.digest.count ==> ((r matches ValidationResult::Valid(d)
                && d@.len() == 0) <==> (digest_state(
                self.digest.seed,
                byte_views(elems@).to_multiset(),
            ) == self.digest.state && elems@.len() == self.digest.count)),
            elems@.len() == self.digest.count ==> (r is Valid || r is Invalid),
            (exists|c: int|
                0 <= c < self.cbf.num_entries && batch_count(
                    elems@,
                    self.cbf.seed_one,
                    self.cbf.seed_two,
                    self.cbf.num_hashes as nat,
                    self.cbf.num_entries as int,
                    c,
                ) < self.cbf.counters@[c]) && elems@.len() > self.digest.count ==> r is Invalid,
            (forall|c: int|
                0 <= c < self.cbf.num_entries ==> batch_count(
                    elems@,
                    self.cbf.seed_one,
                    self.cbf.seed_two,
                    self.cbf.num_hashes as nat,
                    self.cbf.num_entries as int,
                    c,
                ) >= #[trigger] self.cbf.counters@[c]) && elems@.len() > self.digest.count ==> (
            r is IbltIlpValid || r is IbltIlpInvalid),
            forall|d: Vec<usize>|
                (#[trigger] valid_witness(r, d)) ==> (forall|t1: int, t2: int|
                    0 <= t1 < t2 < d@.len() ==> d@[t1] < d@[t2]) && (forall|t: int|
                    0 <= t < d@.len() ==> #[trigger] d@[t] < elems@.len()) && digest_state(
                    self.digest.seed,
                    keep_prefix(elems@, d@, elems@.len() as int),
                ) == self.digest.state && keep_prefix(elems@, d@, elems@.len() as int).len()
                    == self.digest.count,
    {
        let total = self.total();
        if elems.len() < total {
            return ValidationResult::Invalid;
        }
        let n = elems.len() - total;
        if n == 0 {
            let empty_drop: Vec<usize> = Vec::new();
            let ok = digest_matches_excluding(
                self.digest.seed,
                self.digest.count,
                self.digest.state,
                elems,
                &empty_drop,
            );
            proof {
                broadcast use vstd::seq_lib::group_to_multiset_ensures;

                lemma_keep_prefix_empty(elems@, elems@.len() as int);
                assert(byte_views(elems@).take(elems@.len() as int) =~= byte_views(elems@));
                assert(empty_drop@ =~= Seq::<usize>::empty());
                assert(byte_views(elems@).to_multiset().len() == byte_views(elems@).len());
            }
            if ok {
                return ValidationResult::Valid(empty_drop);
            } else {
                return ValidationResult::Invalid;
            }
        }
        // Exact per-cell counts of the candidate log.
        let k = self.cbf.num_hashes();
        let s1 = self.cbf.seed_one;
        let s2 = self.cbf.seed_two;
        let ne = self.cbf.num_entries();
        let counts = batch_counts(elems, k, s1, s2, ne);
        // Difference with the stored counters; negative cells prove a
        // non-superset.
        let mut diffs: Vec<i64> = Vec::new();
        let mut c: usize = 0;
        while c < ne as usize
            invariant
                self.wfs(),
                elems@.len() > self.digest.count,
                ne == self.cbf.num_entries,
                counts@.len() == ne,
                elems@.len() <= 0x7fff_ffff,
                k == self.cbf.num_hashes,
                s1 == self.cbf.seed_one,
                s2 == self.cbf.seed_two,
                forall|t: int|
                    0 <= t < ne ==> #[trigger] counts@[t] == batch_count(elems@, s1, s2, k as nat,
                    ne as int, t) && counts@[t] <= elems@.len() * (k as int),
                c <= ne,
                diffs@.len() == c,
                forall|t: int| 0 <= t < c ==> 0 <= #[trigger] diffs@[t],
                forall|t: int|
                    0 <= t < c ==> batch_count(elems@, s1, s2, k as nat, ne as int, t)
                        >= #[trigger] self.cbf.counters@[t],
            decreases ne - c,
        {
            let stored = self.cbf.counters.get(c);
            let cnt = counts[c];
            if cnt < stored as u64 {
                return ValidationResult::Invalid;
            }
            proof {
                assert(elems@.len() * (k as int) < 0x8000_0000_0000_0000)
                    by (nonlinear_arith)
                    requires
                        elems@.len() <= 0x7fff_ffff,
                        k <= 0xffff_ffff,
                ;
            }
            diffs.push((cnt - (stored as u64)) as i64);
            c = c + 1;
        }
        // Candidates: elements all of whose cells still show a deficit.
        let mut cand_pos: Vec<usize> = Vec::new();
        let mut cand_cells: Vec<Vec<usize>> = Vec::new();
        let mut i: usize = 0;
        while i < elems.len()
            invariant
                self.wfs(),
                elems@.len() > self.digest.count,
                ne == self.cbf.num_entries,
                diffs@.len() == ne,
                k == self.cbf.num_hashes,
                s1 == self.cbf.seed_one,
                s2 == self.cbf.seed_two,
                forall|t: int|
                    0 <= t < ne ==> batch_count(elems@, s1, s2, k as nat, ne as int, t)
                        >= #[trigger] self.cbf.counters@[t],
                i <= elems@.len(),
                cand_pos@.len() == cand_cells@.len(),
                forall|t: int| 0 <= t < cand_pos@.len() ==> #[trigger] cand_pos@[t] < i,
                forall|t1: int, t2: int|
                    0 <= t1 < t2 < cand_pos@.len() ==> cand_pos@[t1] < cand_pos@[t2],
                forall|a: int, t: int|
                    0 <= a < cand_cells@.len() && 0 <= t < cand_cells@[a]@.len()
                        ==> #[trigger] cand_cells@[a]@[t] < diffs@.len(),
            decreases elems@.len() - i,
        {
            let idxs = hash_indexes(elems[i].as_slice(), k, s1, s2, ne);
            let mut all_pos = true;
            let mut j: usize = 0;
            while j < idxs.len()
                invariant
                    diffs@.len() == ne,
                    forall|t: int| 0 <= t < idxs@.len() ==> #[trigger] idxs@[t] < ne,
                    j <= idxs@.len(),
                decreases idxs@.len() - j,
            {
                if diffs[idxs[j]] == 0 {
                    all_pos = false;
                }
                j = j + 1;
            }
            if all_pos {
                cand_pos.push(i);
                cand_cells.push(idxs);
            }
            i = i + 1;
        }
        // Search for an exact cover of the difference.
        match solve_cover(&diffs, &cand_cells, 0, n) {
            Some(sol) => {
                // Map chosen candidate positions back to log indices.
                let mut dropped: Vec<usize> = Vec::new();
                let mut t: usize = 0;
                while t < sol.len()
                    invariant
                        self.wfs(),
                        elems@.len() > self.digest.count,
                        forall|t: int|
                            0 <= t < self.cbf.num_entries ==> batch_count(
                                elems@,
                                self.cbf.seed_one,
                                self.cbf.seed_two,
                                self.cbf.num_hashes as nat,
                                self.cbf.num_entries as int,
                                t,
                            ) >= #[trigger] self.cbf.counters@[t],
                        forall|u: int| 0 <= u < sol@.len() ==> #[trigger] sol@[u]
                            < cand_pos@.len(),
                        forall|u1: int, u2: int|
                            0 <= u1 < u2 < sol@.len() ==> sol@[u1] < sol@[u2],
                        forall|u: int|
                            0 <= u < cand_pos@.len() ==> #[trigger] cand_pos@[u] < elems@.len(),
                        forall|u1: int, u2: int|
                            0 <= u1 < u2 < cand_pos@.len() ==> cand_pos@[u1] < cand_pos@[u2],
                        t <= sol@.len(),
                        dropped@.len() == t,
                        forall|u: int|
                            0 <= u < t ==> #[trigger] dropped@[u] == cand_pos@[sol@[u] as int],
                        forall|u: int| 0 <= u < t ==> #[trigger] dropped@[u] < elems@.len(),
                        forall|u1: int, u2: int|
                            0 <= u1 < u2 < t ==> dropped@[u1] < dropped@[u2],
                    decreases sol@.len() - t,
                {
                    dropped.push(cand_pos[sol[t]]);
                    t = t + 1;
                }
                let ok = digest_matches_excluding(
                    self.digest.seed,
                    self.digest.count,
                    self.digest.state,
                    elems,
                    &dropped,
                );
                if ok {
                    ValidationResult::IbltIlpValid(dropped)
                } else {
                    ValidationResult::IbltIlpInvalid
                }
            },
            None => ValidationResult::IbltIlpInvalid,
        }
    }
}

/// Law: CBF accumulators of one shape that absorbed the same multiset of
/// elements from the same seeds are equal, whatever the processing order.
pub proof fn lemma_cbf_acc_order_invariant(a: CBFAccumulator, b: CBFAccumulator)
    requires
        a.wf(),
        b.wf(),
        a.digest.seed == b.digest.seed,
        a.digest.elems@ == b.digest.elems@,
        a.cbf.same_shape(b.cbf),
    ensures
        a.spec_equals(b),
{
    crate::digest::lemma_digest_order_invariant(a.digest, b.digest);
    crate::cbf::lemma_cbf_order_invariant(a.cbf, b.cbf);
}

/// A prefix of a nonnegative-weight sum is bounded by the total.
proof fn lemma_weight_sum_seq_prefix_le(
    bv: Seq<Seq<u8>>,
    i: int,
    w: spec_fn(Seq<u8>) -> int,
    s1: u64,
    s2: u64,
    k: nat,
    n: int,
    c: int,
)
    requires
        0 <= i <= bv.len(),
        w == cbf_weight(s1, s2, k, n, c),
    ensures
        weight_sum_seq(bv.take(i), w) <= weight_sum_seq(bv, w),
    decreases bv.len() - i,
{
    if i == bv.len() {
        assert(bv.take(i) =~= bv);
    } else {
        lemma_weight_sum_seq_take_step(bv, i, w);
        lemma_incidence_monotone(s1, s2, bv[i], 0, k, n, c);
        lemma_weight_sum_seq_prefix_le(bv, i + 1, w, s1, s2, k, n, c);
    }
}

} // verus!
