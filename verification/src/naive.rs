//! Naive accumulator: a digest and nothing else.
//!
//! Validation searches every subset of the candidate log whose size equals
//! the processed count for one whose digest matches; the first match (in
//! lexicographic order of chosen positions) wins and its complement is the
//! drop witness.  The search is exact: a valid verdict is returned if and
//! only if some subset matches.  Exponential, but the ground truth the
//! other accumulators are measured against.

use vstd::prelude::*;

use crate::digest::{digest_state, digest_weight, Digest, DIGEST_KEY};
use crate::hashing::{sip13_hash, sip13_of};
use crate::power_sum::byte_views;
use crate::seqsum::weight_sum;
use crate::solver::keep_prefix;
use crate::ValidationResult;

verus! {

use vstd::multiset::Multiset;

/// How many of the selector's entries from position `i` on are set.
pub open spec fn count_true(sel: Seq<bool>, i: int) -> int
    decreases sel.len() - i,
{
    if i < 0 || i >= sel.len() {
        0
    } else {
        (if sel[i] {
            1int
        } else {
            0int
        }) + count_true(sel, i + 1)
    }
}

/// The sum of the hashes selected from position `i` on.
pub open spec fn sel_sum(h: Seq<u64>, sel: Seq<bool>, i: int) -> int
    decreases h.len() - i,
{
    if i < 0 || i >= h.len() {
        0
    } else {
        (if sel[i] {
            h[i] as int
        } else {
            0int
        }) + sel_sum(h, sel, i + 1)
    }
}

/// Whether some subset of exactly `need` of the hashes sums, modulo `2^64`
/// and starting from `acc`, to `target`.
pub open spec fn exists_matching_subset(h: Seq<u64>, need: int, acc: u64, target: u64) -> bool {
    exists|sel: Seq<bool>|
        sel.len() == h.len() && #[trigger] count_true(sel, 0) == need && ((acc + sel_sum(h, sel, 0))
            % 0x1_0000_0000_0000_0000) == target
}

/// At most `len - i` entries from position `i` on can be set.
proof fn lemma_count_true_bound(sel: Seq<bool>, i: int)
    ensures
        0 <= count_true(sel, i) <= sel.len() - i || count_true(sel, i) == 0,
    decreases sel.len() - i,
{
    if i < 0 || i >= sel.len() {
    } else {
        lemma_count_true_bound(sel, i + 1);
    }
}

/// Exhaustive search for `need` positions at or after `i` whose hashes,
/// added to `acc`, give `target` modulo `2^64`.  Returns the
/// lexicographically first such choice, `None` when none exists.
fn search_subset(h: &Vec<u64>, i: usize, need: usize, acc: u64, target: u64) -> (r: Option<
    Vec<usize>,
>)
    requires
        i <= h@.len(),
    ensures
        match r {
            Some(c) => {
                &&& c@.len() == need
                &&& forall|t: int| 0 <= t < c@.len() ==> i <= #[trigger] c@[t] < h@.len()
                &&& forall|t1: int, t2: int| 0 <= t1 < t2 < c@.len() ==> c@[t1] < c@[t2]
                &&& exists|sel: Seq<bool>|
                    sel.len() == h@.len() && count_true(sel, i as int) == need && ((acc + sel_sum(
                        h@,
                        sel,
                        i as int,
                    )) % 0x1_0000_0000_0000_0000) == target && (forall|t: int|
                        0 <= t < h@.len() ==> (#[trigger] sel[t] <==> c@.contains(t as usize)))
            },
            None => forall|sel: Seq<bool>|
                sel.len() == h@.len() && #[trigger] count_true(sel, i as int) == need ==> ((acc
                    + sel_sum(h@, sel, i as int)) % 0x1_0000_0000_0000_0000) != target,
        },
    decreases h@.len() - i,
{
    if need == 0 {
        if acc == target {
            let c: Vec<usize> = Vec::new();
            proof {
                let sel = Seq::new(h@.len(), |t: int| false);
                lemma_all_false(h@, sel, i as int);
                vstd::arithmetic::div_mod::lemma_small_mod(
                    acc as nat,
                    0x1_0000_0000_0000_0000nat,
                );
                assert(sel.len() == h@.len() && count_true(sel, i as int) == 0 && ((acc + sel_sum(
                    h@,
                    sel,
                    i as int,
                )) % 0x1_0000_0000_0000_0000) == target && (forall|t: int|
                    0 <= t < h@.len() ==> (#[trigger] sel[t] <==> c@.contains(t as usize))));
            }
            return Some(c);
        } else {
            proof {
                assert forall|sel: Seq<bool>|
                    sel.len() == h@.len() && #[trigger] count_true(sel, i as int)
                        == 0 implies ((acc + sel_sum(h@, sel, i as int))
                    % 0x1_0000_0000_0000_0000) != target by {
                    lemma_zero_count_zero_sum(h@, sel, i as int);
                    vstd::arithmetic::div_mod::lemma_small_mod(
                        acc as nat,
                        0x1_0000_0000_0000_0000nat,
                    );
                }
            }
            return None;
        }
    }
    if i >= h.len() || need > h.len() - i {
        proof {
            assert forall|sel: Seq<bool>|
                sel.len() == h@.len() && #[trigger] count_true(sel, i as int)
                    == need implies ((acc + sel_sum(h@, sel, i as int)) % 0x1_0000_0000_0000_0000)
                != target by {
                lemma_count_true_bound(sel, i as int);
            }
        }
        return None;
    }
    // Include position i.
    let hi = h[i];
    let acc2 = (((acc as u128) + (hi as u128)) % 0x1_0000_0000_0000_0000) as u64;
    let with_i = search_subset(h, i + 1, need - 1, acc2, target);
    match with_i {
        Some(rest) => {
            let mut c: Vec<usize> = Vec::new();
            c.push(i);
            let mut t: usize = 0;
            while t < rest.len()
                invariant
                    t <= rest@.len(),
                    c@ =~= seq![i].add(rest@.take(t as int)),
                decreases rest@.len() - t,
            {
                proof {
                    assert(rest@.take(t as int + 1) =~= rest@.take(t as int).push(
                        rest@[t as int],
                    ));
                }
                c.push(rest[t]);
                t = t + 1;
            }
            proof {
                assert(rest@.take(rest@.len() as int) =~= rest@);
                lemma_include_step(h@, i as int, acc, acc2, target, need as int, rest@, c@);
            }
            Some(c)
        },
        None => {
            let without = search_subset(h, i + 1, need, acc, target);
            match without {
                Some(rest) => {
                    proof {
                        let selr = choose|sel: Seq<bool>|
                            sel.len() == h@.len() && #[trigger] count_true(sel, i as int + 1)
                                == need && ((acc + sel_sum(h@, sel, i as int + 1))
                                % 0x1_0000_0000_0000_0000) == target && (forall|t: int|
                                0 <= t < h@.len() ==> (#[trigger] sel[t] <==> rest@.contains(
                                    t as usize,
                                )));
                        assert(!rest@.contains(i)) by {
                            if rest@.contains(i) {
                                let u = choose|u: int|
                                    0 <= u < rest@.len() && rest@[u] == i;
                            }
                        };
                        assert(!selr[i as int]);
                        assert(count_true(selr, i as int) == count_true(selr, i as int + 1));
                        assert(sel_sum(h@, selr, i as int) == sel_sum(h@, selr, i as int + 1));
                        assert(selr.len() == h@.len() && count_true(selr, i as int) == need && ((
                        acc + sel_sum(h@, selr, i as int)) % 0x1_0000_0000_0000_0000) == target
                            && (forall|t: int|
                            0 <= t < h@.len() ==> (#[trigger] selr[t] <==> rest@.contains(
                                t as usize,
                            ))));
                    }
                    Some(rest)
                },
                None => {
                    proof {
                        assert forall|sel: Seq<bool>|
                            sel.len() == h@.len() && #[trigger] count_true(sel, i as int)
                                == need implies ((acc + sel_sum(h@, sel, i as int))
                            % 0x1_0000_0000_0000_0000) != target by {
                            if sel[i as int] {
                                assert(count_true(sel, i as int + 1) == need - 1);
                                lemma_mod_shift_acc(
                                    acc as int,
                                    h@[i as int] as int,
                                    sel_sum(h@, sel, i as int + 1),
                                );
                            } else {
                                assert(count_true(sel, i as int + 1) == need);
                            }
                        }
                    }
                    None
                },
            }
        },
    }
}

/// An all-false selector selects nothing.
proof fn lemma_all_false(h: Seq<u64>, sel: Seq<bool>, i: int)
    requires
        sel.len() == h.len(),
        forall|t: int| 0 <= t < sel.len() ==> !sel[t],
    ensures
        count_true(sel, i) == 0,
        sel_sum(h, sel, i) == 0,
    decreases h.len() - i,
{
    if i < 0 || i >= h.len() {
    } else {
        lemma_all_false(h, sel, i + 1);
    }
}

/// A selector with no set entry from `i` on sums to zero.
proof fn lemma_zero_count_zero_sum(h: Seq<u64>, sel: Seq<bool>, i: int)
    requires
        sel.len() == h.len(),
        count_true(sel, i) == 0,
    ensures
        sel_sum(h, sel, i) == 0,
    decreases h.len() - i,
{
    if i < 0 || i >= h.len() {
    } else {
        lemma_count_true_nonneg(sel, i + 1);
        lemma_zero_count_zero_sum(h, sel, i + 1);
    }
}

/// Counts are nonnegative.
proof fn lemma_count_true_nonneg(sel: Seq<bool>, i: int)
    ensures
        count_true(sel, i) >= 0,
    decreases sel.len() - i,
{
    if i < 0 || i >= sel.len() {
    } else {
        lemma_count_true_nonneg(sel, i + 1);
    }
}

/// Wrapped accumulation folds through the modulus.
proof fn lemma_mod_shift_acc(acc: int, hi: int, rest: int)
    ensures
        ((((acc + hi) % 0x1_0000_0000_0000_0000) + rest) % 0x1_0000_0000_0000_0000) == ((acc + (hi
            + rest)) % 0x1_0000_0000_0000_0000),
{
    let m: int = 0x1_0000_0000_0000_0000;
    vstd::arithmetic::div_mod::lemma_add_mod_noop(acc + hi, rest, m);
    vstd::arithmetic::div_mod::lemma_mod_twice(acc + hi, m);
    vstd::arithmetic::div_mod::lemma_add_mod_noop(acc + hi, rest % m, m);
    vstd::arithmetic::div_mod::lemma_mod_twice(rest, m);
}

/// The witness of the include branch extends to position `i`.
proof fn lemma_include_step(
    h: Seq<u64>,
    i: int,
    acc: u64,
    acc2: u64,
    target: u64,
    need: int,
    rest: Seq<usize>,
    c: Seq<usize>,
)
    requires
        0 <= i < h.len(),
        h.len() <= usize::MAX,
        need >= 1,
        acc2 == ((acc + h[i]) % 0x1_0000_0000_0000_0000) as u64,
        c =~= seq![i as usize].add(rest),
        rest.len() == need - 1,
        forall|t: int| 0 <= t < rest.len() ==> i + 1 <= #[trigger] rest[t] < h.len(),
        forall|t1: int, t2: int| 0 <= t1 < t2 < rest.len() ==> rest[t1] < rest[t2],
        exists|sel: Seq<bool>|
            sel.len() == h.len() && #[trigger] count_true(sel, i + 1) == need - 1 && ((acc2
                + sel_sum(h, sel, i + 1)) % 0x1_0000_0000_0000_0000) == target && (forall|t: int|
                0 <= t < h.len() ==> (#[trigger] sel[t] <==> rest.contains(t as usize))),
    ensures
        c.len() == need,
        forall|t: int| 0 <= t < c.len() ==> i <= #[trigger] c[t] < h.len(),
        forall|t1: int, t2: int| 0 <= t1 < t2 < c.len() ==> c[t1] < c[t2],
        exists|sel: Seq<bool>|
            sel.len() == h.len() && #[trigger] count_true(sel, i) == need && ((acc + sel_sum(
                h,
                sel,
                i,
            )) % 0x1_0000_0000_0000_0000) == target && (forall|t: int|
                0 <= t < h.len() ==> (#[trigger] sel[t] <==> c.contains(t as usize))),
{
    let selr = choose|sel: Seq<bool>|
        sel.len() == h.len() && #[trigger] count_true(sel, i + 1) == need - 1 && ((acc2 + sel_sum(
            h,
            sel,
            i + 1,
        )) % 0x1_0000_0000_0000_0000) == target && (forall|t: int|
            0 <= t < h.len() ==> (#[trigger] sel[t] <==> rest.contains(t as usize)));
    let sel2 = selr.update(i, true);
    assert(count_true(sel2, i + 1) == count_true(selr, i + 1) && sel_sum(h, sel2, i + 1)
        == sel_sum(h, selr, i + 1)) by {
        lemma_tail_same(h, selr, sel2, i + 1);
    };
    assert(count_true(sel2, i) == 1 + count_true(sel2, i + 1));
    assert(sel_sum(h, sel2, i) == h[i] + sel_sum(h, sel2, i + 1));
    lemma_mod_shift_acc(acc as int, h[i] as int, sel_sum(h, selr, i + 1));
    assert forall|t: int| 0 <= t < h.len() implies (#[trigger] sel2[t] <==> c.contains(
        t as usize,
    )) by {
        if t == i {
            assert(c[0] == i as usize);
            assert(c.contains(i as usize));
        } else {
            assert(sel2[t] == selr[t]);
            if selr[t] {
                let u = choose|u: int| 0 <= u < rest.len() && rest[u] == t as usize;
                assert(c[u + 1] == rest[u]);
                assert(c.contains(t as usize));
            }
            if c.contains(t as usize) {
                let u = choose|u: int| 0 <= u < c.len() && c[u] == t as usize;
                assert(u != 0);
                assert(rest[u - 1] == t as usize);
                assert(rest.contains(t as usize));
            }
        }
    }
    assert(sel2.len() == h.len() && count_true(sel2, i) == need && ((acc + sel_sum(h, sel2, i))
        % 0x1_0000_0000_0000_0000) == target && (forall|t: int|
        0 <= t < h.len() ==> (#[trigger] sel2[t] <==> c.contains(t as usize))));
}

/// Two selectors equal from `i` on count and sum the same from `i` on.
proof fn lemma_tail_same(h: Seq<u64>, s1: Seq<bool>, s2: Seq<bool>, i: int)
    requires
        s1.len() == h.len(),
        s2.len() == h.len(),
        forall|t: int| i <= t < s1.len() ==> s1[t] == s2[t],
    ensures
        count_true(s1, i) == count_true(s2, i),
        sel_sum(h, s1, i) == sel_sum(h, s2, i),
    decreases h.len() - i,
{
    if i < 0 || i >= h.len() {
    } else {
        lemma_tail_same(h, s1, s2, i + 1);
    }
}

/// The naive accumulator: a digest and the processed count.
pub struct NaiveAccumulator {
    /// Keyed order-invariant fingerprint of the processed elements.
    pub digest: Digest,
}

impl NaiveAccumulator {
    /// Structural well-formedness: what deserialization can promise.
    pub open spec fn wfs(self) -> bool {
        self.digest.count <= usize::MAX
    }

    /// Full well-formedness: the digest is a faithful fingerprint of its
    /// model multiset.
    pub open spec fn wf(self) -> bool {
        self.wfs() && self.digest.wf()
    }

    /// A fresh accumulator with a random digest seed.
    pub fn new() -> (r: NaiveAccumulator)
        ensures
            r.wf(),
            r.digest.count == 0,
            r.digest.elems@ == Multiset::<Seq<u8>>::empty(),
    {
        NaiveAccumulator { digest: Digest::new() }
    }

    /// A fresh accumulator with the given digest seed; deterministic.
    pub fn new_with_seed(seed: u64) -> (r: NaiveAccumulator)
        ensures
            r.wf(),
            r.digest.seed == seed,
            r.digest.count == 0,
            r.digest.elems@ == Multiset::<Seq<u8>>::empty(),
    {
        NaiveAccumulator { digest: Digest::new_with_seed(seed) }
    }

    /// Value equality over the digest.
    pub open spec fn spec_equals(self, other: NaiveAccumulator) -> bool {
        self.digest.spec_equals(other.digest)
    }

    /// Value equality over the digest.
    pub fn equals(&self, other: &NaiveAccumulator) -> (r: bool)
        ensures
            r == self.spec_equals(*other),
    {
        self.digest.equals(&other.digest)
    }

    /// The number of absorbed elements.
    pub fn total(&self) -> (r: usize)
        requires
            self.digest.count <= usize::MAX,
        ensures
            r == self.digest.count,
    {
        self.digest.count as usize
    }

    /// Absorbs one element.
    pub fn process(&mut self, elem: &[u8])
        requires
            old(self).wf(),
            old(self).digest.count < usize::MAX,
        ensures
            final(self).wf(),
            final(self).digest.seed == old(self).digest.seed,
            final(self).digest.count == old(self).digest.count + 1,
            final(self).digest.elems@ == old(self).digest.elems@.insert(elem@),
    {
        self.digest.add(elem);
    }

    /// Absorbs a batch of elements; equal to processing them one by one.
    pub fn process_batch(&mut self, elems: &Vec<Vec<u8>>)
        requires
            old(self).wf(),
            old(self).digest.count + elems@.len() <= usize::MAX,
        ensures
            final(self).wf(),
            final(self).digest.seed == old(self).digest.seed,
            final(self).digest.count == old(self).digest.count + elems@.len(),
            final(self).digest.elems@ == old(self).digest.elems@.add(
                byte_views(elems@).to_multiset(),
            ),
    {
        proof {
            broadcast use vstd::multiset::group_multiset_axioms;
            broadcast use vstd::seq_lib::group_to_multiset_ensures;

            assert(byte_views(elems@).take(0) =~= Seq::<Seq<u8>>::empty());
            assert(byte_views(elems@).take(0).to_multiset() =~= Multiset::<Seq<u8>>::empty());
            assert(old(self).digest.elems@.add(Multiset::<Seq<u8>>::empty()) =~= old(
                self,
            ).digest.elems@);
        }
        let mut i: usize = 0;
        while i < elems.len()
            invariant
                old(self).wf(),
                i <= elems@.len(),
                old(self).digest.count + elems@.len() <= usize::MAX,
                self.wf(),
                self.digest.seed == old(self).digest.seed,
                self.digest.count == old(self).digest.count + i,
                self.digest.elems@ == old(self).digest.elems@.add(
                    byte_views(elems@).take(i as int).to_multiset(),
                ),
            decreases elems@.len() - i,
        {
            self.process(elems[i].as_slice());
            proof {
                broadcast use vstd::multiset::group_multiset_axioms;
                broadcast use vstd::seq_lib::group_to_multiset_ensures;

                let bv = byte_views(elems@);
                assert(bv.take(i as int).push(bv[i as int]) =~= bv.take(i as int + 1));
                assert(bv[i as int] == elems@[i as int]@);
                assert(self.digest.elems@ =~= old(self).digest.elems@.add(
                    bv.take(i as int + 1).to_multiset(),
                ));
            }
            i = i + 1;
        }
        proof {
            assert(byte_views(elems@).take(elems@.len() as int) =~= byte_views(elems@));
        }
    }

    /// Drops the absorbed elements, preserving the seed.
    pub fn reset(&mut self)
        requires
            old(self).wf(),
        ensures
            final(self).wf(),
            final(self).digest.seed == old(self).digest.seed,
            final(self).digest.count == 0,
            final(self).digest.elems@ == Multiset::<Seq<u8>>::empty(),
    {
        self.digest.reset();
    }


    /// The largest number of trailing candidates that can be cut while the
    /// accumulator still validates, by binary search over `validate` (the
    /// verifier's truncation probe; callers assume validity is monotone in
    /// the cut length).
    pub fn max_truncation(&self, elems: &Vec<Vec<u8>>) -> (r: usize)
        requires
            self.wfs(),
            self.digest.count <= elems@.len(),
            elems@.len() <= 0x7fff_ffff,
        ensures
            r <= elems@.len() - self.digest.count,
    {
        let total = self.total();
        let mut lo: usize = 0;
        let mut hi: usize = elems.len() - total;
        while lo != hi
            invariant
                self.wfs(),
                self.digest.count <= elems@.len(),
                elems@.len() <= 0x7fff_ffff,
                lo <= hi <= elems@.len() - self.digest.count,
            decreases hi - lo,
        {
            let mid = lo + (hi - lo) / 2;
            let prefix = crate::solver::log_prefix(elems, elems.len() - mid);
            if self.validate(&prefix).is_valid() {
                lo = mid + 1;
            } else {
                hi = mid;
            }
        }
        lo
    }
    /// The keyed hashes the digest gives to a list of elements.
    pub open spec fn elem_hashes(self, elems: Seq<Vec<u8>>) -> Seq<u64> {
        Seq::new(elems.len(), |t: int| sip13_of(self.digest.seed, DIGEST_KEY, elems[t]@))
    }

    /// Validates a candidate log against the accumulator by exhaustive
    /// subset search: valid exactly when some size-`total` subset of the
    /// candidates has the accumulator's digest; the witness is the
    /// complement of the first matching subset.
    pub fn validate(&self, elems: &Vec<Vec<u8>>) -> (r: ValidationResult)
        requires
            self.wfs(),
        ensures
            elems@.len() < self.digest.count ==> r is Invalid,
            elems@.len() >= self.digest.count ==> ((r is Valid) <==> exists_matching_subset(
                self.elem_hashes(elems@),
                self.digest.count as int,
                0,
                self.digest.state,
            )),
            elems@.len() >= self.digest.count ==> (r is Valid || r is Invalid),
            forall|d: Vec<usize>|
                (#[trigger] crate::power_sum::valid_witness(r, d)) ==> d@.len() == elems@.len()
                    - self.digest.count && (forall|t1: int, t2: int|
                    0 <= t1 < t2 < d@.len() ==> d@[t1] < d@[t2]) && (forall|t: int|
                    0 <= t < d@.len() ==> #[trigger] d@[t] < elems@.len()),
            forall|d: Vec<usize>|
                (#[trigger] crate::power_sum::valid_witness(r, d)) ==> digest_state(
                    self.digest.seed,
                    keep_prefix(elems@, d@, elems@.len() as int),
                ) == self.digest.state && keep_prefix(elems@, d@, elems@.len() as int).len()
                    == self.digest.count,
    {
        let total = self.total();
        if elems.len() < total {
            return ValidationResult::Invalid;
        }
        // Hash each candidate once with the digest's key.
        let mut h: Vec<u64> = Vec::new();
        let mut t: usize = 0;
        while t < elems.len()
            invariant
                self.wfs(),
                t <= elems@.len(),
                h@.len() == t,
                forall|u: int|
                    0 <= u < t ==> h@[u] == sip13_of(self.digest.seed, DIGEST_KEY, elems@[u]@),
            decreases elems@.len() - t,
        {
            let hv = sip13_hash(self.digest.seed, DIGEST_KEY, elems[t].as_slice());
            h.push(hv);
            t = t + 1;
        }
        proof {
            assert(h@ =~= self.elem_hashes(elems@));
        }
        match search_subset(&h, 0, total, 0, self.digest.state) {
            Some(chosen) => {
                let dropped = complement_of(&chosen, elems.len());
                proof {
                    let sel = choose|sel: Seq<bool>|
                        sel.len() == h@.len() && count_true(sel, 0) == total as int && ((0
                            + sel_sum(h@, sel, 0)) % 0x1_0000_0000_0000_0000)
                            == self.digest.state && (forall|t2: int|
                            0 <= t2 < h@.len() ==> (#[trigger] sel[t2] <==> chosen@.contains(
                                t2 as usize,
                            )));
                    assert forall|p: int| 0 <= p < elems@.len() implies (#[trigger] sel[p]
                        <==> !dropped@.contains(p as usize)) by {
                        assert(dropped@.contains(p as usize) <==> !chosen@.contains(p as usize));
                    }
                    lemma_keep_prefix_matches_selector(
                        elems@,
                        dropped@,
                        sel,
                        h@,
                        self.digest.seed,
                        elems@.len() as int,
                    );
                    assert(sel_sum(h@, sel, elems@.len() as int) == 0);
                    assert(count_true(sel, elems@.len() as int) == 0);
                    let kp = keep_prefix(elems@, dropped@, elems@.len() as int);
                    assert(digest_state(self.digest.seed, kp) == self.digest.state) by {
                        assert(weight_sum(kp, digest_weight(self.digest.seed)) == sel_sum(
                            h@,
                            sel,
                            0,
                        ));
                    };
                }
                ValidationResult::Valid(dropped)
            },
            None => ValidationResult::Invalid,
        }
    }
}

/// Appending an entry extends a selector count by the new flag.
proof fn lemma_count_true_push(sel: Seq<bool>, b: bool, i: int)
    requires
        0 <= i <= sel.len(),
    ensures
        count_true(sel.push(b), i) == count_true(sel, i) + if b {
            1int
        } else {
            0int
        },
    decreases sel.len() - i,
{
    if i == sel.len() {
        assert(count_true(sel.push(b), i + 1) == 0);
        assert(count_true(sel, i) == 0);
        assert(sel.push(b)[i] == b);
    } else {
        lemma_count_true_push(sel, b, i + 1);
        assert(sel.push(b)[i] == sel[i]);
    }
}

/// Appending a hash and its flag extends a selector sum accordingly.
proof fn lemma_sel_sum_push(h: Seq<u64>, sel: Seq<bool>, x: u64, b: bool, i: int)
    requires
        0 <= i <= h.len(),
        sel.len() == h.len(),
    ensures
        sel_sum(h.push(x), sel.push(b), i) == sel_sum(h, sel, i) + if b {
            x as int
        } else {
            0int
        },
    decreases h.len() - i,
{
    if i == h.len() {
        assert(sel_sum(h.push(x), sel.push(b), i + 1) == 0);
        assert(sel_sum(h, sel, i) == 0);
        assert(sel.push(b)[i] == b);
        assert(h.push(x)[i] == x);
    } else {
        lemma_sel_sum_push(h, sel, x, b, i + 1);
        assert(sel.push(b)[i] == sel[i]);
        assert(h.push(x)[i] == h[i]);
    }
}

/// Any sub-multiset of a candidate list can be realized as a selector
/// whose count is the multiset's size and whose hash sum is the
/// multiset's weight sum.
proof fn lemma_submultiset_selector(seed: u64, elems: Seq<Vec<u8>>, s: Multiset<Seq<u8>>)
    requires
        s.subset_of(byte_views(elems).to_multiset()),
    ensures
        exists|sel: Seq<bool>|
            sel.len() == elems.len() && #[trigger] count_true(sel, 0) == s.len() && sel_sum(
                Seq::new(elems.len(), |t: int| sip13_of(seed, DIGEST_KEY, elems[t]@)),
                sel,
                0,
            ) == crate::seqsum::weight_sum(s, crate::digest::digest_weight(seed)),
    decreases elems.len(),
{
    broadcast use vstd::multiset::group_multiset_axioms;
    broadcast use vstd::seq_lib::group_to_multiset_ensures;

    let h = Seq::new(elems.len(), |t: int| sip13_of(seed, DIGEST_KEY, elems[t]@));
    let w = crate::digest::digest_weight(seed);
    if elems.len() == 0 {
        assert(byte_views(elems).to_multiset() =~= Multiset::<Seq<u8>>::empty()) by {
            assert(byte_views(elems).len() == 0);
        };
        assert(s =~= Multiset::<Seq<u8>>::empty()) by {
            assert forall|x: Seq<u8>| s.count(x) == 0 by {
                assert(s.count(x) <= Multiset::<Seq<u8>>::empty().count(x));
            }
        };
        let sel = Seq::<bool>::empty();
        assert(sel.len() == elems.len() && count_true(sel, 0) == s.len() && sel_sum(h, sel, 0)
            == crate::seqsum::weight_sum(s, w));
    } else {
        let prefix = elems.drop_last();
        let last = elems.last()@;
        let hp = Seq::new(prefix.len(), |t: int| sip13_of(seed, DIGEST_KEY, prefix[t]@));
        assert(byte_views(prefix).push(last) =~= byte_views(elems));
        assert(byte_views(elems).to_multiset() == byte_views(prefix).to_multiset().insert(last));
        assert(h =~= hp.push(sip13_of(seed, DIGEST_KEY, last)));
        if s.count(last) > 0 {
            let s2 = s.remove(last);
            assert(s2.subset_of(byte_views(prefix).to_multiset())) by {
                assert forall|x: Seq<u8>|
                    s2.count(x) <= byte_views(prefix).to_multiset().count(x) by {
                    assert(s.count(x) <= byte_views(prefix).to_multiset().insert(last).count(x));
                }
            };
            lemma_submultiset_selector(seed, prefix, s2);
            let sel2 = choose|sel: Seq<bool>|
                sel.len() == prefix.len() && #[trigger] count_true(sel, 0) == s2.len() && sel_sum(
                    hp,
                    sel,
                    0,
                ) == crate::seqsum::weight_sum(s2, w);
            let sel = sel2.push(true);
            lemma_count_true_push(sel2, true, 0);
            lemma_sel_sum_push(hp, sel2, sip13_of(seed, DIGEST_KEY, last), true, 0);
            crate::seqsum::lemma_weight_sum_remove(s, last, w);
            assert(sel.len() == elems.len() && count_true(sel, 0) == s.len() && sel_sum(h, sel, 0)
                == crate::seqsum::weight_sum(s, w));
        } else {
            assert(s.subset_of(byte_views(prefix).to_multiset())) by {
                assert forall|x: Seq<u8>|
                    s.count(x) <= byte_views(prefix).to_multiset().count(x) by {
                    assert(s.count(x) <= byte_views(prefix).to_multiset().insert(last).count(x));
                    if x == last {
                        assert(s.count(x) == 0);
                    }
                }
            };
            lemma_submultiset_selector(seed, prefix, s);
            let sel2 = choose|sel: Seq<bool>|
                sel.len() == prefix.len() && #[trigger] count_true(sel, 0) == s.len() && sel_sum(
                    hp,
                    sel,
                    0,
                ) == crate::seqsum::weight_sum(s, w);
            let sel = sel2.push(false);
            lemma_count_true_push(sel2, false, 0);
            lemma_sel_sum_push(hp, sel2, sip13_of(seed, DIGEST_KEY, last), false, 0);
            assert(sel.len() == elems.len() && count_true(sel, 0) == s.len() && sel_sum(h, sel, 0)
                == crate::seqsum::weight_sum(s, w));
        }
    }
}

/// The multiset kept after removing the drop positions weighs, under the
/// digest's element hash, exactly what the complementary selector sums:
/// walking the positions below `i`, each kept position contributes its
/// keyed hash once.
proof fn lemma_keep_prefix_matches_selector(
    elems: Seq<Vec<u8>>,
    d: Seq<usize>,
    sel: Seq<bool>,
    h: Seq<u64>,
    seed: u64,
    i: int,
)
    requires
        elems.len() <= usize::MAX,
        0 <= i <= elems.len(),
        sel.len() == elems.len(),
        h.len() == elems.len(),
        forall|u: int| 0 <= u < elems.len() ==> h[u] == sip13_of(seed, DIGEST_KEY, elems[u]@),
        forall|p: int| 0 <= p < elems.len() ==> (#[trigger] sel[p] <==> !d.contains(p as usize)),
    ensures
        weight_sum(keep_prefix(elems, d, i), digest_weight(seed)) + sel_sum(h, sel, i) == sel_sum(
            h,
            sel,
            0,
        ),
        keep_prefix(elems, d, i).len() + count_true(sel, i) == count_true(sel, 0),
    decreases i,
{
    broadcast use vstd::multiset::group_multiset_axioms;

    let w = digest_weight(seed);
    if i <= 0 {
        assert(keep_prefix(elems, d, 0) == Multiset::<Seq<u8>>::empty());
        assert(Multiset::<Seq<u8>>::empty().len() == 0);
    } else {
        lemma_keep_prefix_matches_selector(elems, d, sel, h, seed, i - 1);
        if d.contains((i - 1) as usize) {
            assert(!sel[i - 1]);
        } else {
            assert(sel[i - 1]);
            crate::seqsum::lemma_weight_sum_insert(keep_prefix(elems, d, i - 1), elems[i - 1]@, w);
            assert(w(elems[i - 1]@) == h[i - 1] as int);
        }
    }
}

/// Law: when the accumulator's processed multiset is contained in the
/// candidate log's multiset, a matching subset exists, so `validate`
/// returns a valid verdict on that log.
pub proof fn lemma_subset_validates(a: NaiveAccumulator, elems: Seq<Vec<u8>>)
    requires
        a.wf(),
        a.digest.elems@.subset_of(byte_views(elems).to_multiset()),
    ensures
        exists_matching_subset(
            a.elem_hashes(elems),
            a.digest.count as int,
            0,
            a.digest.state,
        ),
{
    lemma_submultiset_selector(a.digest.seed, elems, a.digest.elems@);
    let h = a.elem_hashes(elems);
    let w = crate::digest::digest_weight(a.digest.seed);
    assert(h =~= Seq::new(
        elems.len(),
        |t: int| sip13_of(a.digest.seed, DIGEST_KEY, elems[t]@),
    ));
    let sel = choose|sel: Seq<bool>|
        sel.len() == elems.len() && #[trigger] count_true(sel, 0) == a.digest.elems@.len()
            && sel_sum(h, sel, 0) == crate::seqsum::weight_sum(a.digest.elems@, w);
    assert((0 + sel_sum(h, sel, 0)) % 0x1_0000_0000_0000_0000 == a.digest.state);
    assert(sel.len() == h.len() && count_true(sel, 0) == a.digest.count as int && ((0 + sel_sum(
        h,
        sel,
        0,
    )) % 0x1_0000_0000_0000_0000) == a.digest.state);
}

/// Law: naive accumulators that absorbed the same multiset of elements
/// from the same seed are equal, whatever the processing order.
pub proof fn lemma_naive_order_invariant(a: NaiveAccumulator, b: NaiveAccumulator)
    requires
        a.wf(),
        b.wf(),
        a.digest.seed == b.digest.seed,
        a.digest.elems@ == b.digest.elems@,
    ensures
        a.spec_equals(b),
{
    crate::digest::lemma_digest_order_invariant(a.digest, b.digest);
}

/// The ascending positions below `len` that `chosen` does not contain.
fn complement_of(chosen: &Vec<usize>, len: usize) -> (r: Vec<usize>)
    requires
        forall|t: int| 0 <= t < chosen@.len() ==> #[trigger] chosen@[t] < len,
        forall|t1: int, t2: int| 0 <= t1 < t2 < chosen@.len() ==> chosen@[t1] < chosen@[t2],
        chosen@.len() <= len,
    ensures
        r@.len() == len - chosen@.len(),
        forall|t: int| 0 <= t < r@.len() ==> #[trigger] r@[t] < len,
        forall|t1: int, t2: int| 0 <= t1 < t2 < r@.len() ==> r@[t1] < r@[t2],
        forall|p: int| 0 <= p < len ==> (#[trigger] r@.contains(p as usize) <==> !chosen@.contains(
            p as usize,
        )),
{
    let mut r: Vec<usize> = Vec::new();
    let mut p: usize = 0;
    let ghost cs = chosen@;
    proof {
        assert(cs.all(|x: usize| !(below_pred(0)(x)))) by {
            assert forall|t: int| 0 <= t < cs.len() implies !(below_pred(0)(cs[t])) by {}
        };
        cs.lemma_all_neg_filter_empty(below_pred(0));
        assert(cs.filter(below_pred(0)).len() == 0);
    }
    while p < len
        invariant
            forall|t: int| 0 <= t < cs.len() ==> #[trigger] cs[t] < len,
            forall|t1: int, t2: int| 0 <= t1 < t2 < cs.len() ==> cs[t1] < cs[t2],
            cs == chosen@,
            p <= len,
            r@.len() + count_below(cs, p as int) == p,
            forall|t: int| 0 <= t < r@.len() ==> #[trigger] r@[t] < p,
            forall|t1: int, t2: int| 0 <= t1 < t2 < r@.len() ==> r@[t1] < r@[t2],
            forall|q: int|
                0 <= q < p ==> (#[trigger] r@.contains(q as usize) <==> !cs.contains(q as usize)),
        decreases len - p,
    {
        proof {
            lemma_count_below_step(cs, p as int);
        }
        if contains_pos(chosen, p) {
        } else {
            let ghost r0 = r@;
            r.push(p);
            proof {
                assert forall|q: int| 0 <= q < p + 1 implies (#[trigger] r@.contains(q as usize)
                    <==> !cs.contains(q as usize)) by {
                    if q < p {
                        assert(r0.contains(q as usize) <==> !cs.contains(q as usize));
                        assert(r@ == r0.push(p as usize));
                        if r0.contains(q as usize) {
                            let u = choose|u: int| 0 <= u < r0.len() && r0[u] == q as usize;
                            assert(r@[u] == q as usize);
                            assert(r@.contains(q as usize));
                        }
                        if r@.contains(q as usize) {
                            let u = choose|u: int| 0 <= u < r@.len() && r@[u] == q as usize;
                            assert(u < r0.len());
                            assert(r0.contains(q as usize));
                        }
                    } else {
                        assert(r@[r@.len() - 1] == p as usize);
                        assert(r@.contains(p as usize));
                    }
                }
            }
        }
        p = p + 1;
    }
    proof {
        lemma_count_below_total(cs, len as int);
    }
    r
}

/// The positions strictly below `p`.
pub open spec fn below_pred(p: int) -> spec_fn(usize) -> bool {
    |x: usize| (x as int) < p
}

/// How many entries of the ascending sequence are below `p`.
pub open spec fn count_below(cs: Seq<usize>, p: int) -> int {
    cs.filter(below_pred(p)).len() as int
}

/// Extending the bound by one position adds one exactly when the position
/// is present (the sequence being duplicate-free by ascending order).
proof fn lemma_count_below_step(cs: Seq<usize>, p: int)
    requires
        forall|t1: int, t2: int| 0 <= t1 < t2 < cs.len() ==> cs[t1] < cs[t2],
        0 <= p <= usize::MAX,
    ensures
        count_below(cs, p + 1) == count_below(cs, p) + (if cs.contains(p as usize) {
            1int
        } else {
            0int
        }),
    decreases cs.len(),
{
    broadcast use vstd::seq_lib::group_filter_ensures;

    reveal(Seq::filter);
    if cs.len() == 0 {
        assert(cs.filter(below_pred(p)).len() == 0);
        assert(cs.filter(below_pred(p + 1)).len() == 0);
    } else {
        let last = cs.last();
        let rest = cs.drop_last();
        assert(forall|t1: int, t2: int| 0 <= t1 < t2 < rest.len() ==> rest[t1] < rest[t2]);
        lemma_count_below_step(rest, p);
        assert(cs =~= rest.push(last));
        lemma_filter_push(rest, last, p);
        lemma_filter_push(rest, last, p + 1);
        assert(count_below(cs, p) == count_below(rest, p) + (if (last as int) < p {
            1int
        } else {
            0int
        }));
        assert(count_below(cs, p + 1) == count_below(rest, p + 1) + (if (last as int) < p + 1 {
            1int
        } else {
            0int
        }));
        if cs.contains(p as usize) {
            let u = choose|u: int| 0 <= u < cs.len() && cs[u] == p as usize;
            if u == cs.len() - 1 {
                assert(last == p as usize);
                assert(!rest.contains(p as usize)) by {
                    if rest.contains(p as usize) {
                        let v = choose|v: int| 0 <= v < rest.len() && rest[v] == p as usize;
                        assert(cs[v] == cs[cs.len() - 1]);
                    }
                }
            } else {
                assert(rest[u] == p as usize);
                assert(rest.contains(p as usize));
                assert(last != p as usize) by {
                    assert(cs[u] < cs[cs.len() - 1]);
                }
            }
        } else {
            assert(!rest.contains(p as usize)) by {
                if rest.contains(p as usize) {
                    let v = choose|v: int| 0 <= v < rest.len() && rest[v] == p as usize;
                    assert(cs[v] == p as usize);
                }
            }
            assert(last != p as usize) by {
                if last == p as usize {
                    assert(cs[cs.len() - 1] == p as usize);
                }
            }
        }
    }
}

/// Filtering a pushed sequence.
proof fn lemma_filter_push(s: Seq<usize>, x: usize, p: int)
    ensures
        s.push(x).filter(below_pred(p)) == if (x as int) < p {
            s.filter(below_pred(p)).push(x)
        } else {
            s.filter(below_pred(p))
        },
{
    reveal(Seq::filter);
    assert(s.push(x).drop_last() =~= s);
    assert(s.push(x).last() == x);
}

/// Every entry below `len` counts once in total.
proof fn lemma_count_below_total(cs: Seq<usize>, len: int)
    requires
        forall|t: int| 0 <= t < cs.len() ==> #[trigger] cs[t] < len,
    ensures
        count_below(cs, len) == cs.len(),
{
    broadcast use vstd::seq_lib::group_filter_ensures;

    lemma_filter_all(cs, len);
}

/// A filter every entry satisfies keeps the whole sequence.
proof fn lemma_filter_all(cs: Seq<usize>, len: int)
    requires
        forall|t: int| 0 <= t < cs.len() ==> #[trigger] cs[t] < len,
    ensures
        cs.filter(below_pred(len)) =~= cs,
    decreases cs.len(),
{
    reveal(Seq::filter);
    if cs.len() == 0 {
    } else {
        lemma_filter_all(cs.drop_last(), len);
        assert(cs.drop_last().push(cs.last()) =~= cs);
        lemma_filter_push(cs.drop_last(), cs.last(), len);
    }
}

/// Linear membership scan.
fn contains_pos(d: &Vec<usize>, x: usize) -> (r: bool)
    ensures
        r == d@.contains(x),
{
    let mut t: usize = 0;
    while t < d.len()
        invariant
            t <= d@.len(),
            forall|u: int| 0 <= u < t ==> d@[u] != x,
        decreases d@.len() - t,
    {
        if d[t] == x {
            return true;
        }
        t = t + 1;
    }
    false
}

} // verus!
