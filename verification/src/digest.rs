//! Keyed, order-independent multiset fingerprint.
//!
//! The digest of a multiset of elements is the sum, modulo `2^64`, of a
//! keyed 64-bit hash of each element, together with the element count and
//! the seed the hash is keyed with.  Because addition is commutative the
//! digest does not depend on the order in which elements are absorbed.

use vstd::prelude::*;

use crate::hashing::{random_seed, sip13_hash, sip13_of};
use crate::seqsum::{lemma_weight_sum_insert, weight_sum};

verus! {

use vstd::multiset::Multiset;

/// Second sip key of the digest hasher.
pub const DIGEST_KEY: u64 = 0x517c_c1b7_2722_0a95;

/// The keyed hash a digest with seed `seed` gives to one element.
pub open spec fn digest_weight(seed: u64) -> spec_fn(Seq<u8>) -> int {
    |e: Seq<u8>| sip13_of(seed, DIGEST_KEY, e) as int
}

/// The fingerprint of a multiset of elements under seed `seed`.
pub open spec fn digest_state(seed: u64, m: Multiset<Seq<u8>>) -> u64 {
    (weight_sum(m, digest_weight(seed)) % 0x1_0000_0000_0000_0000) as u64
}

/// Keyed, order-invariant fingerprint with a running element count.
pub struct Digest {
    /// Key of the element hash; fixed for the digest's lifetime.
    pub seed: u64,
    /// Number of absorbed elements.
    pub count: u64,
    /// Sum of the keyed element hashes, modulo `2^64`.
    pub state: u64,
    /// The multiset of absorbed elements (model only).
    pub elems: Ghost<Multiset<Seq<u8>>>,
}

impl Digest {
    /// The struct is a faithful fingerprint of its model multiset.
    pub open spec fn wf(self) -> bool {
        &&& self.count == self.elems@.len()
        &&& self.state == digest_state(self.seed, self.elems@)
    }

    /// Value equality over seed, count and state, as `equals` decides it.
    pub open spec fn spec_equals(self, other: Digest) -> bool {
        self.seed == other.seed && self.count == other.count && self.state == other.state
    }

    /// A fresh digest with a random seed.
    pub fn new() -> (r: Digest)
        ensures
            r.wf(),
            r.count == 0,
            r.elems@ == Multiset::<Seq<u8>>::empty(),
    {
        let seed = random_seed();
        Digest::new_with_seed(seed)
    }

    /// A fresh digest with the given seed; deterministic.
    pub fn new_with_seed(seed: u64) -> (r: Digest)
        ensures
            r.wf(),
            r.seed == seed,
            r.count == 0,
            r.elems@ == Multiset::<Seq<u8>>::empty(),
    {
        proof {
            broadcast use vstd::multiset::group_multiset_axioms;

            vstd::arithmetic::div_mod::lemma_small_mod(0nat, 0x1_0000_0000_0000_0000nat);
        }
        Digest { seed, count: 0, state: 0, elems: Ghost(Multiset::empty()) }
    }

    /// Rebuilds a digest from its serialized fields.  The model multiset is
    /// unknown, so nothing ties the fields to a multiset; `wf` does not hold
    /// of the result and only `equals` may be used on it.
    pub fn from_parts(seed: u64, count: u64, state: u64) -> (r: Digest)
        ensures
            r.seed == seed,
            r.count == count,
            r.state == state,
    {
        Digest { seed, count, state, elems: Ghost(Multiset::empty()) }
    }

    /// Absorbs one element.
    pub fn add(&mut self, elem: &[u8])
        requires
            old(self).count < u64::MAX,
        ensures
            final(self).wf() <== old(self).wf(),
            final(self).seed == old(self).seed,
            final(self).count == old(self).count + 1,
            final(self).elems@ == old(self).elems@.insert(elem@),
            final(self).state == ((old(self).state + sip13_of(
                old(self).seed,
                DIGEST_KEY,
                elem@,
            )) % 0x1_0000_0000_0000_0000) as u64,
    {
        let h = sip13_hash(self.seed, DIGEST_KEY, elem);
        let wide: u128 = (self.state as u128) + (h as u128);
        self.state = (wide % 0x1_0000_0000_0000_0000) as u64;
        self.count = self.count + 1;
        proof {
            broadcast use vstd::multiset::group_multiset_axioms;

            let m: int = 0x1_0000_0000_0000_0000;
            let w = digest_weight(old(self).seed);
            let ws = weight_sum(old(self).elems@, w);
            self.elems@ = old(self).elems@.insert(elem@);
            if old(self).wf() {
                lemma_weight_sum_insert(old(self).elems@, elem@, w);
                vstd::arithmetic::div_mod::lemma_small_mod(h as nat, m as nat);
                vstd::arithmetic::div_mod::lemma_add_mod_noop(ws, h as int, m);
            }
        }
    }

    /// Drops the absorbed elements, preserving the seed.
    pub fn reset(&mut self)
        ensures
            final(self).wf(),
            final(self).seed == old(self).seed,
            final(self).count == 0,
            final(self).elems@ == Multiset::<Seq<u8>>::empty(),
    {
        let fresh = Digest::new_with_seed(self.seed);
        *self = fresh;
    }

    /// Value equality over seed, count and state.
    pub fn equals(&self, other: &Digest) -> (r: bool)
        ensures
            r == self.spec_equals(*other),
    {
        self.seed == other.seed && self.count == other.count && self.state == other.state
    }
}

/// Law: the digest is a function of the seed and the *multiset* of absorbed
/// elements alone, so digests built by processing any two permutations of
/// the same batch from the same seed are equal.
pub proof fn lemma_digest_order_invariant(d1: Digest, d2: Digest)
    requires
        d1.wf(),
        d2.wf(),
        d1.seed == d2.seed,
        d1.elems@ == d2.elems@,
    ensures
        d1.spec_equals(d2),
{
}

/// Law: two digests with different seeds are never equal, even when both
/// are empty.
pub proof fn lemma_digest_distinct_seeds(d1: Digest, d2: Digest)
    requires
        d1.seed != d2.seed,
    ensures
        !d1.spec_equals(d2),
{
}

} // verus!
