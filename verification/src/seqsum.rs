//! Weighted sums over multisets and sequences.
//!
//! Every accumulator in this crate is, mathematically, a family of weighted
//! sums over the multiset of processed elements.  Stating the models over
//! multisets makes order-independence (processing a permutation yields the
//! same state) a consequence of the model rather than a separate argument.

use vstd::prelude::*;

verus! {

use vstd::multiset::Multiset;

/// Sum of the weights `f(x)` over all elements of the multiset `m`,
/// with multiplicity, as an unbounded integer.
pub open spec fn weight_sum<A>(m: Multiset<A>, f: spec_fn(A) -> int) -> int
    decreases m.len(),
    via weight_sum_decreases::<A>
{
    if m.len() == 0 {
        0
    } else {
        let x = m.choose();
        f(x) + weight_sum(m.remove(x), f)
    }
}

#[via_fn]
proof fn weight_sum_decreases<A>(m: Multiset<A>, f: spec_fn(A) -> int) {
    broadcast use vstd::multiset::group_multiset_axioms;

}

/// Sum of the weights `f(x)` over the entries of the sequence `s`.
pub open spec fn weight_sum_seq<A>(s: Seq<A>, f: spec_fn(A) -> int) -> int
    decreases s.len(),
{
    if s.len() == 0 {
        0
    } else {
        weight_sum_seq(s.drop_last(), f) + f(s.last())
    }
}

/// Removing any present element takes its weight out of the sum.
pub proof fn lemma_weight_sum_remove<A>(m: Multiset<A>, y: A, f: spec_fn(A) -> int)
    requires
        m.count(y) > 0,
    ensures
        weight_sum(m, f) == f(y) + weight_sum(m.remove(y), f),
    decreases m.len(),
{
    broadcast use vstd::multiset::group_multiset_axioms;

    let z = m.choose();
    if z == y {
    } else {
        let mz = m.remove(z);
        lemma_weight_sum_remove(mz, y, f);
        let my = m.remove(y);
        assert(mz.remove(y) =~= my.remove(z));
        lemma_weight_sum_remove(my, z, f);
    }
}

/// Inserting an element adds its weight to the sum.
pub proof fn lemma_weight_sum_insert<A>(m: Multiset<A>, x: A, f: spec_fn(A) -> int)
    ensures
        weight_sum(m.insert(x), f) == weight_sum(m, f) + f(x),
{
    broadcast use vstd::multiset::group_multiset_axioms;

    lemma_weight_sum_remove(m.insert(x), x, f);
    assert(m.insert(x).remove(x) =~= m);
}

/// The sequence sum equals the sum over the sequence's multiset, so it is
/// invariant under permutation.
pub proof fn lemma_weight_sum_seq_multiset<A>(s: Seq<A>, f: spec_fn(A) -> int)
    ensures
        weight_sum_seq(s, f) == weight_sum(s.to_multiset(), f),
    decreases s.len(),
{
    broadcast use vstd::seq_lib::group_to_multiset_ensures;

    if s.len() == 0 {
        assert(s.to_multiset() =~= Multiset::<A>::empty());
        assert(s.to_multiset().len() == 0);
    } else {
        let d = s.drop_last();
        lemma_weight_sum_seq_multiset(d, f);
        assert(d.push(s.last()) =~= s);
        lemma_weight_sum_insert(d.to_multiset(), s.last(), f);
    }
}

/// Two sequences with the same multiset of entries have the same weighted sum.
pub proof fn lemma_weight_sum_seq_permutation<A>(s1: Seq<A>, s2: Seq<A>, f: spec_fn(A) -> int)
    requires
        s1.to_multiset() == s2.to_multiset(),
    ensures
        weight_sum_seq(s1, f) == weight_sum_seq(s2, f),
{
    lemma_weight_sum_seq_multiset(s1, f);
    lemma_weight_sum_seq_multiset(s2, f);
}

/// Appending one entry to a prefix extends the sequence sum by its weight;
/// this is the shape loop invariants use.
pub proof fn lemma_weight_sum_seq_take_step<A>(s: Seq<A>, i: int, f: spec_fn(A) -> int)
    requires
        0 <= i < s.len(),
    ensures
        weight_sum_seq(s.take(i + 1), f) == weight_sum_seq(s.take(i), f) + f(s[i]),
{
    assert(s.take(i + 1).drop_last() =~= s.take(i));
    assert(s.take(i + 1).last() == s[i]);
}

} // verus!
