//! Helpers for working with packet logs.
//!
//! Extracting fixed-width elements from captured packets, comparing two
//! logs as multisets, and the median of a measurement series.

use vstd::prelude::*;

verus! {

/// The element a captured packet yields: the `nbytes` bytes after the
/// 14-byte link-layer header, zero-padded when the packet is shorter.
pub open spec fn spec_extract_element(data: Seq<u8>, nbytes: int) -> Seq<u8> {
    Seq::new(
        nbytes as nat,
        |i: int|
            if 14 + i < data.len() {
                data[14 + i]
            } else {
                0u8
            },
    )
}

/// Slices the element out of a captured packet, zero-padding short
/// packets.
pub fn extract_element(data: &Vec<u8>, nbytes: usize) -> (r: Vec<u8>)
    ensures
        r@ =~= spec_extract_element(data@, nbytes as int),
{
    let dlen = data.len();
    let mut r: Vec<u8> = Vec::new();
    let mut i: usize = 0;
    while i < nbytes
        invariant
            dlen == data@.len(),
            i <= nbytes,
            r@.len() == i,
            forall|t: int|
                0 <= t < i ==> #[trigger] r@[t] == spec_extract_element(data@, nbytes as int)[t],
        decreases nbytes - i,
    {
        if i < usize::MAX - 14 && 14 + i < data.len() {
            let b = data[14 + i];
            r.push(b);
            proof {
                assert(r@[i as int] == spec_extract_element(data@, nbytes as int)[i as int]);
            }
        } else {
            r.push(0);
            proof {
                assert(r@[i as int] == spec_extract_element(data@, nbytes as int)[i as int]);
            }
        }
        i = i + 1;
    }
    r
}

/// How many entries of `s` equal `x`.
pub open spec fn occurrence_count(s: Seq<Vec<u8>>, x: Seq<u8>) -> int
    decreases s.len(),
{
    if s.len() == 0 {
        0
    } else {
        occurrence_count(s.drop_last(), x) + if s.last()@ == x {
            1int
        } else {
            0int
        }
    }
}

/// Counts the entries of `log` equal to `x`.
fn count_entry(log: &Vec<Vec<u8>>, x: &Vec<u8>) -> (r: usize)
    ensures
        r == occurrence_count(log@, x@),
{
    let mut r: usize = 0;
    let mut t: usize = 0;
    while t < log.len()
        invariant
            t <= log@.len(),
            r <= t,
            r == occurrence_count(log@.take(t as int), x@),
        decreases log@.len() - t,
    {
        proof {
            assert(log@.take(t as int + 1).drop_last() =~= log@.take(t as int));
        }
        if eq_bytes(&log[t], x) {
            r = r + 1;
        }
        t = t + 1;
    }
    proof {
        assert(log@.take(log@.len() as int) =~= log@);
    }
    r
}

/// Byte-wise equality of two elements.
fn eq_bytes(a: &Vec<u8>, b: &Vec<u8>) -> (r: bool)
    ensures
        r == (a@ == b@),
{
    if a.len() != b.len() {
        proof {
            assert(a@.len() != b@.len());
        }
        return false;
    }
    let mut t: usize = 0;
    while t < a.len()
        invariant
            a@.len() == b@.len(),
            t <= a@.len(),
            forall|u: int| 0 <= u < t ==> a@[u] == b@[u],
        decreases a@.len() - t,
    {
        if a[t] != b[t] {
            return false;
        }
        t = t + 1;
    }
    proof {
        assert(a@ =~= b@);
    }
    true
}

/// Whether every entry of `sub` occurs in `sup` at least as often: the
/// multiset of `sub` is contained in the multiset of `sup`.
pub open spec fn spec_log_subset(sub: Seq<Vec<u8>>, sup: Seq<Vec<u8>>) -> bool {
    forall|t: int|
        0 <= t < sub.len() ==> occurrence_count(sub, #[trigger] sub[t]@) <= occurrence_count(
            sup,
            sub[t]@,
        )
}

/// Whether the multiset of `sub` is contained in the multiset of `sup`,
/// counting repeated entries.
pub fn log_is_subset(sub: &Vec<Vec<u8>>, sup: &Vec<Vec<u8>>) -> (r: bool)
    ensures
        r == spec_log_subset(sub@, sup@),
{
    let mut t: usize = 0;
    while t < sub.len()
        invariant
            t <= sub@.len(),
            forall|u: int|
                0 <= u < t ==> occurrence_count(sub@, #[trigger] sub@[u]@) <= occurrence_count(
                    sup@,
                    sub@[u]@,
                ),
        decreases sub@.len() - t,
    {
        let cs = count_entry(sub, &sub[t]);
        let cp = count_entry(sup, &sub[t]);
        if cs > cp {
            return false;
        }
        t = t + 1;
    }
    true
}

/// The ordering the median sorts by.
pub open spec fn leq_u32() -> spec_fn(u32, u32) -> bool {
    |x: u32, y: u32| x <= y
}

/// The median of a nonempty measurement series: the middle element of the
/// sorted order, or the rounded mean of the two middle elements.
pub fn median(results: Vec<u32>) -> (r: u32)
    requires
        results@.len() >= 1,
    ensures
        ({
            let sorted = results@.sort_by(leq_u32());
            let mid = sorted.len() as int / 2;
            if results@.len() % 2 == 0 {
                r == ((sorted[mid] + sorted[mid - 1]) / 2) as u32
            } else {
                r == sorted[mid]
            }
        }),
{
    let ghost leq = leq_u32();
    let mut v = results;
    // Insertion sort.
    let mut i: usize = 1;
    while i < v.len()
        invariant
            v@.len() == results@.len(),
            1 <= i <= v@.len() || v@.len() < i,
            v@.to_multiset() == results@.to_multiset(),
            forall|t1: int, t2: int| 0 <= t1 < t2 < i ==> v@[t1] <= v@[t2],
        decreases v@.len() - i,
    {
        let mut j: usize = i;
        while j > 0
            invariant
                v@.len() == results@.len(),
                j <= i < v@.len(),
                v@.to_multiset() == results@.to_multiset(),
                forall|t1: int, t2: int| 0 <= t1 < t2 <= i && t2 != j ==> v@[t1] <= v@[t2],
                forall|t: int| j < t <= i ==> v@[j as int] <= #[trigger] v@[t],
            ensures
                v@.len() == results@.len(),
                v@.to_multiset() == results@.to_multiset(),
                forall|t1: int, t2: int| 0 <= t1 < t2 <= i ==> v@[t1] <= v@[t2],
            decreases j,
        {
            if v[j - 1] > v[j] {
                let a = v[j - 1];
                let b = v[j];
                let ghost pre = v@;
                v.set(j - 1, b);
                v.set(j, a);
                proof {
                    broadcast use vstd::seq_lib::group_to_multiset_ensures;
                    broadcast use vstd::seq_lib::to_multiset_update;
                    broadcast use vstd::multiset::group_multiset_axioms;

                    assert(pre.update(j - 1, b)[j as int] == b);
                    assert(v@ == pre.update(j - 1, b).update(j as int, a));
                    assert(v@.to_multiset() =~= pre.to_multiset());
                }
            } else {
                break ;
            }
            j = j - 1;
        }
        i = i + 1;
    }
    let mid = v.len() / 2;
    proof {
        results@.lemma_sort_by_ensures(leq);
        let sorted = results@.sort_by(leq);
        assert(vstd::relations::sorted_by(v@, leq)) by {
            assert forall|t1: int, t2: int|
                0 <= t1 < t2 < v@.len() implies leq(v@[t1], v@[t2]) by {}
        };
        assert(vstd::relations::total_ordering(leq)) by {
            assert(vstd::relations::reflexive(leq)) by {
                assert forall|x: u32| #[trigger] leq(x, x) by {}
            };
            assert(vstd::relations::transitive(leq)) by {
                assert forall|x: u32, y: u32, z: u32|
                    #[trigger] leq(x, y) && #[trigger] leq(y, z) implies leq(x, z) by {}
            };
            assert(vstd::relations::antisymmetric(leq)) by {
                assert forall|x: u32, y: u32|
                    #[trigger] leq(x, y) && #[trigger] leq(y, x) implies x == y by {}
            };
            assert(vstd::relations::strongly_connected(leq)) by {
                assert forall|x: u32, y: u32| #[trigger] leq(x, y) || #[trigger] leq(y, x) by {}
            };
        };
        vstd::seq_lib::lemma_sorted_unique(v@, sorted, leq);
    }
    if v.len() % 2 == 0 {
        let a = v[mid];
        let b = v[mid - 1];
        (((a as u64) + (b as u64)) / 2) as u32
    } else {
        v[mid]
    }
}

} // verus!
