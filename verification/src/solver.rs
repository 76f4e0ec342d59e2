//! Drop-witness search and checking.
//!
//! The CBF and IBLT validators reduce to an exact-cover question: choose
//! `need` of the candidate elements so that their cell incidences consume a
//! difference table exactly.  `solve_cover` searches for such a choice by
//! backtracking; every returned choice carries a machine-checked
//! certificate (the counters reach exactly zero).  `digest_matches_excluding`
//! then confirms a claimed drop set against the digest.

use vstd::prelude::*;

use crate::digest::{digest_state, Digest};
use crate::power_sum::byte_views;

verus! {

use vstd::multiset::Multiset;

/// The counters of a difference table as unbounded integers.
pub open spec fn int_counts(v: Seq<i64>) -> Seq<int> {
    Seq::new(v.len(), |i: int| v[i] as int)
}

/// The counters after one candidate's cells are each decremented once.
pub open spec fn apply_cand(counters: Seq<int>, cells: Seq<usize>) -> Seq<int>
    decreases cells.len(),
{
    if cells.len() == 0 {
        counters
    } else {
        let prev = apply_cand(counters, cells.drop_last());
        prev.update(cells.last() as int, prev[cells.last() as int] - 1)
    }
}

/// The counters after the chosen candidates (by position, front first) are
/// all applied.
pub open spec fn apply_choice(counters: Seq<int>, cands: Seq<Seq<usize>>, sol: Seq<usize>) -> Seq<
    int,
>
    decreases sol.len(),
{
    if sol.len() == 0 {
        counters
    } else {
        apply_choice(
            apply_cand(counters, cands[sol.first() as int]),
            cands,
            sol.drop_first(),
        )
    }
}

/// Whether every counter is exactly zero.
pub open spec fn all_zero(s: Seq<int>) -> bool {
    forall|c: int| 0 <= c < s.len() ==> s[c] == 0
}

/// Whether `sel` is an ascending choice of candidate positions in
/// `[i, len)`.
pub open spec fn valid_choice(sel: Seq<usize>, i: int, len: int) -> bool {
    &&& forall|t: int| 0 <= t < sel.len() ==> i <= #[trigger] sel[t] < len
    &&& forall|t1: int, t2: int| 0 <= t1 < t2 < sel.len() ==> sel[t1] < sel[t2]
}

/// Applying a candidate never increases a counter and keeps the length.
proof fn lemma_apply_cand_le(x: Seq<int>, cells: Seq<usize>)
    requires
        forall|t: int| 0 <= t < cells.len() ==> #[trigger] cells[t] < x.len(),
    ensures
        apply_cand(x, cells).len() == x.len(),
        forall|c: int| 0 <= c < x.len() ==> #[trigger] apply_cand(x, cells)[c] <= x[c],
    decreases cells.len(),
{
    if cells.len() == 0 {
    } else {
        assert(forall|t: int|
            0 <= t < cells.drop_last().len() ==> #[trigger] cells.drop_last()[t] < x.len());
        lemma_apply_cand_le(x, cells.drop_last());
    }
}

/// Applying candidates in two stages is applying their concatenation.
proof fn lemma_apply_cand_concat(x: Seq<int>, a: Seq<usize>, b: Seq<usize>)
    ensures
        apply_cand(x, a + b) == apply_cand(apply_cand(x, a), b),
    decreases b.len(),
{
    if b.len() == 0 {
        assert(a + b =~= a);
    } else {
        lemma_apply_cand_concat(x, a, b.drop_last());
        assert((a + b).drop_last() =~= a + b.drop_last());
        assert((a + b).last() == b.last());
    }
}

/// A whole choice never increases a counter and keeps the length.
proof fn lemma_apply_choice_le(x: Seq<int>, cands: Seq<Seq<usize>>, sel: Seq<usize>)
    requires
        forall|a: int, t: int|
            0 <= a < cands.len() && 0 <= t < cands[a].len() ==> #[trigger] cands[a][t] < x.len(),
        forall|t: int| 0 <= t < sel.len() ==> #[trigger] sel[t] < cands.len(),
    ensures
        apply_choice(x, cands, sel).len() == x.len(),
        forall|c: int| 0 <= c < x.len() ==> #[trigger] apply_choice(x, cands, sel)[c] <= x[c],
    decreases sel.len(),
{
    if sel.len() == 0 {
    } else {
        lemma_apply_cand_le(x, cands[sel.first() as int]);
        lemma_apply_choice_le(apply_cand(x, cands[sel.first() as int]), cands, sel.drop_first());
    }
}

/// The entries of an ascending choice grow at least one per step.
proof fn lemma_ascending_lower(sel: Seq<usize>, i: int, t: int)
    requires
        forall|u: int| 0 <= u < sel.len() ==> i <= #[trigger] sel[u],
        forall|t1: int, t2: int| 0 <= t1 < t2 < sel.len() ==> sel[t1] < sel[t2],
        0 <= t < sel.len(),
    ensures
        sel[t] >= i + t,
    decreases t,
{
    if t > 0 {
        lemma_ascending_lower(sel, i, t - 1);
    }
}

/// Decrements each of the candidate's cells once; `None` when a cell is
/// already zero (the candidate cannot be part of an exact cover).
fn apply_candidate(counters: &Vec<i64>, cells: &Vec<usize>) -> (r: Option<Vec<i64>>)
    requires
        forall|t: int| 0 <= t < cells@.len() ==> #[trigger] cells@[t] < counters@.len(),
    ensures
        match r {
            Some(nc) => int_counts(nc@) == apply_cand(int_counts(counters@), cells@) && nc@.len()
                == counters@.len(),
            None => exists|c: int|
                0 <= c < counters@.len() && apply_cand(int_counts(counters@), cells@)[c] < 0,
        },
{
    let mut nc: Vec<i64> = Vec::new();
    let mut t: usize = 0;
    while t < counters.len()
        invariant
            t <= counters@.len(),
            nc@ =~= counters@.take(t as int),
        decreases counters@.len() - t,
    {
        proof {
            assert(counters@.take(t as int + 1) =~= counters@.take(t as int).push(
                counters@[t as int],
            ));
        }
        nc.push(counters[t]);
        t = t + 1;
    }
    proof {
        assert(counters@.take(counters@.len() as int) =~= counters@);
        assert(int_counts(nc@) =~= apply_cand(int_counts(counters@), cells@.take(0)));
    }
    let mut u: usize = 0;
    while u < cells.len()
        invariant
            forall|t2: int| 0 <= t2 < cells@.len() ==> #[trigger] cells@[t2] < counters@.len(),
            u <= cells@.len(),
            nc@.len() == counters@.len(),
            int_counts(nc@) == apply_cand(int_counts(counters@), cells@.take(u as int)),
        decreases cells@.len() - u,
    {
        let c = cells[u];
        if nc[c] <= 0 {
            proof {
                let x = int_counts(counters@);
                let partial = apply_cand(x, cells@.take(u as int));
                let rest = cells@.skip(u as int);
                assert(cells@.take(u as int) + rest =~= cells@);
                lemma_apply_cand_concat(x, cells@.take(u as int), rest);
                // The aborting cell is the first of the remaining cells.
                let one = seq![cells@[u as int]];
                assert(one + rest.drop_first() =~= rest);
                lemma_apply_cand_concat(partial, one, rest.drop_first());
                assert(apply_cand(partial, one) == partial.update(
                    c as int,
                    partial[c as int] - 1,
                )) by {
                    assert(one.drop_last() =~= Seq::<usize>::empty());
                    assert(apply_cand(partial, Seq::<usize>::empty()) == partial);
                    assert(one.last() == c);
                };
                assert(apply_cand(partial, one)[c as int] <= -1);
                assert(forall|t: int|
                    0 <= t < rest.drop_first().len() ==> #[trigger] rest.drop_first()[t]
                        < apply_cand(partial, one).len());
                lemma_apply_cand_le(apply_cand(partial, one), rest.drop_first());
                assert(apply_cand(x, cells@)[c as int] < 0);
            }
            return None;
        }
        let cur = nc[c];
        nc.set(c, cur - 1);
        proof {
            assert(cells@.take(u as int + 1).drop_last() =~= cells@.take(u as int));
            assert(cells@.take(u as int + 1).last() == cells@[u as int]);
            assert(int_counts(nc@) =~= apply_cand(int_counts(counters@), cells@.take(u as int + 1)));
        }
        u = u + 1;
    }
    proof {
        assert(cells@.take(cells@.len() as int) =~= cells@);
    }
    Some(nc)
}

/// Whether all counters are zero.
fn counters_zero(counters: &Vec<i64>) -> (r: bool)
    ensures
        r == all_zero(int_counts(counters@)),
{
    let mut t: usize = 0;
    while t < counters.len()
        invariant
            t <= counters@.len(),
            forall|u: int| 0 <= u < t ==> int_counts(counters@)[u] == 0,
        decreases counters@.len() - t,
    {
        if counters[t] != 0 {
            proof {
                assert(int_counts(counters@)[t as int] != 0);
            }
            return false;
        }
        t = t + 1;
    }
    true
}

/// Backtracking search for `need` candidate positions at or after `i`
/// whose combined cell decrements take the counters exactly to zero.
/// A `Some` result is a certificate; `None` means no such choice exists.
pub fn solve_cover(counters: &Vec<i64>, cands: &Vec<Vec<usize>>, i: usize, need: usize) -> (r:
    Option<Vec<usize>>)
    requires
        i <= cands@.len(),
        forall|a: int, t: int|
            0 <= a < cands@.len() && 0 <= t < cands@[a]@.len() ==> #[trigger] cands@[a]@[t]
                < counters@.len(),
    ensures
        match r {
            Some(sol) => {
                &&& sol@.len() == need
                &&& forall|t: int| 0 <= t < sol@.len() ==> i <= #[trigger] sol@[t] < cands@.len()
                &&& forall|t1: int, t2: int| 0 <= t1 < t2 < sol@.len() ==> sol@[t1] < sol@[t2]
                &&& all_zero(
                    apply_choice(int_counts(counters@), cells_view(cands@), sol@),
                )
            },
            None => forall|sel: Seq<usize>|
                valid_choice(sel, i as int, cands@.len() as int) && #[trigger] sel.len() == need
                    ==> !all_zero(apply_choice(int_counts(counters@), cells_view(cands@), sel)),
        },
    decreases cands@.len() - i,
{
    proof {
        assert(forall|a: int, t: int|
            0 <= a < cells_view(cands@).len() && 0 <= t < cells_view(cands@)[a].len()
                ==> #[trigger] cells_view(cands@)[a][t] < int_counts(counters@).len());
    }
    if need == 0 {
        if counters_zero(counters) {
            let sol: Vec<usize> = Vec::new();
            return Some(sol);
        } else {
            proof {
                assert forall|sel: Seq<usize>|
                    valid_choice(sel, i as int, cands@.len() as int) && #[trigger] sel.len()
                        == need implies !all_zero(
                    apply_choice(int_counts(counters@), cells_view(cands@), sel),
                ) by {
                    assert(apply_choice(int_counts(counters@), cells_view(cands@), sel)
                        == int_counts(counters@));
                }
            }
            return None;
        }
    }
    if i >= cands.len() || need > cands.len() - i {
        proof {
            assert forall|sel: Seq<usize>|
                valid_choice(sel, i as int, cands@.len() as int) && #[trigger] sel.len()
                    == need implies !all_zero(
                apply_choice(int_counts(counters@), cells_view(cands@), sel),
            ) by {
                lemma_ascending_lower(sel, i as int, sel.len() - 1);
            }
        }
        return None;
    }
    // Try including candidate i.
    let include_failed: bool;
    match apply_candidate(counters, &cands[i]) {
        Some(nc) => {
            match solve_cover(&nc, cands, i + 1, need - 1) {
                Some(rest) => {
                    let sol = prepend(i, &rest);
                    proof {
                        assert(sol@.drop_first() =~= rest@);
                        assert(cells_view(cands@)[i as int] == cands@[i as int]@);
                        assert(apply_choice(int_counts(counters@), cells_view(cands@), sol@)
                            == apply_choice(
                            apply_cand(int_counts(counters@), cands@[i as int]@),
                            cells_view(cands@),
                            rest@,
                        ));
                    }
                    return Some(sol);
                },
                None => {
                    proof {
                        // No choice from i+1 completes the inclusion of i.
                        assert forall|sel: Seq<usize>|
                            valid_choice(sel, i as int, cands@.len() as int) && #[trigger] sel.len()
                                == need && sel.len() > 0 && sel[0] == i implies !all_zero(
                            apply_choice(int_counts(counters@), cells_view(cands@), sel),
                        ) by {
                            let tail = sel.drop_first();
                            assert(valid_choice(tail, i as int + 1, cands@.len() as int)) by {
                                assert forall|t: int|
                                    0 <= t < tail.len() implies i as int + 1 <= #[trigger] tail[t]
                                    < cands@.len() by {
                                    assert(tail[t] == sel[t + 1]);
                                    assert(sel[0] < sel[t + 1]);
                                }
                            };
                            assert(apply_choice(int_counts(counters@), cells_view(cands@), sel)
                                == apply_choice(int_counts(nc@), cells_view(cands@), tail));
                        }
                    }
                    include_failed = true;
                },
            }
        },
        None => {
            proof {
                // Including i at all drives some counter negative.
                let x = int_counts(counters@);
                let xi = apply_cand(x, cands@[i as int]@);
                let neg = choose|c: int| 0 <= c < x.len() && xi[c] < 0;
                assert forall|sel: Seq<usize>|
                    valid_choice(sel, i as int, cands@.len() as int) && #[trigger] sel.len()
                        == need && sel.len() > 0 && sel[0] == i implies !all_zero(
                    apply_choice(x, cells_view(cands@), sel),
                ) by {
                    let tail = sel.drop_first();
                    assert(valid_choice(tail, i as int + 1, cands@.len() as int)) by {
                        assert forall|t: int|
                            0 <= t < tail.len() implies i as int + 1 <= #[trigger] tail[t]
                            < cands@.len() by {
                            assert(tail[t] == sel[t + 1]);
                            assert(sel[0] < sel[t + 1]);
                        }
                    };
                    assert(apply_choice(x, cells_view(cands@), sel) == apply_choice(
                        xi,
                        cells_view(cands@),
                        tail,
                    ));
                    lemma_apply_cand_le(x, cands@[i as int]@);
                    lemma_apply_choice_le(xi, cells_view(cands@), tail);
                    assert(apply_choice(xi, cells_view(cands@), tail)[neg] <= xi[neg]);
                }
            }
            include_failed = true;
        },
    }
    let without = solve_cover(counters, cands, i + 1, need);
    proof {
        if without is None && include_failed {
            assert forall|sel: Seq<usize>|
                valid_choice(sel, i as int, cands@.len() as int) && #[trigger] sel.len()
                    == need implies !all_zero(
                apply_choice(int_counts(counters@), cells_view(cands@), sel),
            ) by {
                if sel.len() > 0 && sel[0] != i {
                    assert(valid_choice(sel, i as int + 1, cands@.len() as int)) by {
                        assert(i as int <= sel[0]);
                    };
                }
            }
        }
    }
    without
}

/// The cell lists of the candidates.
pub open spec fn cells_view(cands: Seq<Vec<usize>>) -> Seq<Seq<usize>> {
    Seq::new(cands.len(), |a: int| cands[a]@)
}

/// `x` followed by the entries of `rest`.
fn prepend(x: usize, rest: &Vec<usize>) -> (r: Vec<usize>)
    ensures
        r@ =~= seq![x].add(rest@),
{
    let mut r: Vec<usize> = Vec::new();
    r.push(x);
    let mut t: usize = 0;
    while t < rest.len()
        invariant
            t <= rest@.len(),
            r@ =~= seq![x].add(rest@.take(t as int)),
        decreases rest@.len() - t,
    {
        proof {
            assert(rest@.take(t as int + 1) =~= rest@.take(t as int).push(rest@[t as int]));
        }
        r.push(rest[t]);
        t = t + 1;
    }
    proof {
        assert(rest@.take(rest@.len() as int) =~= rest@);
    }
    r
}

/// The multiset of the elements at positions `[0, i)` that the drop list
/// does not name.
pub open spec fn keep_prefix(elems: Seq<Vec<u8>>, d: Seq<usize>, i: int) -> Multiset<Seq<u8>>
    decreases i,
{
    if i <= 0 {
        Multiset::empty()
    } else {
        let rest = keep_prefix(elems, d, i - 1);
        if d.contains((i - 1) as usize) {
            rest
        } else {
            rest.insert(elems[i - 1]@)
        }
    }
}

/// Law: an accumulator that processed exactly the candidate log passes
/// validation.  Its digest fields are, by well-formedness, the digest of
/// the log's multiset, so the digest comparison every validator performs
/// at `n == 0` succeeds and the drop witness is empty.
pub proof fn lemma_superset_validates(d: Digest, elems: Seq<Vec<u8>>)
    requires
        d.wf(),
        d.elems@ == byte_views(elems).to_multiset(),
    ensures
        digest_state(d.seed, byte_views(elems).to_multiset()) == d.state,
        elems.len() == d.count,
{
    broadcast use vstd::seq_lib::group_to_multiset_ensures;

    assert(byte_views(elems).to_multiset().len() == byte_views(elems).len());
}

/// With nothing dropped, the kept multiset is the whole candidate list.
pub proof fn lemma_keep_prefix_empty(elems: Seq<Vec<u8>>, i: int)
    requires
        0 <= i <= elems.len(),
    ensures
        keep_prefix(elems, Seq::<usize>::empty(), i) == byte_views(elems).take(i).to_multiset(),
    decreases i,
{
    broadcast use vstd::multiset::group_multiset_axioms;
    broadcast use vstd::seq_lib::group_to_multiset_ensures;

    if i <= 0 {
        assert(byte_views(elems).take(0).to_multiset() =~= Multiset::<Seq<u8>>::empty());
    } else {
        lemma_keep_prefix_empty(elems, i - 1);
        let bv = byte_views(elems);
        assert(bv.take(i - 1).push(bv[i - 1]) =~= bv.take(i));
        assert(keep_prefix(elems, Seq::<usize>::empty(), i) =~= bv.take(i).to_multiset());
    }
}

/// Rebuilds the digest over the candidates that are not in the claimed
/// drop list and compares it, seed, count and state, with the stored
/// digest values.  This is the final arbiter of every recovered witness.
pub fn digest_matches_excluding(
    seed: u64,
    count: u64,
    state: u64,
    elems: &Vec<Vec<u8>>,
    dropped: &Vec<usize>,
) -> (r: bool)
    requires
        elems@.len() < u64::MAX,
    ensures
        r == (digest_state(seed, keep_prefix(elems@, dropped@, elems@.len() as int)) == state
            && keep_prefix(elems@, dropped@, elems@.len() as int).len() == count),
{
    let mut digest = Digest::new_with_seed(seed);
    let ghost ds = dropped@;
    proof {
        broadcast use vstd::multiset::group_multiset_axioms;

    }
    let mut i: usize = 0;
    while i < elems.len()
        invariant
            elems@.len() < u64::MAX,
            i <= elems@.len(),
            ds == dropped@,
            digest.wf(),
            digest.seed == seed,
            digest.elems@ == keep_prefix(elems@, ds, i as int),
            digest.count <= i,
        decreases elems@.len() - i,
    {
        if contains_idx(dropped, i) {
            proof {
                assert(keep_prefix(elems@, ds, i as int + 1) == keep_prefix(elems@, ds, i as int));
            }
        } else {
            digest.add(elems[i].as_slice());
            proof {
                assert(keep_prefix(elems@, ds, i as int + 1) == keep_prefix(
                    elems@,
                    ds,
                    i as int,
                ).insert(elems@[i as int]@));
            }
        }
        i = i + 1;
    }
    proof {
        assert(digest.count == digest.elems@.len());
    }
    let state_ok = digest.state == state;
    let count_ok = digest.count == count;
    state_ok && count_ok
}

/// A byte-for-byte copy of one element.
fn copy_bytes(e: &Vec<u8>) -> (r: Vec<u8>)
    ensures
        r@ == e@,
{
    let mut r: Vec<u8> = Vec::new();
    let mut t: usize = 0;
    while t < e.len()
        invariant
            t <= e@.len(),
            r@ =~= e@.take(t as int),
        decreases e@.len() - t,
    {
        proof {
            assert(e@.take(t as int + 1) =~= e@.take(t as int).push(e@[t as int]));
        }
        r.push(e[t]);
        t = t + 1;
    }
    proof {
        assert(e@.take(e@.len() as int) =~= e@);
    }
    r
}

/// The first `n` elements of a log, copied.
pub fn log_prefix(elems: &Vec<Vec<u8>>, n: usize) -> (r: Vec<Vec<u8>>)
    requires
        n <= elems@.len(),
    ensures
        r@.len() == n,
        forall|i: int| 0 <= i < n ==> #[trigger] r@[i]@ == elems@[i]@,
{
    let mut r: Vec<Vec<u8>> = Vec::new();
    let mut i: usize = 0;
    while i < n
        invariant
            n <= elems@.len(),
            i <= n,
            r@.len() == i,
            forall|t: int| 0 <= t < i ==> #[trigger] r@[t]@ == elems@[t]@,
        decreases n - i,
    {
        let e = copy_bytes(&elems[i]);
        r.push(e);
        i = i + 1;
    }
    r
}

/// Linear membership scan.
fn contains_idx(d: &Vec<usize>, x: usize) -> (r: bool)
    ensures
        r == d@.contains(x),
{
    let mut t: usize = 0;
    while t < d.len()
        invariant
            t <= d@.len(),
            forall|u: int| 0 <= u < t ==> d@[u] != x,
        decreases d@.len() - t,
    {
        if d[t] == x {
            return true;
        }
        t = t + 1;
    }
    false
}

} // verus!
