//! Power-sum accumulator: algebraic subset digests over a prime field.
//!
//! The accumulator keeps `p[j] = sum of v^(j+1) mod P` over the processed
//! elements, where `v` is the element's 32-bit DJB hash and `P` is
//! [`LARGE_PRIME`](crate::field::LARGE_PRIME).  Validation subtracts the
//! power sums of the candidate log, turns the difference into a monic
//! polynomial via Newton's identities, and recovers the dropped elements as
//! the roots of that polynomial among the candidate values.

use vstd::prelude::*;

use crate::digest::{digest_state, Digest};
use crate::field::{div_and_mod, gcd, lemma_gcd_properties, mul_and_mod, LARGE_PRIME};
use crate::hashing::{djb_hash_of, elem_to_u32};
use crate::seqsum::{
    lemma_weight_sum_insert, lemma_weight_sum_seq_take_step, weight_sum, weight_sum_seq,
};
use crate::solver::{digest_matches_excluding, lemma_keep_prefix_empty};
use crate::ValidationResult;

verus! {

use vstd::arithmetic::power::pow;
use vstd::multiset::Multiset;

/// The field modulus as an unbounded integer.
pub open spec fn field_p() -> int {
    LARGE_PRIME as int
}

/// The weight an element value contributes to the `j`-th power sum.
pub open spec fn pow_weight(j: nat) -> spec_fn(u32) -> int {
    |v: u32| pow(v as int, j) % field_p()
}

/// The `j`-th power sum (`j >= 1`) of a sequence of element values.
pub open spec fn power_sum_seq(vals: Seq<u32>, j: nat) -> int {
    weight_sum_seq(vals, pow_weight(j)) % field_p()
}

/// The `j`-th power sum of a multiset of element values.
pub open spec fn power_sum_ms(m: Multiset<Seq<u8>>, j: nat) -> int {
    weight_sum(m, |e: Seq<u8>| pow(djb_hash_of(e) as int, j) % field_p()) % field_p()
}

/// Whether the field modulus has no divisor between 2 and itself, i.e. is
/// prime.  The congruences below are guaranteed under this (true but
/// unproven) hypothesis; concrete runs are pinned by the tests.
pub open spec fn modulus_is_prime() -> bool {
    forall|d: int| 2 <= d < LARGE_PRIME ==> #[trigger] (field_p() % d) != 0
}

/// One step: `(x % P * v) % P == (x * v) % P` lifted to `pow`.
proof fn lemma_pow_mod_step(v: int, j: nat)
    requires
        v >= 0,
    ensures
        ((pow(v, j) % field_p()) * v) % field_p() == pow(v, (j + 1) as nat) % field_p(),
{
    let p = field_p();
    assert(pow(v, (j + 1) as nat) == pow(v, j) * pow(v, 1nat)) by {
        vstd::arithmetic::power::lemma_pow_adds(v, j, 1nat);
    };
    assert(pow(v, 1nat) == v) by {
        vstd::arithmetic::power::lemma_pow1(v);
    };
    assert(((pow(v, j) % p) * v) % p == (pow(v, j) * v) % p) by {
        vstd::arithmetic::div_mod::lemma_mul_mod_noop_left(pow(v, j), v, p);
    };
}

/// The power sums of a list of element values: `r[j]` is the sum of
/// `v^(j+1) mod P` over the list, reduced mod `P`.
pub fn calculate_power_sums(elems: &Vec<u32>, threshold: usize) -> (r: Vec<i64>)
    ensures
        r@.len() == threshold,
        forall|j: int|
            0 <= j < threshold ==> r@[j] == power_sum_seq(elems@, (j + 1) as nat) && 0 <= r@[j]
                < LARGE_PRIME,
{
    let mut r: Vec<i64> = Vec::new();
    let mut k: usize = 0;
    while k < threshold
        invariant
            r@.len() == k,
            k <= threshold,
            forall|j: int| 0 <= j < k ==> r@[j] == 0,
        decreases threshold - k,
    {
        r.push(0);
        k = k + 1;
    }
    proof {
        let ghost pi = field_p();
        vstd::arithmetic::div_mod::lemma_small_mod(0nat, pi as nat);
        assert forall|j: int| 0 <= j < threshold implies r@[j] == power_sum_seq(
            elems@.take(0),
            (j + 1) as nat,
        ) by {
            assert(elems@.take(0).len() == 0);
        }
    }
    let mut i: usize = 0;
    while i < elems.len()
        invariant
            r@.len() == threshold,
            i <= elems@.len(),
            forall|j: int|
                0 <= j < threshold ==> r@[j] == power_sum_seq(elems@.take(i as int), (j + 1) as nat)
                    && 0 <= r@[j] < LARGE_PRIME,
        decreases elems@.len() - i,
    {
        let v = elems[i];
        let mut value: i64 = 1;
        proof {
            vstd::arithmetic::power::lemma_pow0(v as int);
            vstd::arithmetic::div_mod::lemma_small_mod(1nat, field_p() as nat);
        }
        let ghost prev = r@;
        let mut j: usize = 0;
        while j < threshold
            invariant
                r@.len() == threshold,
                0 <= i < elems@.len(),
                v == elems@[i as int],
                j <= threshold,
                value == pow(v as int, j as nat) % field_p(),
                0 <= value < LARGE_PRIME,
                forall|j2: int|
                    0 <= j2 < j ==> r@[j2] == power_sum_seq(
                        elems@.take(i as int + 1),
                        (j2 + 1) as nat,
                    ) && 0 <= r@[j2] < LARGE_PRIME,
                forall|j2: int|
                    j <= j2 < threshold ==> r@[j2] == power_sum_seq(
                        elems@.take(i as int),
                        (j2 + 1) as nat,
                    ) && 0 <= r@[j2] < LARGE_PRIME,
            decreases threshold - j,
        {
            value = mul_and_mod(value, v as i64, LARGE_PRIME);
            proof {
                lemma_pow_mod_step(v as int, j as nat);
            }
            let cur = r[j];
            let next = (cur + value) % LARGE_PRIME;
            r.set(j, next);
            proof {
                let pi = field_p();
                let w = pow_weight((j + 1) as nat);
                let pre = elems@.take(i as int);
                lemma_weight_sum_seq_take_step(elems@, i as int, w);
                assert(elems@.take(i as int + 1) =~= elems@.take(i as int).push(elems@[i as int]));
                // (x % P + (pow % P)) % P == (x + pow % P) % P
                vstd::arithmetic::div_mod::lemma_add_mod_noop(
                    weight_sum_seq(pre, w),
                    w(v) % pi,
                    pi,
                );
                vstd::arithmetic::div_mod::lemma_mod_twice(w(v), pi);
                assert(w(v) == pow(v as int, (j + 1) as nat) % pi);
                assert(next == power_sum_seq(elems@.take(i as int + 1), (j + 1) as nat));
            }
            j = j + 1;
        }
        i = i + 1;
    }
    proof {
        assert(elems@.take(elems@.len() as int) =~= elems@);
    }
    r
}

/// The pointwise difference of two power-sum vectors in the field:
/// `r[i] == (lhs[i] - rhs[i]) mod P`.
pub fn calculate_difference(lhs: Vec<i64>, rhs: &Vec<i64>) -> (r: Vec<i64>)
    requires
        lhs@.len() <= rhs@.len(),
        forall|i: int| 0 <= i < lhs@.len() ==> 0 <= #[trigger] lhs@[i] < LARGE_PRIME,
        forall|i: int| 0 <= i < rhs@.len() ==> 0 <= #[trigger] rhs@[i] < LARGE_PRIME,
    ensures
        r@.len() == lhs@.len(),
        forall|i: int|
            0 <= i < r@.len() ==> r@[i] == (lhs@[i] - rhs@[i]) % field_p() && 0 <= #[trigger] r@[i]
                < LARGE_PRIME,
{
    let mut r: Vec<i64> = Vec::new();
    let mut i: usize = 0;
    while i < lhs.len()
        invariant
            lhs@.len() <= rhs@.len(),
            forall|k: int| 0 <= k < lhs@.len() ==> 0 <= #[trigger] lhs@[k] < LARGE_PRIME,
            forall|k: int| 0 <= k < rhs@.len() ==> 0 <= #[trigger] rhs@[k] < LARGE_PRIME,
            i <= lhs@.len(),
            r@.len() == i,
            forall|k: int|
                0 <= k < i ==> r@[k] == (lhs@[k] - rhs@[k]) % field_p() && 0 <= #[trigger] r@[k]
                    < LARGE_PRIME,
        decreases lhs@.len() - i,
    {
        let d = (lhs[i] + LARGE_PRIME - rhs[i]) % LARGE_PRIME;
        proof {
            vstd::arithmetic::div_mod::lemma_mod_add_multiples_vanish(
                lhs@[i as int] - rhs@[i as int],
                field_p(),
            );
        }
        r.push(d);
        i = i + 1;
    }
    r
}

/// The alternating Newton sum `sum_{t=j..i} (-1)^t e[i-t] p[t]`.
pub open spec fn alt_sum_from(e: Seq<int>, p: Seq<i64>, i: int, j: int) -> int
    decreases i + 1 - j,
{
    if j > i || j < 0 {
        0
    } else {
        let term = e[i - j] * (p[j] as int);
        (if j % 2 == 0 {
            term
        } else {
            -term
        }) + alt_sum_from(e, p, i, j + 1)
    }
}

/// The entries of an `i64` vector as unbounded integers.
pub open spec fn int_seq(v: Seq<i64>) -> Seq<int> {
    Seq::new(v.len(), |i: int| v[i] as int)
}

/// Undoes the sign flip the coefficient vector carries at odd positions.
pub open spec fn unflip(r: Seq<i64>, k: int) -> int {
    if k % 2 == 0 {
        r[k] as int
    } else {
        (LARGE_PRIME - r[k]) % field_p()
    }
}

/// The elementary symmetric values encoded by a coefficient vector.
pub open spec fn unflip_seq(r: Seq<i64>) -> Seq<int> {
    Seq::new(r.len(), |k: int| unflip(r, k))
}

/// `alt_sum_from` only reads `e[0..=i]`, so extending `e` preserves it.
proof fn lemma_alt_sum_prefix(e1: Seq<int>, e2: Seq<int>, p: Seq<i64>, i: int, j: int)
    requires
        forall|k: int| 0 <= k <= i ==> e1[k] == e2[k],
        i < e1.len(),
        i < e2.len(),
    ensures
        alt_sum_from(e1, p, i, j) == alt_sum_from(e2, p, i, j),
    decreases i + 1 - j,
{
    if j > i || j < 0 {
    } else {
        lemma_alt_sum_prefix(e1, e2, p, i, j + 1);
    }
}

/// Whether `coeffs` is a coefficient vector Newton's identities assign to
/// the power-sum difference `p`: monic, field-reduced, and the signed
/// elementary symmetric values satisfy the recurrences.
pub open spec fn newton_fits(coeffs: Seq<i64>, p: Seq<i64>) -> bool {
    &&& coeffs.len() == p.len() + 1
    &&& coeffs[0] == 1
    &&& forall|k: int| 0 <= k <= p.len() ==> 0 <= #[trigger] coeffs[k] < LARGE_PRIME
    &&& forall|k: int|
        1 <= k <= p.len() ==> (k * unflip(coeffs, k)) % field_p() == #[trigger] alt_sum_from(
            unflip_seq(coeffs),
            p,
            k - 1,
            0,
        ) % field_p()
}

/// The sign-unfolding of a field-reduced coefficient is field-reduced, and
/// two coefficients that unfold alike are equal.
proof fn lemma_unflip_props(c1: Seq<i64>, c2: Seq<i64>, k: int)
    requires
        0 <= k < c1.len(),
        0 <= k < c2.len(),
        0 <= c1[k] < LARGE_PRIME,
        0 <= c2[k] < LARGE_PRIME,
    ensures
        0 <= unflip(c1, k) < LARGE_PRIME,
        0 <= unflip(c2, k) < LARGE_PRIME,
        unflip(c1, k) == unflip(c2, k) ==> c1[k] == c2[k],
{
    if k % 2 == 0 {
    } else {
        lemma_unflip_value(c1[k] as int);
        lemma_unflip_value(c2[k] as int);
    }
}

/// `(P - c) % P` for a reduced `c`: zero exactly at `c == 0`, else `P - c`.
proof fn lemma_unflip_value(c: int)
    requires
        0 <= c < LARGE_PRIME,
    ensures
        c == 0 ==> (LARGE_PRIME - c) % field_p() == 0,
        c > 0 ==> (LARGE_PRIME - c) % field_p() == LARGE_PRIME - c,
{
    if c == 0 {
        vstd::arithmetic::div_mod::lemma_mod_self_0(field_p());
    } else {
        vstd::arithmetic::div_mod::lemma_small_mod((LARGE_PRIME - c) as nat, field_p() as nat);
    }
}

/// Under the primality hypothesis the Newton coefficients of a difference
/// vector are unique: the recurrences pin each one from its predecessors.
proof fn lemma_newton_unique_upto(c1: Seq<i64>, c2: Seq<i64>, p: Seq<i64>, k: int)
    requires
        modulus_is_prime(),
        p.len() + 1 < LARGE_PRIME,
        newton_fits(c1, p),
        newton_fits(c2, p),
        0 <= k <= p.len(),
    ensures
        forall|u: int| 0 <= u <= k ==> c1[u] == c2[u],
    decreases k,
{
    if k == 0 {
    } else {
        lemma_newton_unique_upto(c1, c2, p, k - 1);
        assert forall|u: int| 0 <= u <= k - 1 implies unflip_seq(c1)[u] == unflip_seq(c2)[u] by {}
        lemma_alt_sum_prefix(unflip_seq(c1), unflip_seq(c2), p, k - 1, 0);
        let u1 = unflip(c1, k);
        let u2 = unflip(c2, k);
        lemma_unflip_props(c1, c2, k);
        lemma_coprime_with_prime(k as nat);
        crate::field::lemma_coprime_cancel(k, u1, u2, field_p());
    }
}

/// Under the primality hypothesis the Newton coefficients are unique.
proof fn lemma_newton_unique(c1: Seq<i64>, c2: Seq<i64>, p: Seq<i64>)
    requires
        modulus_is_prime(),
        p.len() + 1 < LARGE_PRIME,
        newton_fits(c1, p),
        newton_fits(c2, p),
    ensures
        c1 == c2,
{
    lemma_newton_unique_upto(c1, c2, p, p.len() as int);
    assert(c1 =~= c2);
}

/// Any value in `[1, P)` is coprime with a prime `P`.
proof fn lemma_coprime_with_prime(x: nat)
    requires
        modulus_is_prime(),
        1 <= x < LARGE_PRIME,
    ensures
        gcd(x, LARGE_PRIME as nat) == 1,
{
    lemma_gcd_properties(x, LARGE_PRIME as nat);
    crate::field::lemma_gcd_bound(x, LARGE_PRIME as nat);
    let g = gcd(x, LARGE_PRIME as nat);
    if g >= 2 {
        assert(field_p() % (g as int) == 0);
        assert(g <= x < LARGE_PRIME);
        assert(false);
    }
}

/// The polynomial coefficients determined by a power-sum difference via
/// Newton's identities: the returned vector `r` is monic (`r[0] == 1`) and
/// carries `(-1)^k e_k` in field representation at position `k`, where the
/// elementary symmetric values `e_k` satisfy
/// `k * e_k == sum_{t<k} (-1)^t e_{k-1-t} p[t] (mod P)`.
pub fn compute_polynomial_coefficients(p: Vec<i64>) -> (r: Vec<i64>)
    requires
        p@.len() + 1 < LARGE_PRIME,
        forall|i: int| 0 <= i < p@.len() ==> 0 <= #[trigger] p@[i] < LARGE_PRIME,
    ensures
        r@.len() == p@.len() + 1,
        r@[0] == 1,
        forall|k: int| 0 <= k <= p@.len() ==> 0 <= #[trigger] r@[k] < LARGE_PRIME,
        modulus_is_prime() ==> forall|k: int|
            1 <= k <= p@.len() ==> (k * unflip(r@, k)) % field_p() == #[trigger] alt_sum_from(
                unflip_seq(r@),
                p@,
                k - 1,
                0,
            ) % field_p(),
        modulus_is_prime() ==> newton_fits(r@, p@),
{
    let n = p.len();
    let mut e: Vec<i64> = Vec::new();
    e.push(1);
    proof {
        vstd::arithmetic::div_mod::lemma_small_mod(0nat, field_p() as nat);
    }
    let mut i: usize = 0;
    while i < n
        invariant
            n == p@.len(),
            n + 1 < LARGE_PRIME,
            i <= n,
            forall|t: int| 0 <= t < p@.len() ==> 0 <= #[trigger] p@[t] < LARGE_PRIME,
            e@.len() == i + 1,
            e@[0] == 1,
            forall|k: int| 0 <= k <= i ==> 0 <= #[trigger] e@[k] < LARGE_PRIME,
            modulus_is_prime() ==> forall|k: int|
                1 <= k <= i ==> (k * (e@[k] as int)) % field_p() == #[trigger] alt_sum_from(
                    int_seq(e@),
                    p@,
                    k - 1,
                    0,
                ) % field_p(),
        decreases n - i,
    {
        let ghost e_pre = e@;
        let mut sum: i64 = 0;
        proof {
            vstd::arithmetic::div_mod::lemma_small_mod(0nat, field_p() as nat);
        }
        let mut j: usize = 0;
        while j <= i
            invariant
                n == p@.len(),
                i < n,
                n + 1 < LARGE_PRIME,
                forall|t: int| 0 <= t < p@.len() ==> 0 <= #[trigger] p@[t] < LARGE_PRIME,
                e@.len() == i + 1,
                forall|k: int| 0 <= k <= i ==> 0 <= #[trigger] e@[k] < LARGE_PRIME,
                j <= i + 1,
                0 <= sum < LARGE_PRIME,
                sum == (alt_sum_from(int_seq(e@), p@, i as int, 0) - alt_sum_from(
                    int_seq(e@),
                    p@,
                    i as int,
                    j as int,
                )) % field_p(),
            decreases i + 1 - j,
        {
            let term = mul_and_mod(e[i - j], p[j], LARGE_PRIME);
            let ghost pi = field_p();
            let ghost full = alt_sum_from(int_seq(e@), p@, i as int, 0);
            let ghost rest = alt_sum_from(int_seq(e@), p@, i as int, j as int);
            let ghost rest1 = alt_sum_from(int_seq(e@), p@, i as int, j as int + 1);
            let ghost t_int = (e@[i - j] as int) * (p@[j as int] as int);
            if j % 2 == 0 {
                sum = (sum + term) % LARGE_PRIME;
                proof {
                    assert(rest == t_int + rest1);
                    // sum' == (full - rest + t_int) % P == (full - rest1) % P
                    vstd::arithmetic::div_mod::lemma_add_mod_noop((full - rest) % pi, t_int, pi);
                    vstd::arithmetic::div_mod::lemma_mod_twice(full - rest, pi);
                    vstd::arithmetic::div_mod::lemma_mod_twice(t_int, pi);
                    vstd::arithmetic::div_mod::lemma_add_mod_noop(full - rest, t_int, pi);
                }
            } else {
                sum = (sum + (LARGE_PRIME - term)) % LARGE_PRIME;
                proof {
                    assert(rest == -t_int + rest1);
                    vstd::arithmetic::div_mod::lemma_mod_add_multiples_vanish(
                        (full - rest) % pi - t_int % pi,
                        pi,
                    );
                    vstd::arithmetic::div_mod::lemma_sub_mod_noop((full - rest) % pi, t_int, pi);
                    vstd::arithmetic::div_mod::lemma_mod_twice(full - rest, pi);
                    vstd::arithmetic::div_mod::lemma_mod_twice(t_int, pi);
                    vstd::arithmetic::div_mod::lemma_sub_mod_noop(full - rest, t_int, pi);
                }
            }
            j = j + 1;
        }
        // k * e_k == sum (mod P) for k == i + 1.
        let enext: i64;
        let ghost k = i as int + 1;
        if sum == 0 {
            enext = 0;
            proof {
                assert(k * 0 == 0) by (nonlinear_arith);
                assert((k * 0) % field_p() == 0) by {
                    vstd::arithmetic::div_mod::lemma_small_mod(0nat, field_p() as nat);
                };
            }
        } else {
            enext = div_and_mod(sum, (i + 1) as i64, LARGE_PRIME);
            proof {
                if modulus_is_prime() {
                    let b = k;
                    let g = gcd(sum as nat, b as nat);
                    lemma_gcd_properties(sum as nat, b as nat);
                    crate::field::lemma_gcd_bound(sum as nat, b as nat);
                    let b2 = (b as nat) / g;
                    assert(1 <= g <= b);
                    assert(b2 >= 1) by (nonlinear_arith)
                        requires
                            1 <= g <= b,
                            b2 == (b as nat) / g,
                    ;
                    assert(b2 <= b) by (nonlinear_arith)
                        requires
                            1 <= g,
                            b >= 1,
                            b2 == (b as nat) / g,
                    ;
                    if b2 == 1 {
                        assert(gcd(1nat, LARGE_PRIME as nat) == 1) by {
                            assert(1int % (LARGE_PRIME as int) == 1) by {
                                vstd::arithmetic::div_mod::lemma_small_mod(
                                    1nat,
                                    LARGE_PRIME as nat,
                                );
                            };
                            assert((LARGE_PRIME as int) % 1int == 0);
                            assert(gcd(1nat, LARGE_PRIME as nat) == gcd(
                                LARGE_PRIME as nat,
                                1nat,
                            ));
                            assert(gcd(LARGE_PRIME as nat, 1nat) == gcd(1nat, 0nat));
                        }
                    } else {
                        lemma_coprime_with_prime(b2);
                    }
                    // (enext * b) % P == sum % P == sum
                    vstd::arithmetic::div_mod::lemma_small_mod(
                        sum as nat,
                        LARGE_PRIME as nat,
                    );
                    assert((enext as int) * k == k * (enext as int)) by (nonlinear_arith);
                    assert((k * (enext as int)) % field_p() == sum as int);
                }
            }
        }
        proof {
            if modulus_is_prime() {
                assert((k * (enext as int)) % field_p() == sum as int);
            }
        }
        e.push(enext);
        proof {
            let e_now = e@;
            if modulus_is_prime() {
                assert forall|k2: int|
                    1 <= k2 <= i + 1 implies (k2 * (e_now[k2] as int)) % field_p()
                    == #[trigger] alt_sum_from(int_seq(e_now), p@, k2 - 1, 0) % field_p() by {
                    if k2 <= i {
                        assert((k2 * (e_pre[k2] as int)) % field_p() == alt_sum_from(
                            int_seq(e_pre),
                            p@,
                            k2 - 1,
                            0,
                        ) % field_p());
                        lemma_alt_sum_prefix(int_seq(e_pre), int_seq(e_now), p@, k2 - 1, 0);
                    } else {
                        // the fresh entry: sum holds the full Newton sum
                        assert(alt_sum_from(int_seq(e_pre), p@, i as int, i as int + 1) == 0);
                        vstd::arithmetic::div_mod::lemma_mod_twice(
                            alt_sum_from(int_seq(e_pre), p@, i as int, 0),
                            field_p(),
                        );
                        lemma_alt_sum_prefix(int_seq(e_pre), int_seq(e_now), p@, i as int, 0);
                    }
                }
            }
        }
        i = i + 1;
    }
    // Flip the sign of the odd coefficients into field representation.
    let ghost e_unflipped = e@;
    let mut k: usize = 1;
    while k < e.len()
        invariant
            e@.len() == n + 1,
            e_unflipped.len() == n + 1,
            1 <= k,
            forall|t: int| 0 <= t < e@.len() ==> 0 <= #[trigger] e_unflipped[t] < LARGE_PRIME,
            forall|t: int| 0 <= t < e@.len() ==> 0 <= #[trigger] e@[t] < LARGE_PRIME,
            forall|t: int| 0 <= t < k ==> unflip(e@, t) == e_unflipped[t],
            forall|t: int| k <= t < e@.len() ==> #[trigger] e@[t] == e_unflipped[t],
            e@[0] == e_unflipped[0],
        decreases e@.len() - k,
    {
        if k % 2 == 1 {
            let cur = e[k];
            if cur != 0 {
                e.set(k, LARGE_PRIME - cur);
            }
            proof {
                if cur != 0 {
                    vstd::arithmetic::div_mod::lemma_small_mod(
                        (LARGE_PRIME - (LARGE_PRIME - cur)) as nat,
                        LARGE_PRIME as nat,
                    );
                } else {
                    vstd::arithmetic::div_mod::lemma_mod_self_0(field_p());
                }
            }
        }
        k = k + 1;
    }
    proof {
        assert(unflip_seq(e@) =~= int_seq(e_unflipped)) by {
            assert forall|t: int| 0 <= t < e@.len() implies unflip_seq(e@)[t] == int_seq(
                e_unflipped,
            )[t] by {
                if t == 0 {
                } else if t % 2 == 0 {
                }
            }
        };
        if modulus_is_prime() {
            assert forall|k2: int| 1 <= k2 <= p@.len() implies (k2 * unflip(e@, k2)) % field_p()
                == #[trigger] alt_sum_from(unflip_seq(e@), p@, k2 - 1, 0) % field_p() by {
                assert((k2 * (e_unflipped[k2] as int)) % field_p() == alt_sum_from(
                    int_seq(e_unflipped),
                    p@,
                    k2 - 1,
                    0,
                ) % field_p());
                assert(unflip(e@, k2) == unflip_seq(e@)[k2]);
                assert(unflip_seq(e@)[k2] == int_seq(e_unflipped)[k2]);
            }
        }
    }
    e
}

/// Horner evaluation of a coefficient prefix at `v`, reduced mod `P` at
/// every step.
pub open spec fn poly_eval(c: Seq<i64>, v: int) -> int
    decreases c.len(),
{
    if c.len() == 0 {
        0
    } else {
        (poly_eval(c.drop_last(), v) * v + c.last()) % field_p()
    }
}

/// Evaluates the polynomial with coefficients `c` (highest degree first)
/// at `v` in the field.
pub fn eval_poly(c: &Vec<i64>, v: u32) -> (r: i64)
    requires
        forall|t: int| 0 <= t < c@.len() ==> 0 <= #[trigger] c@[t] < LARGE_PRIME,
    ensures
        r == poly_eval(c@, v as int),
        0 <= r < LARGE_PRIME,
{
    let mut acc: i64 = 0;
    proof {
        vstd::arithmetic::div_mod::lemma_small_mod(0nat, field_p() as nat);
        assert(c@.take(0).len() == 0);
    }
    let mut t: usize = 0;
    while t < c.len()
        invariant
            forall|u: int| 0 <= u < c@.len() ==> 0 <= #[trigger] c@[u] < LARGE_PRIME,
            t <= c@.len(),
            acc == poly_eval(c@.take(t as int), v as int),
            0 <= acc < LARGE_PRIME,
        decreases c@.len() - t,
    {
        let m = mul_and_mod(acc, v as i64, LARGE_PRIME);
        let acc2 = (m + c[t]) % LARGE_PRIME;
        proof {
            let pi = field_p();
            let pre = c@.take(t as int);
            let ct = c@[t as int] as int;
            assert(c@.take(t as int + 1).drop_last() =~= pre);
            assert(c@.take(t as int + 1).last() == c@[t as int]);
            // ((acc * v) % P + c[t]) % P == (acc * v + c[t]) % P
            vstd::arithmetic::div_mod::lemma_small_mod(ct as nat, pi as nat);
            vstd::arithmetic::div_mod::lemma_add_mod_noop(acc * (v as int), ct, pi);
        }
        acc = acc2;
        t = t + 1;
    }
    proof {
        assert(c@.take(c@.len() as int) =~= c@);
    }
    acc
}

/// The `t`-th coefficient of the synthetic-division quotient of `poly` by
/// `(x - v)` in the field.
pub open spec fn synth_coeff(poly: Seq<i64>, v: int, t: int) -> int
    decreases t,
{
    if t <= 0 {
        poly[0] as int
    } else {
        ((poly[t] as int) + v * synth_coeff(poly, v, t - 1)) % field_p()
    }
}

/// The synthetic-division quotient of `poly` by `(x - v)`.
pub open spec fn synth_quot(poly: Seq<i64>, v: int) -> Seq<i64> {
    Seq::new((poly.len() - 1) as nat, |t: int| synth_coeff(poly, v, t) as i64)
}

/// Divides the monic polynomial `c` by `(x - v)` by synthetic division,
/// dropping the remainder.
pub fn divide_root(c: &Vec<i64>, v: u32) -> (q: Vec<i64>)
    requires
        c@.len() >= 2,
        c@[0] == 1,
        forall|t: int| 0 <= t < c@.len() ==> 0 <= #[trigger] c@[t] < LARGE_PRIME,
    ensures
        q@ =~= synth_quot(c@, v as int),
        q@.len() == c@.len() - 1,
        q@[0] == 1,
        forall|t: int| 0 <= t < q@.len() ==> 0 <= #[trigger] q@[t] < LARGE_PRIME,
{
    let mut q: Vec<i64> = Vec::new();
    q.push(1);
    let mut t: usize = 1;
    while t < c.len() - 1
        invariant
            c@.len() >= 2,
            c@[0] == 1,
            forall|u: int| 0 <= u < c@.len() ==> 0 <= #[trigger] c@[u] < LARGE_PRIME,
            1 <= t <= c@.len() - 1,
            q@.len() == t,
            forall|u: int| 0 <= u < t ==> #[trigger] q@[u] == synth_coeff(c@, v as int, u),
            forall|u: int| 0 <= u < t ==> 0 <= #[trigger] q@[u] < LARGE_PRIME,
        decreases c@.len() - t,
    {
        let prev = q[t - 1];
        let m = mul_and_mod(v as i64, prev, LARGE_PRIME);
        let next = (c[t] + m) % LARGE_PRIME;
        proof {
            let pi = field_p();
            let ct = c@[t as int] as int;
            // (c[t] + (v * prev) % P) % P == (c[t] + v * prev) % P
            vstd::arithmetic::div_mod::lemma_add_mod_noop_right(ct, (v as int) * (prev as int), pi);
        }
        q.push(next);
        t = t + 1;
    }
    proof {
        assert forall|u: int| 0 <= u < q@.len() implies q@[u] == synth_quot(c@, v as int)[u] by {}
    }
    q
}

/// The result of scanning the candidate values from position `i` on,
/// repeatedly dividing out every value that is a root of the running
/// polynomial: the final polynomial and the indices divided out.
pub open spec fn peel_roots(poly: Seq<i64>, vals: Seq<u32>, i: int) -> (Seq<i64>, Seq<usize>)
    decreases vals.len() - i,
{
    if i < 0 || i >= vals.len() {
        (poly, Seq::empty())
    } else if poly.len() > 1 && poly_eval(poly, vals[i] as int) == 0 {
        let rest = peel_roots(synth_quot(poly, vals[i] as int), vals, i + 1);
        (rest.0, seq![i as usize].add(rest.1))
    } else {
        peel_roots(poly, vals, i + 1)
    }
}

/// Shape facts about `peel_roots`: the polynomial only shrinks, one index
/// per division, and the indices are strictly increasing positions in
/// `[i, vals.len())`.
pub proof fn lemma_peel_props(poly: Seq<i64>, vals: Seq<u32>, i: int)
    requires
        poly.len() >= 1,
        0 <= i,
        vals.len() <= usize::MAX,
    ensures
        1 <= peel_roots(poly, vals, i).0.len() <= poly.len(),
        peel_roots(poly, vals, i).1.len() == poly.len() - peel_roots(poly, vals, i).0.len(),
        forall|t: int|
            0 <= t < peel_roots(poly, vals, i).1.len() ==> i <= #[trigger] peel_roots(
                poly,
                vals,
                i,
            ).1[t] < vals.len(),
        forall|t1: int, t2: int|
            0 <= t1 < t2 < peel_roots(poly, vals, i).1.len() ==> peel_roots(poly, vals, i).1[t1]
                < peel_roots(poly, vals, i).1[t2],
    decreases vals.len() - i,
{
    if i < 0 || i >= vals.len() {
    } else if poly.len() > 1 && poly_eval(poly, vals[i] as int) == 0 {
        let q = synth_quot(poly, vals[i] as int);
        lemma_peel_props(q, vals, i + 1);
        let rest = peel_roots(q, vals, i + 1).1;
        let sel = peel_roots(poly, vals, i).1;
        assert(sel =~= seq![i as usize].add(rest));
        assert forall|t: int| 0 <= t < sel.len() implies i <= #[trigger] sel[t] < vals.len() by {
            if t == 0 {
            } else {
                assert(sel[t] == rest[t - 1]);
            }
        }
        assert forall|t1: int, t2: int| 0 <= t1 < t2 < sel.len() implies sel[t1] < sel[t2] by {
            if t1 == 0 {
                assert(sel[t2] == rest[t2 - 1]);
            } else {
                assert(sel[t1] == rest[t1 - 1]);
                assert(sel[t2] == rest[t2 - 1]);
            }
        }
    } else {
        lemma_peel_props(poly, vals, i + 1);
    }
}

/// Finds the roots of the monic polynomial `coeffs` among the candidate
/// values, dividing each one out as it is found.  Returns the positions of
/// the roots when the polynomial fully splits over the candidates, `None`
/// otherwise.
pub fn find_roots_among(coeffs: &Vec<i64>, vals: &Vec<u32>) -> (r: Option<Vec<usize>>)
    requires
        coeffs@.len() >= 2,
        coeffs@[0] == 1,
        forall|t: int| 0 <= t < coeffs@.len() ==> 0 <= #[trigger] coeffs@[t] < LARGE_PRIME,
    ensures
        match r {
            Some(d) => peel_roots(coeffs@, vals@, 0).0.len() == 1 && d@ == peel_roots(
                coeffs@,
                vals@,
                0,
            ).1,
            None => peel_roots(coeffs@, vals@, 0).0.len() > 1,
        },
{
    let mut poly: Vec<i64> = Vec::new();
    let mut t: usize = 0;
    while t < coeffs.len()
        invariant
            t <= coeffs@.len(),
            poly@ =~= coeffs@.take(t as int),
        decreases coeffs@.len() - t,
    {
        poly.push(coeffs[t]);
        t = t + 1;
    }
    proof {
        assert(coeffs@.take(coeffs@.len() as int) =~= coeffs@);
    }
    let mut dropped: Vec<usize> = Vec::new();
    let mut i: usize = 0;
    while i < vals.len()
        invariant
            i <= vals@.len(),
            1 <= poly@.len() <= coeffs@.len(),
            poly@[0] == 1,
            forall|u: int| 0 <= u < poly@.len() ==> 0 <= #[trigger] poly@[u] < LARGE_PRIME,
            peel_roots(coeffs@, vals@, 0).0 == peel_roots(poly@, vals@, i as int).0,
            peel_roots(coeffs@, vals@, 0).1 == dropped@ + peel_roots(poly@, vals@, i as int).1,
        decreases vals@.len() - i,
    {
        if poly.len() > 1 {
            let ev = eval_poly(&poly, vals[i]);
            if ev == 0 {
                let q = divide_root(&poly, vals[i]);
                proof {
                    let rest = peel_roots(synth_quot(poly@, vals@[i as int] as int), vals@,
                        i as int + 1);
                    assert(peel_roots(poly@, vals@, i as int).1 =~= seq![i as usize].add(rest.1));
                    assert(dropped@ + peel_roots(poly@, vals@, i as int).1 =~= dropped@.push(
                        i as usize,
                    ) + rest.1);
                }
                poly = q;
                dropped.push(i);
            } else {
                proof {
                    assert(peel_roots(poly@, vals@, i as int) == peel_roots(poly@, vals@,
                        i as int + 1));
                }
            }
        } else {
            proof {
                assert(peel_roots(poly@, vals@, i as int) == peel_roots(poly@, vals@,
                    i as int + 1));
            }
        }
        i = i + 1;
    }
    proof {
        assert(peel_roots(poly@, vals@, vals@.len() as int).1 =~= Seq::<usize>::empty());
        assert(dropped@ + Seq::<usize>::empty() =~= dropped@);
    }
    if poly.len() == 1 {
        Some(dropped)
    } else {
        None
    }
}

/// The views of a list of byte-string elements.
pub open spec fn byte_views(s: Seq<Vec<u8>>) -> Seq<Seq<u8>> {
    Seq::new(s.len(), |i: int| s[i]@)
}

/// The DJB values of a list of byte-string elements.
pub open spec fn djb_vals(s: Seq<Vec<u8>>) -> Seq<u32> {
    Seq::new(s.len(), |i: int| djb_hash_of(s[i]@))
}

/// Maps each element to its 32-bit DJB value.
pub fn elems_to_u32(elems: &Vec<Vec<u8>>) -> (r: Vec<u32>)
    ensures
        r@ =~= djb_vals(elems@),
{
    let mut r: Vec<u32> = Vec::new();
    let mut i: usize = 0;
    while i < elems.len()
        invariant
            i <= elems@.len(),
            r@.len() == i,
            forall|t: int| 0 <= t < i ==> r@[t] == djb_hash_of(elems@[t]@),
        decreases elems@.len() - i,
    {
        let v = elem_to_u32(elems[i].as_slice());
        r.push(v);
        i = i + 1;
    }
    r
}

/// Whether some root position shares its value with a candidate outside
/// the recovered set: the witness is then positionally ambiguous.
pub open spec fn has_value_collisions(vals: Seq<u32>, d: Seq<usize>) -> bool {
    exists|a: int, j: int|
        0 <= a < d.len() && 0 <= j < vals.len() && j != d[a] && !d.contains(j as usize)
            && #[trigger] vals[j] == #[trigger] vals[d[a] as int]
}

/// Checks for positional ambiguity of the recovered root positions.
fn check_value_collisions(vals: &Vec<u32>, d: &Vec<usize>) -> (r: bool)
    requires
        forall|t: int| 0 <= t < d@.len() ==> #[trigger] d@[t] < vals@.len(),
    ensures
        r == has_value_collisions(vals@, d@),
{
    let mut a: usize = 0;
    while a < d.len()
        invariant
            forall|t: int| 0 <= t < d@.len() ==> #[trigger] d@[t] < vals@.len(),
            a <= d@.len(),
            forall|a2: int, j: int|
                0 <= a2 < a && 0 <= j < vals@.len() && j != d@[a2] && !d@.contains(j as usize)
                    ==> #[trigger] vals@[j] != #[trigger] vals@[d@[a2] as int],
        decreases d@.len() - a,
    {
        let da = d[a];
        let mut j: usize = 0;
        while j < vals.len()
            invariant
                forall|t: int| 0 <= t < d@.len() ==> #[trigger] d@[t] < vals@.len(),
                a < d@.len(),
                da == d@[a as int],
                j <= vals@.len(),
                forall|j2: int|
                    0 <= j2 < j && j2 != d@[a as int] && !d@.contains(j2 as usize)
                        ==> #[trigger] vals@[j2] != vals@[d@[a as int] as int],
            decreases vals@.len() - j,
        {
            if j != da && vals[j] == vals[da] && !contains_usize(d, j) {
                proof {
                    assert(has_value_collisions(vals@, d@)) by {
                        assert(0 <= a < d@.len() && 0 <= j < vals@.len() && j != d@[a as int]
                            && !d@.contains(j as usize) && vals@[j as int] == vals@[d@[
                        a as int] as int]);
                    };
                }
                return true;
            }
            j = j + 1;
        }
        a = a + 1;
    }
    false
}

/// Linear membership scan.
fn contains_usize(d: &Vec<usize>, x: usize) -> (r: bool)
    ensures
        r == d@.contains(x),
{
    let mut t: usize = 0;
    while t < d.len()
        invariant
            t <= d@.len(),
            forall|u: int| 0 <= u < t ==> d@[u] != x,
        decreases d@.len() - t,
    {
        if d[t] == x {
            return true;
        }
        t = t + 1;
    }
    false
}

/// The power-sum accumulator: a digest plus the first `t` power sums of the
/// processed elements' DJB values in the field.
pub struct PowerSumAccumulator {
    /// Keyed order-invariant fingerprint of the processed elements.
    pub digest: Digest,
    /// `power_sums[j]` is the sum of `v^(j+1) mod P` over processed values.
    pub power_sums: Vec<i64>,
}

impl PowerSumAccumulator {
    /// Structural well-formedness: what deserialization can promise.
    pub open spec fn wfs(self) -> bool {
        &&& self.digest.count <= usize::MAX
        &&& self.power_sums@.len() + 1 < LARGE_PRIME
        &&& forall|j: int|
            0 <= j < self.power_sums@.len() ==> 0 <= #[trigger] self.power_sums@[j] < LARGE_PRIME
    }

    /// Full well-formedness: the accumulator is a faithful summary of its
    /// digest's model multiset.
    pub open spec fn wf(self) -> bool {
        &&& self.wfs()
        &&& self.digest.wf()
        &&& forall|j: int|
            0 <= j < self.power_sums@.len() ==> #[trigger] self.power_sums@[j] == power_sum_ms(
                self.digest.elems@,
                (j + 1) as nat,
            )
    }

    /// A fresh accumulator that can decode up to `threshold` losses, with a
    /// random digest seed.
    pub fn new(threshold: usize) -> (r: PowerSumAccumulator)
        requires
            threshold < 0x7fff_ffff,
        ensures
            r.wf(),
            r.digest.count == 0,
            r.digest.elems@ == Multiset::<Seq<u8>>::empty(),
            r.power_sums@.len() == threshold,
    {
        let digest = Digest::new();
        proof {
            lemma_empty_power_sums();
        }
        PowerSumAccumulator { digest, power_sums: zero_sums(threshold) }
    }

    /// A fresh accumulator with the given digest seed; deterministic.
    pub fn new_with_seed(threshold: usize, seed: u64) -> (r: PowerSumAccumulator)
        requires
            threshold < 0x7fff_ffff,
        ensures
            r.wf(),
            r.digest.count == 0,
            r.digest.seed == seed,
            r.digest.elems@ == Multiset::<Seq<u8>>::empty(),
            r.power_sums@.len() == threshold,
    {
        let digest = Digest::new_with_seed(seed);
        proof {
            lemma_empty_power_sums();
        }
        PowerSumAccumulator { digest, power_sums: zero_sums(threshold) }
    }

    /// Value equality over the digest and the power sums.
    pub open spec fn spec_equals(self, other: PowerSumAccumulator) -> bool {
        self.digest.spec_equals(other.digest) && self.power_sums@ == other.power_sums@
    }

    /// Value equality over the digest and the power sums.
    pub fn equals(&self, other: &PowerSumAccumulator) -> (r: bool)
        ensures
            r == self.spec_equals(*other),
    {
        if !self.digest.equals(&other.digest) {
            return false;
        }
        if self.power_sums.len() != other.power_sums.len() {
            proof {
                assert(self.power_sums@.len() != other.power_sums@.len());
            }
            return false;
        }
        let mut i: usize = 0;
        while i < self.power_sums.len()
            invariant
                self.power_sums@.len() == other.power_sums@.len(),
                i <= self.power_sums@.len(),
                forall|t: int| 0 <= t < i ==> self.power_sums@[t] == other.power_sums@[t],
            decreases self.power_sums@.len() - i,
        {
            if self.power_sums[i] != other.power_sums[i] {
                return false;
            }
            i = i + 1;
        }
        proof {
            assert(self.power_sums@ =~= other.power_sums@);
        }
        true
    }

    /// The number of absorbed elements.
    pub fn total(&self) -> (r: usize)
        requires
            self.digest.count <= usize::MAX,
        ensures
            r == self.digest.count,
    {
        self.digest.count as usize
    }

    /// Absorbs one element.
    pub fn process(&mut self, elem: &[u8])
        requires
            old(self).wf(),
            old(self).digest.count < usize::MAX,
        ensures
            final(self).wf(),
            final(self).digest.seed == old(self).digest.seed,
            final(self).digest.count == old(self).digest.count + 1,
            final(self).digest.elems@ == old(self).digest.elems@.insert(elem@),
            final(self).power_sums@.len() == old(self).power_sums@.len(),
    {
        let v = elem_to_u32(elem);
        self.digest.add(elem);
        let ghost m0 = old(self).digest.elems@;
        let ghost m1 = self.digest.elems@;
        let ghost dsnap = self.digest;
        let threshold = self.power_sums.len();
        let mut value: i64 = 1;
        proof {
            vstd::arithmetic::power::lemma_pow0(v as int);
            vstd::arithmetic::div_mod::lemma_small_mod(1nat, field_p() as nat);
        }
        let mut j: usize = 0;
        while j < threshold
            invariant
                self.digest == dsnap,
                dsnap.wf(),
                dsnap.seed == old(self).digest.seed,
                dsnap.count == old(self).digest.count + 1,
                dsnap.count <= usize::MAX,
                dsnap.elems@ == m1,
                self.power_sums@.len() == threshold,
                threshold + 1 < LARGE_PRIME,
                v == djb_hash_of(elem@),
                m1 == m0.insert(elem@),
                j <= threshold,
                value == pow(v as int, j as nat) % field_p(),
                0 <= value < LARGE_PRIME,
                forall|t: int|
                    0 <= t < j ==> #[trigger] self.power_sums@[t] == power_sum_ms(
                        m1,
                        (t + 1) as nat,
                    ) && 0 <= self.power_sums@[t] < LARGE_PRIME,
                forall|t: int|
                    j <= t < threshold ==> #[trigger] self.power_sums@[t] == power_sum_ms(
                        m0,
                        (t + 1) as nat,
                    ) && 0 <= self.power_sums@[t] < LARGE_PRIME,
            decreases threshold - j,
        {
            value = mul_and_mod(value, v as i64, LARGE_PRIME);
            proof {
                lemma_pow_mod_step(v as int, j as nat);
            }
            let cur = self.power_sums[j];
            let next = (cur + value) % LARGE_PRIME;
            self.power_sums.set(j, next);
            proof {
                let pi = field_p();
                let w = (|e: Seq<u8>| pow(djb_hash_of(e) as int, (j + 1) as nat) % pi);
                lemma_weight_sum_insert(m0, elem@, w);
                vstd::arithmetic::div_mod::lemma_mod_twice(w(elem@), pi);
                vstd::arithmetic::div_mod::lemma_add_mod_noop(weight_sum(m0, w), w(elem@), pi);
                assert(next == power_sum_ms(m1, (j + 1) as nat));
            }
            j = j + 1;
        }
    }

    /// Absorbs a batch of elements; equal to processing them one by one.
    pub fn process_batch(&mut self, elems: &Vec<Vec<u8>>)
        requires
            old(self).wf(),
            old(self).digest.count + elems@.len() <= usize::MAX,
        ensures
            final(self).wf(),
            final(self).digest.seed == old(self).digest.seed,
            final(self).digest.count == old(self).digest.count + elems@.len(),
            final(self).digest.elems@ == old(self).digest.elems@.add(
                byte_views(elems@).to_multiset(),
            ),
            final(self).power_sums@.len() == old(self).power_sums@.len(),
    {
        proof {
            broadcast use vstd::multiset::group_multiset_axioms;
            broadcast use vstd::seq_lib::group_to_multiset_ensures;

            assert(byte_views(elems@).take(0) =~= Seq::<Seq<u8>>::empty());
            assert(byte_views(elems@).take(0).to_multiset() =~= Multiset::<Seq<u8>>::empty());
            assert(old(self).digest.elems@.add(Multiset::<Seq<u8>>::empty()) =~= old(
                self,
            ).digest.elems@);
        }
        let mut i: usize = 0;
        while i < elems.len()
            invariant
                old(self).wf(),
                i <= elems@.len(),
                old(self).digest.count + elems@.len() <= usize::MAX,
                self.wf(),
                self.digest.seed == old(self).digest.seed,
                self.digest.count == old(self).digest.count + i,
                self.digest.elems@ == old(self).digest.elems@.add(
                    byte_views(elems@).take(i as int).to_multiset(),
                ),
                self.power_sums@.len() == old(self).power_sums@.len(),
            decreases elems@.len() - i,
        {
            self.process(elems[i].as_slice());
            proof {
                broadcast use vstd::multiset::group_multiset_axioms;
                broadcast use vstd::seq_lib::group_to_multiset_ensures;

                let bv = byte_views(elems@);
                assert(bv.take(i as int).push(bv[i as int]) =~= bv.take(i as int + 1));
                assert(bv[i as int] == elems@[i as int]@);
                assert(self.digest.elems@ =~= old(self).digest.elems@.add(
                    bv.take(i as int + 1).to_multiset(),
                ));
            }
            i = i + 1;
        }
        proof {
            assert(byte_views(elems@).take(elems@.len() as int) =~= byte_views(elems@));
        }
    }

    /// Drops the absorbed elements, preserving the seed and the threshold.
    pub fn reset(&mut self)
        requires
            old(self).wf(),
        ensures
            final(self).wf(),
            final(self).digest.seed == old(self).digest.seed,
            final(self).digest.count == 0,
            final(self).digest.elems@ == Multiset::<Seq<u8>>::empty(),
            final(self).power_sums@.len() == old(self).power_sums@.len(),
    {
        self.digest.reset();
        let n = self.power_sums.len();
        self.power_sums = zero_sums(n);
        proof {
            lemma_empty_power_sums();
        }
    }

    /// The field difference between the candidate log's power sums and the
    /// stored ones, over the first `n` exponents: the power sums of the
    /// dropped elements.
    pub open spec fn spec_power_sum_diff(self, elems: Seq<Vec<u8>>, n: int) -> Seq<i64> {
        Seq::new(
            n as nat,
            |j: int|
                ((power_sum_seq(djb_vals(elems), (j + 1) as nat) - self.power_sums@[j])
                    % field_p()) as i64,
        )
    }


    /// The largest number of trailing candidates that can be cut while the
    /// accumulator still validates, by binary search over `validate` (the
    /// verifier's truncation probe; callers assume validity is monotone in
    /// the cut length).
    pub fn max_truncation(&self, elems: &Vec<Vec<u8>>) -> (r: usize)
        requires
            self.wfs(),
            self.digest.count <= elems@.len(),
            elems@.len() <= 0x7fff_ffff,
        ensures
            r <= elems@.len() - self.digest.count,
    {
        let total = self.total();
        let mut lo: usize = 0;
        let mut hi: usize = elems.len() - total;
        while lo != hi
            invariant
                self.wfs(),
                self.digest.count <= elems@.len(),
                elems@.len() <= 0x7fff_ffff,
                lo <= hi <= elems@.len() - self.digest.count,
            decreases hi - lo,
        {
            let mid = lo + (hi - lo) / 2;
            let prefix = crate::solver::log_prefix(elems, elems.len() - mid);
            if self.validate(&prefix).is_valid() {
                lo = mid + 1;
            } else {
                hi = mid;
            }
        }
        lo
    }
    /// Validates a candidate log against the accumulator.
    ///
    /// With `n` the number of candidates beyond the processed count: a
    /// shorter candidate list is `Invalid`; `n` beyond the threshold is
    /// `PsumExceedsThreshold`; at `n == 0` the verdict reduces to
    /// recomputing the digest over the candidates and comparing; otherwise
    /// the difference polynomial is built and its roots are recovered
    /// among the candidate values, giving the dropped positions.
    pub fn validate(&self, elems: &Vec<Vec<u8>>) -> (r: ValidationResult)
        requires
            self.wfs(),
            elems@.len() <= 0x7fff_ffff,
        ensures
            elems@.len() < self.digest.count ==> r is Invalid,
            elems@.len() - self.digest.count > self.power_sums@.len() && elems@.len()
                >= self.digest.count ==> r is PsumExceedsThreshold,
            elems@.len() == self.digest.count ==> ((r matches ValidationResult::Valid(d)
                && d@.len() == 0) <==> (digest_state(
                self.digest.seed,
                byte_views(elems@).to_multiset(),
            ) == self.digest.state && elems@.len() == self.digest.count)),
            elems@.len() == self.digest.count ==> (r is Valid || r is Invalid),
            elems@.len() >= self.digest.count && 0 < elems@.len() - self.digest.count
                <= self.power_sums@.len() ==> (r is Valid || r is PsumCollisionsValid
                || r is PsumErrorFindingRoots),
            modulus_is_prime() && elems@.len() >= self.digest.count && 0 < elems@.len()
                - self.digest.count <= self.power_sums@.len() ==> forall|coeffs: Seq<i64>|
                #[trigger] newton_fits(
                    coeffs,
                    self.spec_power_sum_diff(elems@, elems@.len() - self.digest.count),
                ) ==> (((r is Valid || r is PsumCollisionsValid) <==> peel_roots(
                    coeffs,
                    djb_vals(elems@),
                    0,
                ).0.len() == 1) && (forall|d: Vec<usize>|
                    (#[trigger] valid_witness(r, d)) ==> d@ == peel_roots(
                        coeffs,
                        djb_vals(elems@),
                        0,
                    ).1)),
            forall|d: Vec<usize>|
                (#[trigger] valid_witness(r, d)) ==> d@.len() == elems@.len()
                    - self.digest.count && (forall|t1: int, t2: int|
                    0 <= t1 < t2 < d@.len() ==> d@[t1] < d@[t2]) && (forall|t: int|
                    0 <= t < d@.len() ==> #[trigger] d@[t] < elems@.len()),
    {
        let total = self.total();
        if elems.len() < total {
            return ValidationResult::Invalid;
        }
        let n = elems.len() - total;
        let threshold = self.power_sums.len();
        if n > threshold {
            return ValidationResult::PsumExceedsThreshold;
        }
        if n == 0 {
            let empty_drop: Vec<usize> = Vec::new();
            let ok = digest_matches_excluding(
                self.digest.seed,
                self.digest.count,
                self.digest.state,
                elems,
                &empty_drop,
            );
            proof {
                broadcast use vstd::seq_lib::group_to_multiset_ensures;

                lemma_keep_prefix_empty(elems@, elems@.len() as int);
                assert(byte_views(elems@).take(elems@.len() as int) =~= byte_views(elems@));
                assert(empty_drop@ =~= Seq::<usize>::empty());
                assert(byte_views(elems@).to_multiset().len() == byte_views(elems@).len());
            }
            if ok {
                return ValidationResult::Valid(empty_drop);
            } else {
                return ValidationResult::Invalid;
            }
        }
        let vals = elems_to_u32(elems);
        let power_sums = calculate_power_sums(&vals, threshold);
        let diff = calculate_difference(power_sums, &self.power_sums);
        let ndiff = take_prefix(&diff, n);
        proof {
            assert(ndiff@ =~= self.spec_power_sum_diff(elems@, n as int));
        }
        let coeffs = compute_polynomial_coefficients(ndiff);
        proof {
            if modulus_is_prime() {
                assert forall|coeffs2: Seq<i64>|
                    #[trigger] newton_fits(
                        coeffs2,
                        self.spec_power_sum_diff(elems@, n as int),
                    ) implies coeffs2 == coeffs@ by {
                    lemma_newton_unique(coeffs2, coeffs@, ndiff@);
                }
            }
        }
        match find_roots_among(&coeffs, &vals) {
            Some(d) => {
                proof {
                    lemma_peel_props(coeffs@, vals@, 0);
                }
                if check_value_collisions(&vals, &d) {
                    ValidationResult::PsumCollisionsValid(d)
                } else {
                    ValidationResult::Valid(d)
                }
            },
            None => ValidationResult::PsumErrorFindingRoots,
        }
    }
}

/// Law: power-sum accumulators of one threshold that absorbed the same
/// multiset of elements from the same seed are equal, whatever the
/// processing order.
pub proof fn lemma_power_sum_order_invariant(a: PowerSumAccumulator, b: PowerSumAccumulator)
    requires
        a.wf(),
        b.wf(),
        a.digest.seed == b.digest.seed,
        a.digest.elems@ == b.digest.elems@,
        a.power_sums@.len() == b.power_sums@.len(),
    ensures
        a.spec_equals(b),
{
    crate::digest::lemma_digest_order_invariant(a.digest, b.digest);
    assert(a.power_sums@ =~= b.power_sums@) by {
        assert forall|j: int| 0 <= j < a.power_sums@.len() implies a.power_sums@[j]
            == b.power_sums@[j] by {
            assert(a.power_sums@[j] == power_sum_ms(a.digest.elems@, (j + 1) as nat));
            assert(b.power_sums@[j] == power_sum_ms(b.digest.elems@, (j + 1) as nat));
        }
    };
}

/// Whether `r` is a valid verdict carrying exactly the witness `d`.
pub open spec fn valid_witness(r: ValidationResult, d: Vec<usize>) -> bool {
    match r {
        ValidationResult::Valid(w) => w == d,
        ValidationResult::PsumCollisionsValid(w) => w == d,
        ValidationResult::IbltCollisionsValid(w) => w == d,
        ValidationResult::IbltIlpValid(w) => w == d,
        ValidationResult::IbltIlpCollisionsValid(w) => w == d,
        _ => false,
    }
}

/// Every power sum of the empty multiset is zero.
proof fn lemma_empty_power_sums()
    ensures
        forall|j: nat| #[trigger] power_sum_ms(Multiset::<Seq<u8>>::empty(), j) == 0,
{
    broadcast use vstd::multiset::group_multiset_axioms;

    vstd::arithmetic::div_mod::lemma_small_mod(0nat, field_p() as nat);
    assert(Multiset::<Seq<u8>>::empty().len() == 0);
}

/// In the field, the difference of two reduced values is zero exactly when
/// they are equal.
proof fn lemma_field_diff_zero(a: int, b: int)
    requires
        0 <= a < LARGE_PRIME,
        0 <= b < LARGE_PRIME,
    ensures
        ((a - b) % field_p() == 0) <==> a == b,
{
    let pi = field_p();
    if a == b {
        vstd::arithmetic::div_mod::lemma_small_mod(0nat, pi as nat);
    } else if a > b {
        vstd::arithmetic::div_mod::lemma_small_mod((a - b) as nat, pi as nat);
    } else {
        vstd::arithmetic::div_mod::lemma_mod_add_multiples_vanish(a - b, pi);
        vstd::arithmetic::div_mod::lemma_small_mod((a - b + pi) as nat, pi as nat);
        assert((a - b) % pi == (pi + (a - b)) % pi);
    }
}

/// A vector of `n` zeros.
fn zero_sums(n: usize) -> (r: Vec<i64>)
    ensures
        r@.len() == n,
        forall|j: int| 0 <= j < n ==> #[trigger] r@[j] == 0,
{
    let mut r: Vec<i64> = Vec::new();
    let mut k: usize = 0;
    while k < n
        invariant
            r@.len() == k,
            k <= n,
            forall|j: int| 0 <= j < k ==> #[trigger] r@[j] == 0,
        decreases n - k,
    {
        r.push(0);
        k = k + 1;
    }
    r
}

/// The first `n` entries of a vector.
fn take_prefix(v: &Vec<i64>, n: usize) -> (r: Vec<i64>)
    requires
        n <= v@.len(),
    ensures
        r@ =~= v@.take(n as int),
{
    let mut r: Vec<i64> = Vec::new();
    let mut k: usize = 0;
    while k < n
        invariant
            n <= v@.len(),
            r@.len() == k,
            k <= n,
            forall|j: int| 0 <= j < k ==> #[trigger] r@[j] == v@[j],
        decreases n - k,
    {
        r.push(v[k]);
        k = k + 1;
    }
    r
}

} // verus!
