//! Arithmetic in the prime field used by the power-sum accumulator.
//!
//! All residues are kept in `[0, modulo)`.  The public functions mirror the
//! schoolbook algorithms (double-and-add multiplication, Euclid's algorithm
//! for the modular inverse) so they stay within `i64`/`u128` range for any
//! modulus below `2^62`.

use vstd::prelude::*;

verus! {

/// The fixed prime of the power-sum accumulator, in `(2^32, 2^64)`.
/// Implementations must share this value to be wire-compatible.
pub const LARGE_PRIME: i64 = 51539607551;

/// Greatest common divisor.
pub open spec fn gcd(a: nat, b: nat) -> nat
    decreases b,
{
    if b == 0 {
        a
    } else {
        gcd(b, a % b)
    }
}

/// `gcd(a, b)` divides both arguments and is positive when `a` is.
pub proof fn lemma_gcd_properties(a: nat, b: nat)
    ensures
        a > 0 ==> gcd(a, b) >= 1,
        gcd(a, b) > 0 ==> (a as int) % (gcd(a, b) as int) == 0,
        gcd(a, b) > 0 ==> (b as int) % (gcd(a, b) as int) == 0,
    decreases b,
{
    if b == 0 {
        if a > 0 {
            vstd::arithmetic::div_mod::lemma_mod_self_0(a as int);
        }
    } else {
        lemma_gcd_properties(b, a % b);
        let g = gcd(b, a % b);
        if g > 0 {
            // a == (a / b) * b + a % b, and g divides both summands.
            vstd::arithmetic::div_mod::lemma_fundamental_div_mod(a as int, b as int);
            lemma_div_linear_combination(a as int, b as int, g as int);
        }
        if a > 0 && b > 0 {
            assert(gcd(a, b) == g);
            if g == 0 {
                assert((b as int) % (b as int) == 0) by {
                    vstd::arithmetic::div_mod::lemma_mod_self_0(b as int);
                };
                assert(gcd(b, a % b) >= 1);
            }
        }
    }
}

/// If `g` divides `b` and the remainder `a % b`, it divides `a`.
proof fn lemma_div_linear_combination(a: int, b: int, g: int)
    requires
        b > 0,
        g > 0,
        b % g == 0,
        (a % b) % g == 0,
    ensures
        a % g == 0,
{
    let q = a / b;
    let r = a % b;
    vstd::arithmetic::div_mod::lemma_fundamental_div_mod(a, b);
    assert(a == q * b + r);
    assert((q * b) % g == 0) by {
        broadcast use vstd::arithmetic::div_mod::lemma_mul_mod_noop_right;

        assert((q * (b % g)) % g == (q * b) % g);
        assert(q * 0 == 0) by (nonlinear_arith);
    };
    assert((q * b + r) % g == ((q * b) % g + r % g) % g) by {
        broadcast use vstd::arithmetic::div_mod::lemma_add_mod_noop;

    };
    assert((0int + 0int) % g == 0) by {
        vstd::arithmetic::div_mod::lemma_small_mod(0nat, g as nat);
    };
}

/// Multiplication in the field: returns `(a * b) % modulo` without ever
/// overflowing an `i64`, by double-and-add.
pub fn mul_and_mod(a: i64, b: i64, modulo: i64) -> (r: i64)
    requires
        1 <= modulo <= 0x4000_0000_0000_0000,
        0 <= a < modulo,
        0 <= b,
    ensures
        r == (a * b) % (modulo as int),
        0 <= r < modulo,
{
    let ghost target = (a * b) % (modulo as int);
    let mut a = a;
    let mut b = b;
    let mut res: i64 = 0;
    proof {
        vstd::arithmetic::div_mod::lemma_small_mod(res as nat, modulo as nat);
    }
    while b > 0
        invariant
            1 <= modulo <= 0x4000_0000_0000_0000,
            0 <= a < modulo,
            0 <= b,
            0 <= res < modulo,
            (res + a * b) % (modulo as int) == target,
        decreases b,
    {
        let ghost (res0, a0, b0) = (res as int, a as int, b as int);
        if b % 2 == 1 {
            res = (res + a) % modulo;
        }
        a = (2 * a) % modulo;
        b = b / 2;
        proof {
            lemma_mul_step(res0, a0, b0, modulo as int);
        }
    }
    proof {
        vstd::arithmetic::div_mod::lemma_small_mod(res as nat, modulo as nat);
    }
    res
}

/// One step of double-and-add preserves `(res + a * b) % m`.
proof fn lemma_mul_step(res: int, a: int, b: int, m: int)
    requires
        m >= 1,
        b > 0,
    ensures
        b % 2 == 1 ==> ((res + a) % m + ((2 * a) % m) * (b / 2)) % m == (res + a * b) % m,
        b % 2 == 0 ==> (res + ((2 * a) % m) * (b / 2)) % m == (res + a * b) % m,
{
    broadcast use vstd::arithmetic::div_mod::lemma_mul_mod_noop_left;
    broadcast use vstd::arithmetic::div_mod::lemma_add_mod_noop_right;
    broadcast use vstd::arithmetic::div_mod::lemma_add_mod_noop;
    broadcast use vstd::arithmetic::div_mod::lemma_mod_twice;

    let h = b / 2;
    vstd::arithmetic::div_mod::lemma_fundamental_div_mod(b, 2);
    assert(b == 2 * h + b % 2);
    assert((2 * a) * h == a * (2 * h)) by (nonlinear_arith);
    if b % 2 == 1 {
        assert(a * (2 * h) == a * b - a) by (nonlinear_arith)
            requires
                b == 2 * h + 1,
        ;
        // ((res + a) % m + ((2a) % m) * h) % m
        //   == ((res + a) % m + (2a * h) % m) % m   [mul noop, add noop right]
        //   == (res + a + 2a * h) % m               [add noop]
        //   == (res + a * b) % m.
        assert(((res + a) % m + ((2 * a) % m) * h) % m == ((res + a) % m + ((2 * a) % m * h)
            % m) % m);
        assert(((2 * a) % m * h) % m == (2 * a * h) % m);
        assert(((res + a) % m + (2 * a * h) % m) % m == (res + a + 2 * a * h) % m);
        assert(res + a + 2 * a * h == res + a * b);
    } else {
        assert(a * (2 * h) == a * b) by (nonlinear_arith)
            requires
                b == 2 * h,
        ;
        assert((res + ((2 * a) % m) * h) % m == (res + ((2 * a) % m * h) % m) % m);
        assert(((2 * a) % m * h) % m == (2 * a * h) % m);
        assert((res + (2 * a * h) % m) % m == (res + 2 * a * h) % m);
    }
}

/// Euclid's algorithm.
fn gcd_exec(a: i64, b: i64) -> (g: i64)
    requires
        1 <= a,
        1 <= b,
    ensures
        g == gcd(a as nat, b as nat),
        1 <= g <= a && g <= b,
        a % g == 0,
        b % g == 0,
{
    let mut x: i64 = a;
    let mut y: i64 = b;
    while y != 0
        invariant
            0 <= y,
            1 <= x,
            x <= a || x <= b,
            y <= a || y <= b,
            gcd(x as nat, y as nat) == gcd(a as nat, b as nat),
        decreases y,
    {
        let r = x % y;
        x = y;
        y = r;
    }
    proof {
        lemma_gcd_properties(a as nat, b as nat);
        assert(gcd(x as nat, 0) == x as nat);
        lemma_gcd_bound(a as nat, b as nat);
    }
    x
}

/// The gcd never exceeds a positive argument.
pub proof fn lemma_gcd_bound(a: nat, b: nat)
    ensures
        a > 0 ==> gcd(a, b) <= a,
        b > 0 ==> gcd(a, b) <= b,
{
    lemma_gcd_properties(a, b);
    let g = gcd(a, b);
    if a > 0 && g > a {
        vstd::arithmetic::div_mod::lemma_small_mod(a, g);
    }
    if b > 0 && g > b {
        if b == 0 {
        } else {
            assert(gcd(a, b) == gcd(b, a % b));
            lemma_gcd_properties(b, a % b);
            if g > b {
                vstd::arithmetic::div_mod::lemma_small_mod(b, g);
            }
        }
    }
}

/// Modular multiplicative inverse by the extended Euclidean algorithm, with
/// all Bezout coefficients kept reduced in `[0, m)`.
fn mod_inverse(b: u64, m: u64) -> (r: u64)
    requires
        1 <= b < m,
        2 <= m,
    ensures
        r < m,
        gcd(b as nat, m as nat) == 1 ==> (r * b) % (m as int) == 1,
{
    let mi: u128 = m as u128;
    let mut old_r: u128 = b as u128;
    let mut r: u128 = mi;
    let mut old_x: u128 = 1;
    let mut x: u128 = 0;
    proof {
        vstd::arithmetic::div_mod::lemma_small_mod(b as nat, m as nat);
        vstd::arithmetic::div_mod::lemma_mod_self_0(m as int);
        assert(b * 1 == b) by (nonlinear_arith);
        assert((m * 0) as int % (m as int) == 0int % (m as int)) by {
            broadcast use vstd::arithmetic::div_mod::lemma_mul_mod_noop_left;

        };
        vstd::arithmetic::div_mod::lemma_small_mod(0nat, m as nat);
    }
    while r != 0
        invariant
            2 <= mi == m,
            old_x < mi,
            x < mi,
            old_r <= mi,
            r <= mi,
            1 <= old_r,
            gcd(old_r as nat, r as nat) == gcd(b as nat, m as nat),
            old_r as int % (m as int) == (b * old_x) as int % (m as int),
            r as int % (m as int) == (b * x) as int % (m as int),
        decreases r,
    {
        let ghost (old_r0, r0, old_x0, x0) = (old_r as int, r as int, old_x as int, x as int);
        let q = old_r / r;
        proof {
            assert((q % mi) * x < 0x1_0000_0000_0000_0000_0000_0000_0000_0000) by (nonlinear_arith)
                requires
                    q % mi < mi,
                    x < mi,
                    mi <= 0xffff_ffff_ffff_ffff,
            ;
        }
        let new_r = old_r % r;
        let qx = ((q % mi) * x) % mi;
        let new_x = (old_x + (mi - qx)) % mi;
        old_r = r;
        r = new_r;
        old_x = x;
        x = new_x;
        proof {
            lemma_inverse_step(b as int, m as int, old_r0, r0, old_x0, x0);
        }
    }
    proof {
        assert(gcd(old_r as nat, 0) == old_r as nat);
        if gcd(b as nat, m as nat) == 1 {
            assert(old_r == 1);
            assert((b * old_x) as int % (m as int) == 1int % (m as int));
            vstd::arithmetic::div_mod::lemma_small_mod(1nat, m as nat);
            assert(old_x * b == b * old_x) by (nonlinear_arith);
        }
    }
    old_x as u64
}

/// One step of the extended Euclidean algorithm keeps the gcd and the
/// Bezout congruences.
proof fn lemma_inverse_step(b: int, m: int, old_r: int, r: int, old_x: int, x: int)
    requires
        2 <= m,
        1 <= old_r,
        1 <= r,
        0 <= old_x < m,
        0 <= x < m,
        old_r % m == (b * old_x) % m,
        r % m == (b * x) % m,
    ensures
        gcd(r as nat, (old_r % r) as nat) == gcd(old_r as nat, r as nat),
        (old_r % r) % m == (b * ((old_x + (m - ((old_r / r) % m) * x % m)) % m)) % m,
{
    let q = old_r / r;
    let qm = q % m;
    let qx = (qm * x) % m;
    let nx = (old_x + (m - qx)) % m;
    // The gcd step is the definition of `gcd`.
    assert(gcd(old_r as nat, r as nat) == gcd(r as nat, (old_r % r) as nat));
    // new_r == old_r - q * r.
    vstd::arithmetic::div_mod::lemma_fundamental_div_mod(old_r, r);
    let nr = old_r % r;
    assert(nr == old_r - q * r);
    // Chain A: (b * nx) % m == ((b * old_x) % m - (b * qx) % m) % m.
    assert((b * nx) % m == (b * (old_x + m - qx)) % m) by {
        vstd::arithmetic::div_mod::lemma_mul_mod_noop_right(b, old_x + m - qx, m);
    };
    assert(b * (old_x + m - qx) == (b * old_x - b * qx) + b * m) by (nonlinear_arith);
    assert((b * (old_x + m - qx)) % m == (b * old_x - b * qx) % m) by {
        lemma_add_multiple_vanish(b * old_x - b * qx, b, m);
    };
    assert((b * old_x - b * qx) % m == ((b * old_x) % m - (b * qx) % m) % m) by {
        vstd::arithmetic::div_mod::lemma_sub_mod_noop(b * old_x, b * qx, m);
    };
    // Chain B: (b * qx) % m == (q * r) % m.
    assert((b * qx) % m == (b * (qm * x)) % m) by {
        vstd::arithmetic::div_mod::lemma_mul_mod_noop_right(b, qm * x, m);
    };
    assert(b * (qm * x) == (b * x) * qm) by (nonlinear_arith);
    assert(((b * x) * qm) % m == (((b * x) % m) * qm) % m) by {
        vstd::arithmetic::div_mod::lemma_mul_mod_noop_left(b * x, qm, m);
    };
    assert((((b * x) % m) * qm) % m == ((r % m) * qm) % m);
    assert(((r % m) * qm) % m == (r * qm) % m) by {
        vstd::arithmetic::div_mod::lemma_mul_mod_noop_left(r, qm, m);
    };
    assert((r * qm) % m == (r * q) % m) by {
        vstd::arithmetic::div_mod::lemma_mul_mod_noop_right(r, q, m);
    };
    assert(r * q == q * r) by (nonlinear_arith);
    // Chain C: nr % m == ((b * old_x) % m - (q * r) % m) % m.
    assert((old_r - q * r) % m == (old_r % m - (q * r) % m) % m) by {
        vstd::arithmetic::div_mod::lemma_sub_mod_noop(old_r, q * r, m);
    };
    assert((old_r % m - (q * r) % m) % m == ((b * old_x) % m - (b * qx) % m) % m);
}

/// `(k * m) % m == 0`.
proof fn lemma_mul_multiple_vanish(k: int, m: int)
    requires
        m >= 1,
    ensures
        (k * m) % m == 0,
{
    vstd::arithmetic::div_mod::lemma_mod_multiples_basic(k, m);
}

/// Adding `k * m` does not change a value modulo `m`.
proof fn lemma_add_multiple_vanish(v: int, k: int, m: int)
    requires
        m >= 1,
    ensures
        (v + k * m) % m == v % m,
{
    vstd::arithmetic::div_mod::lemma_mod_multiples_vanish(k, v, m);
    assert(m * k == k * m) by (nonlinear_arith);
}

/// Bezout's identity: the gcd is an integer combination of its arguments.
pub proof fn lemma_bezout(a: int, b: int) -> (coeffs: (int, int))
    requires
        a >= 1,
        b >= 0,
    ensures
        a * coeffs.0 + b * coeffs.1 == gcd(a as nat, b as nat),
    decreases b,
{
    if b == 0 {
        assert(a * 1 + b * 0 == a) by (nonlinear_arith);
        (1, 0)
    } else {
        let (x, y) = lemma_bezout(b, a % b);
        vstd::arithmetic::div_mod::lemma_fundamental_div_mod(a, b);
        let q = a / b;
        // gcd == b*x + (a - q*b)*y == a*y + b*(x - q*y)
        assert(b * x + (a - q * b) * y == a * y + b * (x - q * y)) by (nonlinear_arith);
        (y, x - q * y)
    }
}

/// A value coprime with the modulus has a multiplicative inverse.
pub proof fn lemma_inverse_exists(b: int, m: int) -> (r: int)
    requires
        1 <= b,
        2 <= m,
        gcd(b as nat, m as nat) == 1,
    ensures
        0 <= r < m,
        (r * b) % m == 1,
{
    let (x, y) = lemma_bezout(b, m);
    assert(b * x + m * y == 1);
    let r = x % m;
    vstd::arithmetic::div_mod::lemma_mod_bound(x, m);
    assert((r * b) % m == (x * b) % m) by {
        vstd::arithmetic::div_mod::lemma_mul_mod_noop_left(x, b, m);
    };
    assert(x * b == 1 + (-y) * m) by (nonlinear_arith)
        requires
            b * x + m * y == 1,
    ;
    assert((1 + (-y) * m) % m == 1int % m) by {
        vstd::arithmetic::div_mod::lemma_mod_multiples_vanish(-y, 1, m);
        assert(m * (-y) == (-y) * m) by (nonlinear_arith);
    };
    vstd::arithmetic::div_mod::lemma_small_mod(1nat, m as nat);
    r
}

/// Multiplication by a value coprime with the modulus is cancellable:
/// congruent products force congruent (reduced) factors.
pub proof fn lemma_coprime_cancel(k: int, e1: int, e2: int, m: int)
    requires
        1 <= k,
        2 <= m,
        gcd(k as nat, m as nat) == 1,
        0 <= e1 < m,
        0 <= e2 < m,
        (k * e1) % m == (k * e2) % m,
    ensures
        e1 == e2,
{
    let inv = lemma_inverse_exists(k, m);
    // e1 == (inv * (k * e1)) % m and likewise for e2.
    assert forall|e: int| 0 <= e < m implies #[trigger] ((inv * ((k * e) % m)) % m) == e by {
        assert((inv * ((k * e) % m)) % m == (inv * (k * e)) % m) by {
            vstd::arithmetic::div_mod::lemma_mul_mod_noop_right(inv, k * e, m);
        };
        assert(inv * (k * e) == (inv * k) * e) by (nonlinear_arith);
        assert(((inv * k) * e) % m == (((inv * k) % m) * e) % m) by {
            vstd::arithmetic::div_mod::lemma_mul_mod_noop_left(inv * k, e, m);
        };
        assert((inv * k) % m == 1) by {
            assert(inv * k == k * inv) by (nonlinear_arith);
        };
        assert((1int * e) % m == e) by {
            vstd::arithmetic::div_mod::lemma_small_mod(e as nat, m as nat);
        };
    }
    assert((inv * ((k * e1) % m)) % m == e1);
    assert((inv * ((k * e2) % m)) % m == e2);
}

/// Division in the field: returns `r` with `r * b == a (mod modulo)`,
/// provided `b` divided by `gcd(a, b)` is invertible modulo `modulo`.
/// (For the prime modulus used by the accumulator that holds for every
/// `b` in `[1, modulo)`.)
pub fn div_and_mod(a: i64, b: i64, modulo: i64) -> (r: i64)
    requires
        2 <= modulo <= 0x4000_0000_0000_0000,
        1 <= a < modulo,
        1 <= b < modulo,
    ensures
        0 <= r < modulo,
        gcd((b as nat) / gcd(a as nat, b as nat), modulo as nat) == 1 ==> (r * b) % (
        modulo as int) == (a as int) % (modulo as int),
        gcd((b as nat) / gcd(a as nat, b as nat), modulo as nat) == 1 ==> (r * ((b as int) / (
        gcd(a as nat, b as nat) as int))) % (modulo as int) == ((a as int) / (gcd(
            a as nat,
            b as nat,
        ) as int)) % (modulo as int),
        (b as nat) / gcd(a as nat, b as nat) == 1 ==> r == (a as int) / (gcd(
            a as nat,
            b as nat,
        ) as int),
{
    let g = gcd_exec(a, b);
    let a2 = a / g;
    let b2 = b / g;
    proof {
        vstd::arithmetic::div_mod::lemma_fundamental_div_mod(a as int, g as int);
        vstd::arithmetic::div_mod::lemma_fundamental_div_mod(b as int, g as int);
        assert((g as int) * (a2 as int) == (a2 as int) * (g as int)) by (nonlinear_arith);
        assert((g as int) * (b2 as int) == (b2 as int) * (g as int)) by (nonlinear_arith);
        assert(a == a2 * g);
        assert(b == b2 * g);
        assert(a2 >= 1 && a2 <= a) by (nonlinear_arith)
            requires
                a == a2 * g,
                g >= 1,
                a >= 1,
        ;
        assert(b2 >= 1 && b2 <= b) by (nonlinear_arith)
            requires
                b == b2 * g,
                g >= 1,
                b >= 1,
        ;
    }
    if b2 == 1 {
        proof {
            assert(a2 * b == a2 * (b2 * g));
            assert(a2 * (1 * g) == a2 * g) by (nonlinear_arith);
            vstd::arithmetic::div_mod::lemma_small_mod(a as nat, modulo as nat);
            assert((a2 as int) * 1 == a2) by (nonlinear_arith);
            vstd::arithmetic::div_mod::lemma_small_mod(a2 as nat, modulo as nat);
        }
        return a2;
    }
    let inv = mod_inverse(b2 as u64, modulo as u64);
    let r = mul_and_mod(a2, inv as i64, modulo);
    proof {
        if gcd(b2 as nat, modulo as nat) == 1 {
            lemma_div_final(a as int, b as int, a2 as int, b2 as int, g as int, inv as int,
                r as int, modulo as int);
            lemma_div_reduced(a2 as int, b2 as int, inv as int, r as int, modulo as int);
        }
    }
    r
}

/// With `inv` inverting `b2`, the product `(a2 * inv) % m` multiplied back
/// by `b2` gives `a2` modulo `m`.
proof fn lemma_div_reduced(a2: int, b2: int, inv: int, r: int, m: int)
    requires
        2 <= m,
        0 <= a2 < m,
        0 <= inv < m,
        (inv * b2) % m == 1,
        r == (a2 * inv) % m,
    ensures
        (r * b2) % m == a2 % m,
{
    assert((((a2 * inv) % m) * b2) % m == ((a2 * inv) * b2) % m) by {
        vstd::arithmetic::div_mod::lemma_mul_mod_noop_left(a2 * inv, b2, m);
    };
    assert((a2 * inv) * b2 == a2 * (inv * b2)) by (nonlinear_arith);
    assert((a2 * (inv * b2)) % m == (a2 * ((inv * b2) % m)) % m) by {
        vstd::arithmetic::div_mod::lemma_mul_mod_noop_right(a2, inv * b2, m);
    };
    assert(a2 * 1 == a2) by (nonlinear_arith);
}

/// When the reduced divisor is coprime with the modulus, the congruence in
/// `div_and_mod`'s contract has one solution in `[0, modulo)`: the
/// contract pins the result.
pub proof fn lemma_div_and_mod_unique(r1: int, r2: int, b: int, m: int)
    requires
        2 <= m,
        1 <= b,
        gcd(b as nat, m as nat) == 1,
        0 <= r1 < m,
        0 <= r2 < m,
        (r1 * b) % m == (r2 * b) % m,
    ensures
        r1 == r2,
{
    assert(r1 * b == b * r1) by (nonlinear_arith);
    assert(r2 * b == b * r2) by (nonlinear_arith);
    lemma_coprime_cancel(b, r1, r2, m);
}

/// Combining `a = a2 * g`, `b = b2 * g` and `inv * b2 == 1 (mod m)` gives
/// `(a2 * inv) * b == a (mod m)`.
proof fn lemma_div_final(a: int, b: int, a2: int, b2: int, g: int, inv: int, r: int, m: int)
    requires
        2 <= m,
        1 <= a < m,
        a == a2 * g,
        b == b2 * g,
        1 <= g,
        0 <= inv < m,
        (inv * b2) % m == 1,
        r == (a2 * inv) % m,
    ensures
        (r * b) % m == a % m,
{
    broadcast use vstd::arithmetic::div_mod::lemma_mul_mod_noop_left;
    broadcast use vstd::arithmetic::div_mod::lemma_mul_mod_noop_right;

    assert((r * b) % m == ((a2 * inv) % m * b) % m);
    assert(((a2 * inv) % m * b) % m == ((a2 * inv) * b) % m);
    assert((a2 * inv) * b == (a2 * g) * (inv * b2)) by (nonlinear_arith)
        requires
            b == b2 * g,
    ;
    assert(((a2 * g) * (inv * b2)) % m == ((a2 * g) * ((inv * b2) % m)) % m);
    assert((a2 * g) * 1 == a2 * g) by (nonlinear_arith);
}

} // verus!
