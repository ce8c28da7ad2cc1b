//! Greatest common divisors, and why multiplying by a unit permutes the residues.

use vstd::arithmetic::div_mod::*;
use vstd::arithmetic::mul::*;
use vstd::prelude::*;

verus! {

/// The greatest common divisor, by Euclid's recursion.
pub open spec fn gcd_spec(a: nat, b: nat) -> nat
    decreases b,
{
    if b == 0 {
        a
    } else {
        gcd_spec(b, a % b)
    }
}

/// `d` divides `n`.
pub open spec fn divides(d: nat, n: nat) -> bool {
    exists|k: nat| #[trigger] (d * k) == n
}

pub fn gcd(a: u64, b: u64) -> (r: u64)
    ensures
        r == gcd_spec(a as nat, b as nat),
{
    let mut a: u64 = a;
    let mut b: u64 = b;
    let ghost g = gcd_spec(a as nat, b as nat);
    while b != 0
        invariant
            gcd_spec(a as nat, b as nat) == g,
        decreases b,
    {
        let t: u64 = b;
        b = a % b;
        a = t;
    }
    a
}

/// The greatest common divisor is a combination of the two numbers.
pub proof fn lemma_bezout(a: nat, b: nat) -> (xy: (int, int))
    ensures
        a * xy.0 + b * xy.1 == gcd_spec(a, b),
    decreases b,
{
    if b == 0 {
        (1, 0)
    } else {
        let (x, y) = lemma_bezout(b, a % b);
        let q = (a / b) as int;
        lemma_fundamental_div_mod(a as int, b as int);
        assert(a * y + b * (x - q * y) == b * x + (a % b) * y) by (nonlinear_arith)
            requires
                a == b * q + a % b,
        ;
        (y, x - q * y)
    }
}

/// The greatest common divisor divides both numbers, and every common divisor divides it.
pub proof fn lemma_gcd_is_greatest(a: nat, b: nat)
    ensures
        divides(gcd_spec(a, b), a),
        divides(gcd_spec(a, b), b),
        forall|d: nat| divides(d, a) && divides(d, b) ==> #[trigger] divides(d, gcd_spec(a, b)),
    decreases b,
{
    let g = gcd_spec(a, b);
    if b == 0 {
        assert(g * 1 == a);
        assert(g * 0 == 0) by (nonlinear_arith);
    } else {
        lemma_gcd_is_greatest(b, a % b);
        lemma_fundamental_div_mod(a as int, b as int);
        let q = a / b;
        let k = choose|k: nat| #[trigger] (g * k) == b;
        let l = choose|l: nat| #[trigger] (g * l) == a % b;
        assert(g * (k * q + l) == a) by (nonlinear_arith)
            requires
                a == b * q + a % b,
                g * k == b,
                g * l == a % b,
        ;
        let m: nat = k * q + l;
        assert(g * m == a);
        assert forall|d: nat| divides(d, a) && divides(d, b) implies #[trigger] divides(d, g) by {
            let u = choose|u: nat| #[trigger] (d * u) == a;
            let v = choose|v: nat| #[trigger] (d * v) == b;
            let w = u as int - v * q;
            assert(d * w == d * u - (d * v) * q) by (nonlinear_arith)
                requires
                    w == u as int - v * q,
            ;
            assert(d * w == a % b);
            if w >= 0 {
                assert(d * (w as nat) == a % b);
            } else {
                assert(d * w <= 0) by (nonlinear_arith)
                    requires
                        w < 0,
                        d >= 0,
                ;
                assert(d * 0 == a % b) by (nonlinear_arith)
                    requires
                        a % b <= 0,
                        a % b >= 0,
                ;
            }
        }
    }
}

/// A number coprime to `m` has an inverse modulo `m`.
pub proof fn lemma_inverse(s: nat, m: nat) -> (inv: nat)
    requires
        m > 1,
        gcd_spec(s, m) == 1,
    ensures
        inv < m,
        (s * inv) % m == 1,
{
    let (x, y) = lemma_bezout(s, m);
    let inv = (x % (m as int)) as nat;
    assert((s * x) % (m as int) == 1) by {
        assert(s * x == 1 + m * (-y)) by (nonlinear_arith)
            requires
                s * x + m * y == 1,
        ;
        lemma_mod_multiples_vanish(-y, 1, m as int);
        lemma_small_mod(1, m);
    }
    lemma_mul_mod_noop_right(s as int, x, m as int);
    inv
}

/// Where step `n` of a walk with the given stride stands on a circle of `total` places.
pub open spec fn permuted(n: nat, stride: nat, total: nat) -> nat {
    if total <= 1 {
        0
    } else {
        ((n + 1) * stride) % total
    }
}

/// Two different steps of one round stand on different places.
pub proof fn permuted_is_injective(n: nat, k: nat, stride: nat, total: nat)
    requires
        n < total,
        k < total,
        gcd_spec(stride, total) == 1,
        permuted(n, stride, total) == permuted(k, stride, total),
    ensures
        n == k,
{
    if total > 1 {
        lemma_undo(n, stride, total);
        lemma_undo(k, stride, total);
        lemma_step_residue(n, total);
        lemma_step_residue(k, total);
    }
}

/// A step in 0..total is known from the residue of its successor.
proof fn lemma_step_residue(n: nat, total: nat)
    requires
        n < total,
        total > 1,
    ensures
        (n + 1) % total == (if n + 1 == total {
            0
        } else {
            n + 1
        }),
{
    if n + 1 == total {
        lemma_mod_self_0(total as int);
    } else {
        lemma_small_mod((n + 1) as nat, total);
    }
}

/// Multiplying a place by the inverse of the stride gives the step's residue.
proof fn lemma_undo(n: nat, stride: nat, total: nat)
    requires
        total > 1,
        gcd_spec(stride, total) == 1,
    ensures
        (permuted(n, stride, total) * inverse_of(stride, total)) % total == (n + 1) % total,
        (stride * inverse_of(stride, total)) % total == 1,
{
    let w = lemma_inverse(stride, total);
    assert((stride * w) % total == 1 && w < total);
    let inv = inverse_of(stride, total);
    let m = total as int;
    let a = (n + 1) as int;
    lemma_mul_mod_noop_left(a * stride, inv as int, m);
    lemma_mul_is_associative(a, stride as int, inv as int);
    lemma_mul_mod_noop_right(a, (stride * inv) as int, m);
    assert(a * 1 == a) by (nonlinear_arith);
}

/// The inverse of `stride` modulo `total`.
spec fn inverse_of(stride: nat, total: nat) -> nat {
    choose|inv: nat| inv < total && #[trigger] ((stride * inv) % total) == 1
}

/// Every place is reached by some step of one round.
pub proof fn permuted_is_onto(place: nat, stride: nat, total: nat)
    requires
        place < total,
        gcd_spec(stride, total) == 1,
    ensures
        exists|n: nat| n < total && #[trigger] permuted(n, stride, total) == place,
{
    if total == 1 {
        assert(permuted(0, stride, total) == place);
    } else {
        lemma_undo(0, stride, total);
        let inv = inverse_of(stride, total);
        let m = total as int;
        let r = ((place * inv) as int) % m;
        let n: nat = if r == 0 {
            (total - 1) as nat
        } else {
            (r - 1) as nat
        };
        lemma_step_residue(n, total);
        assert((n + 1) % total == r);
        // (n + 1) * stride ≡ place * inv * stride ≡ place
        lemma_mul_mod_noop_left((n + 1) as int, stride as int, m);
        lemma_mul_mod_noop_left((place * inv) as int, stride as int, m);
        assert((place * inv) * stride == place * (stride * inv)) by (nonlinear_arith);
        lemma_mul_mod_noop_right(place as int, (stride * inv) as int, m);
        lemma_small_mod(place, total);
        assert(permuted(n, stride, total) == place);
    }
}

/// Multiplying by a number that has an inverse `q` modulo `m` keeps different residues apart.
pub proof fn lemma_unit_multiplication(a: nat, b: nat, p: nat, q: nat, m: nat)
    requires
        m > 1,
        a < m,
        b < m,
        (p * q) % m == 1,
        (a * p) % m == (b * p) % m,
    ensures
        a == b,
{
    lemma_undone(a, p, q, m);
    lemma_undone(b, p, q, m);
}

proof fn lemma_undone(a: nat, p: nat, q: nat, m: nat)
    requires
        m > 1,
        a < m,
        (p * q) % m == 1,
    ensures
        (((a * p) % m) * q) % m == a,
{
    lemma_mul_mod_noop_left((a * p) as int, q as int, m as int);
    lemma_mul_is_associative(a as int, p as int, q as int);
    lemma_mul_mod_noop_right(a as int, (p * q) as int, m as int);
    lemma_small_mod(a, m);
}

} // verus!
