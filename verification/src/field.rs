//! Arithmetic modulo `PRIME`: it is prime, so every number it does not
//! divide has an inverse and cancels from products.
use vstd::prelude::*;

use crate::crypto::{PRIME, gcd, inv_mod, lemma_inv_mod_inverts};

verus! {

/// No two factors above 1 multiply to `PRIME`.
#[verifier::rlimit(100)]
proof fn lemma_no_factors(a: u32, b: u32)
    requires
        1 < a,
        1 < b,
    ensures
        (a as u64) * (b as u64) != 2147483647u64,
{
    assert(1 < a && 1 < b ==> (a as u64) * (b as u64) != 2147483647u64) by (bit_vector);
}

/// `PRIME` is prime: nothing strictly between 1 and itself divides it.
pub proof fn lemma_prime(d: int)
    requires
        1 < d < PRIME,
    ensures
        (PRIME as int) % d != 0,
{
    let p = PRIME as int;
    if p % d == 0 {
        let e = p / d;
        vstd::arithmetic::div_mod::lemma_fundamental_div_mod(p, d);
        assert(d * e == p);
        assert(e > 1) by (nonlinear_arith)
            requires d * e == p, 1 < d < p, p > 0;
        assert(e < p) by (nonlinear_arith)
            requires d * e == p, 1 < d, p > 0, e > 1;
        lemma_no_factors(d as u32, e as u32);
        assert((d as u32) as u64 * (e as u32) as u64 == d * e);
    }
}

/// The last remainder of Euclid's algorithm divides both numbers it started from.
pub proof fn lemma_gcd_divides(r0: nat, r1: nat)
    requires
        r0 > 0,
    ensures
        gcd(r0, r1) > 0,
        r0 % gcd(r0, r1) == 0,
        r1 % gcd(r0, r1) == 0,
    decreases r1,
{
    if r1 == 0 {
        vstd::arithmetic::div_mod::lemma_mod_self_0(r0 as int);
    } else {
        let r = r0 % r1;
        lemma_gcd_divides(r1, r);
        let g = gcd(r0, r1);
        assert(g == gcd(r1, r));
        let q = r0 / r1;
        vstd::arithmetic::div_mod::lemma_fundamental_div_mod(r0 as int, r1 as int);
        vstd::arithmetic::div_mod::lemma_fundamental_div_mod(r1 as int, g as int);
        vstd::arithmetic::div_mod::lemma_fundamental_div_mod(r as int, g as int);
        let k1 = r1 / g;
        let k2 = r / g;
        assert(r0 == g * (k1 * q + k2)) by (nonlinear_arith)
            requires r0 == r1 * q + r, r1 == g * k1 + 0, r == g * k2 + 0;
        vstd::arithmetic::div_mod::lemma_mod_multiples_vanish((k1 * q + k2) as int, 0, g as int);
    }
}

/// Every number strictly between 0 and `PRIME` is coprime to it.
pub proof fn lemma_coprime(a: nat)
    requires
        0 < a < PRIME,
    ensures
        gcd(PRIME as nat, a) == 1,
{
    let g = gcd(PRIME as nat, a);
    lemma_gcd_divides(PRIME as nat, a);
    vstd::arithmetic::div_mod::lemma_fundamental_div_mod(a as int, g as int);
    let k = a / g;
    assert(g <= a) by (nonlinear_arith)
        requires a == g * k + 0, a > 0, g > 0;
    if g > 1 {
        lemma_prime(g as int);
    }
}

/// Modulo `PRIME`, a factor that is not 0 cancels: where `u * v` is 0, so is `v`.
pub proof fn lemma_cancel(u: int, v: int)
    requires
        u % (PRIME as int) != 0,
        (u * v) % (PRIME as int) == 0,
    ensures
        v % (PRIME as int) == 0,
{
    let p = PRIME as int;
    let u0 = u % p;
    lemma_coprime(u0 as nat);
    lemma_inv_mod_inverts(u0 as nat, p as nat);
    let w = inv_mod(u0 as nat, p as nat);
    vstd::arithmetic::div_mod::lemma_fundamental_div_mod(u0 * w, p);
    vstd::arithmetic::div_mod::lemma_fundamental_div_mod(u, p);
    vstd::arithmetic::div_mod::lemma_fundamental_div_mod(u * v, p);
    let t = (u0 * w) / p;
    let q = u / p;
    let z = (u * v) / p;
    let k = z * w - q * w * v - v * t;
    assert(v * (u0 * w) == p * (v * t) + v) by (nonlinear_arith)
        requires u0 * w == p * t + 1;
    assert(v * (u0 * w) == (u * v) * w - p * (q * w * v)) by (nonlinear_arith)
        requires u == p * q + u0;
    assert((u * v) * w == p * (z * w)) by (nonlinear_arith)
        requires u * v == p * z + 0;
    assert(v == p * k + 0) by (nonlinear_arith)
        requires
            v * (u0 * w) == p * (v * t) + v,
            v * (u0 * w) == (u * v) * w - p * (q * w * v),
            (u * v) * w == p * (z * w),
            k == z * w - q * w * v - v * t;
    vstd::arithmetic::div_mod::lemma_mod_multiples_vanish(k, 0, p);
}

/// Modulo `PRIME`, a product of factors that are not 0 is not 0.
pub proof fn lemma_product_nonzero(u: int, v: int)
    requires
        u % (PRIME as int) != 0,
        v % (PRIME as int) != 0,
    ensures
        (u * v) % (PRIME as int) != 0,
{
    if (u * v) % (PRIME as int) == 0 {
        lemma_cancel(u, v);
    }
}

/// Two points that differ modulo `PRIME`.
pub open spec fn apart(a: int, b: int) -> bool {
    (a - b) % (PRIME as int) != 0
}

/// Where `u` and `v` are multiples of `PRIME`, so are `k u + v` and `u - v`.
pub proof fn lemma_multiples(u: int, v: int, k: int)
    requires
        u % (PRIME as int) == 0,
        v % (PRIME as int) == 0,
    ensures
        (k * u + v) % (PRIME as int) == 0,
        (u - v) % (PRIME as int) == 0,
{
    let p = PRIME as int;
    vstd::arithmetic::div_mod::lemma_fundamental_div_mod(u, p);
    vstd::arithmetic::div_mod::lemma_fundamental_div_mod(v, p);
    let (a, b) = (u / p, v / p);
    vstd::arithmetic::mul::lemma_mul_is_associative(k, p, a);
    vstd::arithmetic::mul::lemma_mul_is_commutative(k, p);
    vstd::arithmetic::mul::lemma_mul_is_associative(p, k, a);
    vstd::arithmetic::mul::lemma_mul_is_distributive_add(p, k * a, b);
    vstd::arithmetic::mul::lemma_mul_is_distributive_sub(p, a, b);
    vstd::arithmetic::div_mod::lemma_mod_multiples_vanish(k * a + b, 0, p);
    vstd::arithmetic::div_mod::lemma_mod_multiples_vanish(a - b, 0, p);
}

/// A denominator that is not 0 modulo `PRIME` times its inverse is one more
/// than a multiple of `PRIME`.
pub proof fn lemma_inverse_of(d: int) -> (t: int)
    requires
        d % (PRIME as int) != 0,
    ensures
        d * inv_mod((d % (PRIME as int)) as nat, PRIME as nat) == (PRIME as int) * t + 1,
{
    let p = PRIME as int;
    let d0 = d % p;
    lemma_coprime(d0 as nat);
    lemma_inv_mod_inverts(d0 as nat, p as nat);
    let w = inv_mod(d0 as nat, p as nat);
    vstd::arithmetic::div_mod::lemma_fundamental_div_mod(d0 * w, p);
    vstd::arithmetic::div_mod::lemma_fundamental_div_mod(d, p);
    let a = (d0 * w) / p;
    let q = d / p;
    assert(d * w == p * (q * w + a) + 1) by (nonlinear_arith)
        requires d0 * w == p * a + 1, d == p * q + d0;
    q * w + a
}

} // verus!
