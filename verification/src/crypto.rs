//! Threshold secret sharing over the prime field of order 2^31 - 1 (Shamir shares,
//! Lagrange reconstruction) and the stream cipher keyed by the shared secret.
use vstd::prelude::*;

use crate::types::{Address, EncryptedTx, Transaction, sha256, sha256_digest};
use vstd::arithmetic::power::pow;

verus! {

/// The field modulus, the Mersenne prime 2^31 - 1.
pub const PRIME: i128 = 2_147_483_647;

/// The largest magnitude of a polynomial coefficient whose arithmetic stays
/// inside `i128` (2^64; the scheme's own coefficients are below `PRIME`).
pub open spec fn small(v: int) -> bool {
    -0x1_0000_0000_0000_0000 <= v <= 0x1_0000_0000_0000_0000
}

/// `v` times any residue of `PRIME` stays inside `i128`: `|v| <= i128::MAX / PRIME`.
pub open spec fn scalable(v: int) -> bool {
    -0x1_0000_0002_0000_0004_0000_0008 <= v <= 0x1_0000_0002_0000_0004_0000_0008
}

/// The difference of two such `v` is `scalable`: `|v| <= i128::MAX / (2 * PRIME)`.
pub open spec fn half_scalable(v: int) -> bool {
    -0x8000_0001_0000_0002_0000_0004 <= v <= 0x8000_0001_0000_0002_0000_0004
}

// ---------------------------------------------------------------------------
// Extended Euclid

/// The greatest common divisor by Euclid's algorithm.
pub open spec fn gcd(r0: nat, r1: nat) -> nat
    decreases r1,
{
    if r1 == 0 { r0 } else { gcd(r1, r0 % r1) }
}

/// The Bezout coefficient extended Euclid carries along with the remainders
/// `r0, r1`, starting from coefficients `s0, s1`.
pub open spec fn euclid_coeff(r0: nat, r1: nat, s0: int, s1: int) -> int
    decreases r1,
{
    if r1 == 0 { s0 } else { euclid_coeff(r1, r0 % r1, s1, s0 - (r0 / r1) as int * s1) }
}

/// The inverse of `a` modulo `m` that extended Euclid gives, lifted into `0..=m`.
pub open spec fn inv_mod(a: nat, m: nat) -> int {
    let s = euclid_coeff(m, a, 0, 1);
    if s < 0 { s + m } else { s }
}

pub open spec fn abs(x: int) -> int {
    if x < 0 { -x } else { x }
}

/// One step of extended Euclid keeps the coefficients bounded.
proof fn lemma_euclid_step(m: int, r0: int, r1: int, s0: int, s1: int, q: int, r2: int)
    requires
        r1 > 0,
        r0 >= 0,
        0 <= r2,
        r2 == r0 - q * r1,
        q >= 0,
        s0 * s1 <= 0,
        abs(s0) * r1 + abs(s1) * r0 == m,
    ensures
        s1 * (s0 - q * s1) <= 0,
        abs(s1) * r2 + abs(s0 - q * s1) * r1 == m,
        abs(s0 - q * s1) == abs(s0) + abs(q * s1),
{
    if s1 >= 0 {
        assert(q * s1 >= 0) by (nonlinear_arith) requires q >= 0, s1 >= 0;
        if s0 <= 0 {
            assert(s0 - q * s1 <= 0) by (nonlinear_arith) requires s0 <= 0, q >= 0, s1 >= 0;
            assert(s1 * (s0 - q * s1) <= 0) by (nonlinear_arith) requires s0 - q * s1 <= 0, s1 >= 0;
            assert(s1 * r2 + (q * s1 - s0) * r1 == m) by (nonlinear_arith)
                requires r2 == r0 - q * r1, -s0 * r1 + s1 * r0 == m;
        } else {
            assert(s1 == 0) by (nonlinear_arith) requires s0 * s1 <= 0, s0 > 0, s1 >= 0;
            assert(q * s1 == 0) by (nonlinear_arith) requires s1 == 0;
            assert(s1 * (s0 - q * s1) == 0) by (nonlinear_arith) requires s1 == 0;
            assert(abs(s1) == 0 && abs(s0 - q * s1) == s0 && abs(s0) == s0);
            assert(0 * r0 == 0 && 0 * r2 == 0);
        }
    } else {
        assert(q * s1 <= 0) by (nonlinear_arith) requires q >= 0, s1 < 0;
        assert(s0 >= 0) by (nonlinear_arith) requires s0 * s1 <= 0, s1 < 0;
        assert(s0 - q * s1 >= 0) by (nonlinear_arith) requires s0 >= 0, q >= 0, s1 < 0;
        assert(s1 * (s0 - q * s1) <= 0) by (nonlinear_arith) requires s0 - q * s1 >= 0, s1 < 0;
        assert(-s1 * r2 + (s0 - q * s1) * r1 == m) by (nonlinear_arith)
            requires r2 == r0 - q * r1, s0 * r1 + (-s1) * r0 == m;
    }
}

/// `x` is a multiple of `m`.
pub open spec fn divides(m: int, x: int) -> bool {
    x % m == 0
}

/// A multiple of `m` is `m` times its quotient.
proof fn lemma_divides_witness(m: int, x: int)
    requires
        m > 0,
        divides(m, x),
    ensures
        x == m * (x / m),
{
    vstd::arithmetic::div_mod::lemma_fundamental_div_mod(x, m);
}

/// `m` times anything is a multiple of `m`.
proof fn lemma_divides_multiple(m: int, k: int)
    requires
        m > 0,
    ensures
        divides(m, m * k),
{
    vstd::arithmetic::div_mod::lemma_mod_multiples_basic(k, m);
    assert(k * m == m * k) by (nonlinear_arith);
}

/// Extended Euclid keeps each coefficient times `a` congruent to its remainder
/// modulo `m`; so the final coefficient times `a` is congruent to the gcd.
pub proof fn lemma_euclid_bezout(m: nat, a: int, r0: nat, r1: nat, s0: int, s1: int)
    requires
        m > 0,
        divides(m as int, s0 * a - r0),
        divides(m as int, s1 * a - r1),
    ensures
        divides(m as int, euclid_coeff(r0, r1, s0, s1) * a - gcd(r0, r1)),
    decreases r1,
{
    if r1 > 0 {
        let q = (r0 / r1) as int;
        let r2 = r0 % r1;
        let k0 = (s0 * a - r0) / (m as int);
        let k1 = (s1 * a - r1) / (m as int);
        lemma_divides_witness(m as int, s0 * a - r0);
        lemma_divides_witness(m as int, s1 * a - r1);
        assert(r0 == q * r1 + r2) by {
            vstd::arithmetic::div_mod::lemma_fundamental_div_mod(r0 as int, r1 as int);
        }
        assert((s0 - q * s1) * a - r2 == m * (k0 - q * k1)) by (nonlinear_arith)
            requires
                s0 * a - r0 == m * k0,
                s1 * a - r1 == m * k1,
                r0 == q * r1 + r2;
        lemma_divides_multiple(m as int, k0 - q * k1);
        lemma_euclid_bezout(m, a, r1, r2, s1, s0 - q * s1);
    }
}

/// The inverse of `a` modulo `m` by extended Euclid: where `a` and `m` are
/// coprime, `a * r` is 1 modulo `m`; in every case `a * r` is congruent to the
/// gcd of `m` and `a`.
#[verifier::spinoff_prover]
pub fn mod_inverse(a: i128, m: i128) -> (r: i128)
    requires
        0 <= a,
        0 < m,
    ensures
        r == inv_mod(a as nat, m as nat),
        0 <= r <= m,
        (a * r) % (m as int) == (gcd(m as nat, a as nat) as int) % (m as int),
{
    let mut r0: i128 = m;
    let mut r1: i128 = a;
    let mut s0: i128 = 0;
    let mut s1: i128 = 1;
    proof {
        assert(abs(0) == 0 && abs(1) == 1);
        lemma_divides_multiple(m as int, -1);
        assert(0 * a - m == m * -1);
        assert(1 * a - a == m * 0);
        lemma_divides_multiple(m as int, 0);
    }
    while r1 != 0
        invariant
            0 < m,
            0 <= r1,
            0 < r0,
            s0 * s1 <= 0,
            abs(s0 as int) * r1 + abs(s1 as int) * r0 == m,
            abs(s0 as int) <= m,
            abs(s1 as int) <= m,
            euclid_coeff(r0 as nat, r1 as nat, s0 as int, s1 as int) == euclid_coeff(m as nat, a as nat, 0, 1),
            gcd(r0 as nat, r1 as nat) == gcd(m as nat, a as nat),
            divides(m as int, s0 * a - r0),
            divides(m as int, s1 * a - r1),
        decreases r1,
    {
        let q = r0 / r1;
        let r2 = r0 % r1;
        proof {
            vstd::arithmetic::div_mod::lemma_fundamental_div_mod(r0 as int, r1 as int);
            assert(r0 == r1 * q + r2);
            lemma_euclid_step(m as int, r0 as int, r1 as int, s0 as int, s1 as int, q as int, r2 as int);
            assert(abs(s0 - q * s1) <= m) by (nonlinear_arith)
                requires abs(s1 as int) * r2 + abs(s0 - q * s1) * r1 == m, r1 >= 1, r2 >= 0, abs(s1 as int) >= 0;
            assert(abs(q * s1) <= m);
            let k0 = (s0 * a - r0) / (m as int);
            let k1 = (s1 * a - r1) / (m as int);
            lemma_divides_witness(m as int, s0 * a - r0);
            lemma_divides_witness(m as int, s1 * a - r1);
            assert((s0 - q * s1) * a - r2 == m * (k0 - q * k1)) by (nonlinear_arith)
                requires
                    s0 * a - r0 == m * k0,
                    s1 * a - r1 == m * k1,
                    r0 == r1 * q + r2;
            lemma_divides_multiple(m as int, k0 - q * k1);
        }
        let s2 = s0 - q * s1;
        r0 = r1;
        r1 = r2;
        s0 = s1;
        s1 = s2;
    }
    proof {
        assert(gcd(r0 as nat, 0) == r0);
        assert(euclid_coeff(r0 as nat, 0, s0 as int, s1 as int) == s0);
    }
    let ghost s_end = s0;
    while s0 < 0
        invariant
            0 < m,
            s_end < 0 ==> s0 == s_end || s0 == s_end + m,
            s_end >= 0 ==> s0 == s_end,
            -m <= s_end <= m,
        decreases (if s0 < 0 { -s0 } else { 0 }),
    {
        s0 = s0 + m;
    }
    proof {
        let k = (s_end * a - r0) / (m as int);
        lemma_divides_witness(m as int, s_end * a - r0);
        let g = r0 as int;
        if s_end < 0 {
            assert(a * s0 == m * (k + a) + g) by (nonlinear_arith)
                requires s0 == s_end + m, s_end * a - r0 == m * k, g == r0;
        } else {
            assert(a * s0 == m * k + g) by (nonlinear_arith)
                requires s0 == s_end, s_end * a - r0 == m * k, g == r0;
        }
        let t = if s_end < 0 { k + a } else { k };
        assert(a * s0 == m * t + g);
        vstd::arithmetic::div_mod::lemma_mod_multiples_vanish(t, g, m as int);
    }
    s0
}


/// With `a` and `m` coprime, the inverse is a true inverse: `a * r` is 1 modulo `m`.
pub proof fn lemma_inv_mod_inverts(a: nat, m: nat)
    requires
        m > 1,
        gcd(m, a) == 1,
    ensures
        0 <= inv_mod(a, m) < m,
        (a * inv_mod(a, m)) % (m as int) == 1,
{
    lemma_euclid_coeff_bound(m, a);
    lemma_divides_multiple(m as int, -1);
    assert(0 * (a as int) - m == m * -1);
    assert(1 * (a as int) - a == (m as int) * 0);
    lemma_divides_multiple(m as int, 0);
    lemma_euclid_bezout(m, a as int, m, a, 0, 1);
    let s = euclid_coeff(m, a, 0, 1);
    let k = (s * a - 1) / (m as int);
    lemma_divides_witness(m as int, s * a - 1);
    assert(s * a == m * k + 1);
    let r = inv_mod(a, m);
    assert(s != m) by {
        if s == m {
            assert(m * a == m * k + 1) by (nonlinear_arith) requires s == m, s * a == m * k + 1;
            assert(m * (a - k) == 1) by (nonlinear_arith) requires m * a == m * k + 1;
            assert(false) by (nonlinear_arith) requires m * (a - k) == 1, m > 1;
        }
    }
    let t = if s < 0 { k + a } else { k };
    if s < 0 {
        assert(a * r == m * t + 1) by (nonlinear_arith)
            requires r == s + m, s * a == m * k + 1, t == k + a;
    } else {
        assert(a * r == m * t + 1) by (nonlinear_arith)
            requires r == s, s * a == m * k + 1, t == k;
    }
    vstd::arithmetic::div_mod::lemma_mod_multiples_vanish(t, 1, m as int);
    vstd::arithmetic::div_mod::lemma_small_mod(1, m);
}

/// The coefficient extended Euclid reaches for `m, a` lies within `-m..=m`.
proof fn lemma_euclid_coeff_bound(m: nat, a: nat)
    requires
        m > 0,
    ensures
        -m <= euclid_coeff(m, a, 0, 1) <= m,
{
    assert(abs(0) == 0 && abs(1) == 1);
    lemma_euclid_coeff_bound_from(m as int, m, a, 0, 1);
}

proof fn lemma_euclid_coeff_bound_from(m: int, r0: nat, r1: nat, s0: int, s1: int)
    requires
        m > 0,
        r0 > 0,
        s0 * s1 <= 0,
        abs(s0) * r1 + abs(s1) * r0 == m,
        abs(s0) <= m,
        abs(s1) <= m,
    ensures
        -m <= euclid_coeff(r0, r1, s0, s1) <= m,
    decreases r1,
{
    if r1 > 0 {
        let q = (r0 / r1) as int;
        let r2 = r0 % r1;
        vstd::arithmetic::div_mod::lemma_fundamental_div_mod(r0 as int, r1 as int);
        lemma_euclid_step(m, r0 as int, r1 as int, s0, s1, q, r2 as int);
        assert(abs(s0 - q * s1) <= m) by (nonlinear_arith)
            requires abs(s1) * r2 + abs(s0 - q * s1) * r1 == m, r1 >= 1, r2 >= 0, abs(s1) >= 0;
        lemma_euclid_coeff_bound_from(m, r1, r2, s1, s0 - q * s1);
    }
}

// ---------------------------------------------------------------------------
// Congruences

/// Sums of congruent terms are congruent.
proof fn lemma_cong_add(a1: int, b1: int, a2: int, b2: int, m: int)
    requires
        m > 0,
        a1 % m == b1 % m,
        a2 % m == b2 % m,
    ensures
        (a1 + a2) % m == (b1 + b2) % m,
{
    vstd::arithmetic::div_mod::lemma_add_mod_noop(a1, a2, m);
    vstd::arithmetic::div_mod::lemma_add_mod_noop(b1, b2, m);
}

/// Products of congruent factors are congruent.
proof fn lemma_cong_mul(a1: int, b1: int, a2: int, b2: int, m: int)
    requires
        m > 0,
        a1 % m == b1 % m,
        a2 % m == b2 % m,
    ensures
        (a1 * a2) % m == (b1 * b2) % m,
{
    vstd::arithmetic::div_mod::lemma_mul_mod_noop(a1, a2, m);
    vstd::arithmetic::div_mod::lemma_mul_mod_noop(b1, b2, m);
}

/// A value in `0..m` is its own remainder.
proof fn lemma_cong_unique(x: int, y: int, m: int)
    requires
        m > 0,
        0 <= x < m,
        x % m == y % m,
    ensures
        x == y % m,
{
    vstd::arithmetic::div_mod::lemma_small_mod(x as nat, m as nat);
}

// ---------------------------------------------------------------------------
// The scheme

/// `sum(c[i] * x^i for i < n)`: the polynomial with coefficients `c`, cut to its
/// first `n` terms, at `x`.
pub open spec fn poly_value(c: Seq<i128>, x: int, n: nat) -> int
    decreases n,
{
    if n == 0 { 0 } else { poly_value(c, x, (n - 1) as nat) + c[n - 1] * pow(x, (n - 1) as nat) }
}

/// The `i`-th coefficient the scheme draws from `seed` (for `i >= 1`).
pub open spec fn seed_coeff(seed: u64, i: int) -> i128 {
    ((vstd::wrapping::u64_specs::wrapping_mul(seed, (i * 31 + 7) as u64) as int) % (PRIME as int - 1) + 1) as i128
}

/// The secret the scheme draws from `seed`.
pub open spec fn seed_secret(seed: u64) -> i128 {
    ((seed as int) % (PRIME as int - 1) + 1) as i128
}

/// A threshold secret-sharing scheme: the secret is the constant term of a
/// polynomial of degree `threshold - 1` over the field of order `PRIME`;
/// validator `i` holds the share `(i + 1, f(i + 1))`.
pub struct ThresholdScheme {
    pub threshold: usize,
    pub total_validators: usize,
    pub secret: i128,
    pub polynomial: Vec<i128>,
}

impl Clone for ThresholdScheme {
    fn clone(&self) -> (r: Self)
        ensures
            r.threshold == self.threshold,
            r.total_validators == self.total_validators,
            r.secret == self.secret,
            r.polynomial@ == self.polynomial@,
    {
        ThresholdScheme {
            threshold: self.threshold,
            total_validators: self.total_validators,
            secret: self.secret,
            polynomial: self.polynomial.clone(),
        }
    }
}

impl ThresholdScheme {
    /// Every coefficient is small enough for evaluation to stay inside `i128`.
    pub open spec fn coeffs_small(&self) -> bool {
        forall|i: int| 0 <= i < self.polynomial@.len() ==> small(#[trigger] self.polynomial@[i] as int)
    }

    /// A scheme with `threshold` of `total_validators` shares needed, its secret
    /// and coefficients drawn from `secret_seed`.
    #[verifier::spinoff_prover]
    pub fn new(threshold: usize, total_validators: usize, secret_seed: u64) -> (s: Self)
        requires
            threshold <= total_validators,
            threshold == 0 || (threshold - 1) * 31 + 7 <= u64::MAX,
        ensures
            s.threshold == threshold,
            s.total_validators == total_validators,
            s.secret == seed_secret(secret_seed),
            s.polynomial@.len() == if threshold == 0 { 1 } else { threshold },
            s.polynomial@[0] == s.secret,
            forall|i: int| 1 <= i < s.polynomial@.len() ==> #[trigger] s.polynomial@[i] == seed_coeff(secret_seed, i),
            s.coeffs_small(),
    {
        let secret = (secret_seed as i128 % (PRIME - 1)) + 1;
        let mut polynomial: Vec<i128> = Vec::new();
        polynomial.push(secret);
        let mut i: usize = 1;
        while i < threshold
            invariant
                1 <= i,
                i <= threshold || (threshold == 0 && i == 1),
                threshold == 0 || (threshold - 1) * 31 + 7 <= u64::MAX,
                polynomial@.len() == i,
                polynomial@[0] == secret,
                0 < secret < PRIME,
                forall|j: int| 1 <= j < i ==> #[trigger] polynomial@[j] == seed_coeff(secret_seed, j),
            decreases threshold - i,
        {
            let c = ((secret_seed.wrapping_mul(i as u64 * 31 + 7)) as i128 % (PRIME - 1)) + 1;
            polynomial.push(c);
            i = i + 1;
        }
        let s = ThresholdScheme { threshold, total_validators, secret, polynomial };
        proof {
            assert forall|j: int| 0 <= j < s.polynomial@.len() implies small(#[trigger] s.polynomial@[j] as int) by {
                if j >= 1 {
                    assert(s.polynomial@[j] == seed_coeff(secret_seed, j));
                }
            }
        }
        s
    }

    /// `f(x)` reduced into `0..PRIME`.
    #[verifier::spinoff_prover]
    pub fn eval_polynomial(&self, x: i128) -> (r: i128)
        requires
            self.coeffs_small(),
            scalable(x as int),
        ensures
            r == poly_value(self.polynomial@, x as int, self.polynomial@.len()) % (PRIME as int),
            0 <= r < PRIME,
    {
        let ghost c = self.polynomial@;
        let mut result: i128 = 0;
        let mut x_pow: i128 = 1;
        proof { reveal(pow); }
        let n = self.polynomial.len();
        for i in 0..n
            invariant
                n == c.len(),
                c == self.polynomial@,
                self.coeffs_small(),
                scalable(x as int),
                -PRIME < result < PRIME,
                -PRIME < x_pow < PRIME,
                (result as int) % (PRIME as int) == poly_value(c, x as int, i as nat) % (PRIME as int),
                (x_pow as int) % (PRIME as int) == pow(x as int, i as nat) % (PRIME as int),
        {
            let coeff = self.polynomial[i];
            proof {
                assert(small(coeff as int));
                assert(-0x1_0000_0000_0000_0000 * PRIME <= coeff * x_pow <= 0x1_0000_0000_0000_0000 * PRIME) by (nonlinear_arith)
                    requires small(coeff as int), -PRIME < x_pow < PRIME;
                assert(-0x1_0000_0002_0000_0004_0000_0008 * PRIME <= x_pow * x <= 0x1_0000_0002_0000_0004_0000_0008 * PRIME) by (nonlinear_arith)
                    requires scalable(x as int), -PRIME < x_pow < PRIME;
            }
            let next = (result + coeff * x_pow) % PRIME;
            let next_pow = (x_pow * x) % PRIME;
            proof {
                let pw = pow(x as int, i as nat);
                lemma_cong_mul(coeff as int, coeff as int, x_pow as int, pw, PRIME as int);
                lemma_cong_add(result as int, poly_value(c, x as int, i as nat), coeff * x_pow, coeff * pw, PRIME as int);
                assert(poly_value(c, x as int, (i + 1) as nat) == poly_value(c, x as int, i as nat) + c[i as int] * pw);
                lemma_cong_mul(x_pow as int, pw, x as int, x as int, PRIME as int);
                assert(pow(x as int, (i + 1) as nat) == x * pw) by { reveal(pow); }
                assert(pw * x == x * pw) by (nonlinear_arith);
            }
            result = next;
            x_pow = next_pow;
        }
        proof {
            vstd::arithmetic::div_mod::lemma_mod_add_multiples_vanish(result as int, PRIME as int);
            lemma_cong_unique((result + PRIME) % (PRIME as int), poly_value(c, x as int, n as nat), PRIME as int);
        }
        (result + PRIME) % PRIME
    }

    /// Validator `validator_idx`'s share: `(x, f(x))` at `x = validator_idx + 1`.
    #[verifier::spinoff_prover]
    pub fn get_share(&self, validator_idx: usize) -> (share: (i128, i128))
        requires
            self.coeffs_small(),
        ensures
            share.0 == validator_idx + 1,
            share.1 == poly_value(self.polynomial@, validator_idx + 1, self.polynomial@.len()) % (PRIME as int),
    {
        let x = validator_idx as i128 + 1;
        let y = self.eval_polynomial(x);
        (x, y)
    }
}


// ---------------------------------------------------------------------------
// Lagrange reconstruction

/// Every share's coordinates are small enough for reconstruction to stay inside
/// `i128`: the points' differences and the values times a residue of `PRIME`.
pub open spec fn shares_small(s: Seq<(i128, i128)>) -> bool {
    forall|i: int| 0 <= i < s.len() ==> half_scalable((#[trigger] s[i]).0 as int) && scalable(s[i].1 as int)
}

/// `prod(-x_j for j < n, j != i)`: the numerator of share `i`'s Lagrange weight at 0.
pub open spec fn lag_num(s: Seq<(i128, i128)>, i: int, n: nat) -> int
    decreases n,
{
    if n == 0 {
        1
    } else if (n - 1) as int == i {
        lag_num(s, i, (n - 1) as nat)
    } else {
        lag_num(s, i, (n - 1) as nat) * -(s[n - 1].0 as int)
    }
}

/// `prod(x_i - x_j for j < n, j != i)`: the denominator of share `i`'s Lagrange weight.
pub open spec fn lag_den(s: Seq<(i128, i128)>, i: int, n: nat) -> int
    decreases n,
{
    if n == 0 {
        1
    } else if (n - 1) as int == i {
        lag_den(s, i, (n - 1) as nat)
    } else {
        lag_den(s, i, (n - 1) as nat) * (s[i].0 - s[n - 1].0)
    }
}

/// `sum(y_i * num_i * den_i^-1 for i < n)`, the inverses taken modulo `PRIME`.
pub open spec fn lag_sum(s: Seq<(i128, i128)>, n: nat) -> int
    decreases n,
{
    if n == 0 {
        0
    } else {
        let i = (n - 1) as int;
        lag_sum(s, (n - 1) as nat) + s[i].1 * lag_num(s, i, s.len())
            * inv_mod((lag_den(s, i, s.len()) % (PRIME as int)) as nat, PRIME as nat)
    }
}

/// The secret that Lagrange interpolation at 0 recovers from the shares `s`,
/// reduced into `0..PRIME`.
pub open spec fn lagrange_secret(s: Seq<(i128, i128)>) -> int {
    lag_sum(s, s.len()) % (PRIME as int)
}

impl ThresholdScheme {
    /// Recovers the secret from shares by Lagrange interpolation at 0; fails with
    /// "no shares" when there are none.
    /// Threshold-many shares of distinct validators, in any order, recover the
    /// scheme's secret (`lemma_shares_recover`).
    #[verifier::spinoff_prover]
    pub fn reconstruct_secret(shares: &[(i128, i128)]) -> (r: Result<i128, &'static str>)
        requires
            shares_small(shares@),
        ensures
            shares@.len() == 0 <==> r is Err,
            r matches Err(e) ==> e@ == "no shares"@,
            r matches Ok(v) ==> v == lagrange_secret(shares@),
    {
        if shares.len() == 0 {
            return Err("no shares");
        }
        let ghost sv = shares@;
        let k = shares.len();
        let mut secret: i128 = 0;
        for i in 0..k
            invariant
                k == sv.len(),
                sv == shares@,
                shares_small(sv),
                -PRIME < secret < PRIME,
                (secret as int) % (PRIME as int) == lag_sum(sv, i as nat) % (PRIME as int),
        {
            let lagrange = Self::share_term(shares, i);
            proof {
                let ln = lag_num(sv, i as int, k as nat);
                let inv = inv_mod((lag_den(sv, i as int, k as nat) % (PRIME as int)) as nat, PRIME as nat);
                let y = sv[i as int].1 as int;
                lemma_cong_add(secret as int, lag_sum(sv, i as nat), lagrange as int, y * ln * inv, PRIME as int);
                assert(lag_sum(sv, (i + 1) as nat) == lag_sum(sv, i as nat) + y * ln * inv);
            }
            secret = (secret + lagrange) % PRIME;
        }
        proof {
            vstd::arithmetic::div_mod::lemma_mod_add_multiples_vanish(secret as int, PRIME as int);
            lemma_cong_unique((secret + PRIME) % (PRIME as int), lag_sum(sv, k as nat), PRIME as int);
        }
        Ok((secret + PRIME) % PRIME)
    }
}


impl ThresholdScheme {
    /// The numerator and denominator of share `i`'s Lagrange weight at 0, each
    /// reduced into `-PRIME..PRIME` as it is built.
    #[verifier::spinoff_prover]
    fn weight_parts(shares: &[(i128, i128)], i: usize) -> (r: (i128, i128))
        requires
            shares_small(shares@),
            i < shares@.len(),
        ensures
            -PRIME < r.0 < PRIME,
            -PRIME < r.1 < PRIME,
            (r.0 as int) % (PRIME as int) == lag_num(shares@, i as int, shares@.len()) % (PRIME as int),
            (r.1 as int) % (PRIME as int) == lag_den(shares@, i as int, shares@.len()) % (PRIME as int),
    {
        let ghost sv = shares@;
        let k = shares.len();
        let xi = shares[i].0;
        proof { assert(half_scalable(sv[i as int].0 as int)); }
        let mut num: i128 = 1;
        let mut den: i128 = 1;
        for j in 0..k
            invariant
                k == sv.len(),
                sv == shares@,
                shares_small(sv),
                i < k,
                xi == sv[i as int].0,
                half_scalable(xi as int),
                -PRIME < num < PRIME,
                -PRIME < den < PRIME,
                (num as int) % (PRIME as int) == lag_num(sv, i as int, j as nat) % (PRIME as int),
                (den as int) % (PRIME as int) == lag_den(sv, i as int, j as nat) % (PRIME as int),
        {
            if i != j {
                let (xj, _) = shares[j];
                proof {
                    assert(half_scalable(sv[j as int].0 as int));
                    assert(-0x1_0000_0002_0000_0004_0000_0008 * PRIME <= num * (-xj) <= 0x1_0000_0002_0000_0004_0000_0008 * PRIME) by (nonlinear_arith)
                        requires half_scalable(xj as int), -PRIME < num < PRIME;
                    assert(-0x1_0000_0002_0000_0004_0000_0008 * PRIME <= den * (xi - xj) <= 0x1_0000_0002_0000_0004_0000_0008 * PRIME) by (nonlinear_arith)
                        requires half_scalable(xj as int), half_scalable(xi as int), -PRIME < den < PRIME;
                    lemma_cong_mul(num as int, lag_num(sv, i as int, j as nat), -xj, -xj, PRIME as int);
                    lemma_cong_mul(den as int, lag_den(sv, i as int, j as nat), xi - xj, xi - xj, PRIME as int);
                }
                num = (num * (-xj)) % PRIME;
                den = (den * (xi - xj)) % PRIME;
            }
        }
        (num, den)
    }
}


// ---------------------------------------------------------------------------
// The cipher

/// The big-endian two's-complement bytes of an `i128` (`to_be_bytes`).
pub open spec fn i128_be(x: i128) -> Seq<u8> {
    Seq::new(16, |k: int| ((x as u128) >> ((8 * (15 - k)) as u32)) as u8)
}

/// The key the cipher derives from a secret: SHA-256 of its big-endian bytes.
pub open spec fn derived_key(secret: i128) -> Seq<u8> {
    sha256(i128_be(secret))
}

/// `data` with byte `i` XOR-ed with `key[i % 32]`.
pub open spec fn xor_stream(data: Seq<u8>, key: Seq<u8>) -> Seq<u8> {
    Seq::new(data.len(), |i: int| data[i] ^ key[i % 32])
}

/// XOR-ing twice with the same key stream gives the data back.
pub proof fn lemma_xor_stream_twice(data: Seq<u8>, key: Seq<u8>)
    ensures
        xor_stream(xor_stream(data, key), key) == data,
{
    let once = xor_stream(data, key);
    assert forall|i: int| 0 <= i < data.len() implies #[trigger] xor_stream(once, key)[i] == data[i] by {
        let a = data[i];
        let b = key[i % 32];
        assert((a ^ b) ^ b == a) by (bit_vector);
    }
    assert(xor_stream(once, key) =~= data);
}

/// The ephemeral key field of an encrypted transaction: the id's big-endian bytes,
/// then zeros.
pub open spec fn ephemeral_for(id: u64) -> Seq<u8> {
    crate::types::u64_be(id) + Seq::new(24, |_i: int| 0u8)
}

/// XORs `data` with the key stream.
fn apply_stream(data: &[u8], key: &[u8; 32]) -> (out: Vec<u8>)
    ensures
        out@ == xor_stream(data@, key@),
{
    let mut out: Vec<u8> = Vec::new();
    let n = data.len();
    for i in 0..n
        invariant
            n == data@.len(),
            out@ == xor_stream(data@.subrange(0, i as int), key@),
    {
        out.push(data[i] ^ key[i % 32]);
        proof { assert(out@ =~= xor_stream(data@.subrange(0, i + 1), key@)); }
    }
    proof { assert(data@.subrange(0, n as int) =~= data@); }
    out
}

impl ThresholdScheme {
    /// The cipher key for `secret`: SHA-256 of its 16 big-endian bytes.
    pub fn derive_key(secret: i128) -> (key: [u8; 32])
        ensures
            key@ == derived_key(secret),
    {
        let u = secret as u128;
        let mut bytes: Vec<u8> = Vec::new();
        for k in 0..16usize
            invariant
                u == secret as u128,
                bytes@ == i128_be(secret).subrange(0, k as int),
        {
            bytes.push((u >> (8 * (15 - k as u32))) as u8);
            proof { assert(bytes@ =~= i128_be(secret).subrange(0, k + 1)); }
        }
        proof { assert(i128_be(secret).subrange(0, 16) =~= i128_be(secret)); }
        sha256_digest(bytes.as_slice())
    }

    /// Encrypts the serialized transaction `plaintext` of `tx` under the key
    /// derived from the scheme's secret.
    pub fn encrypt(&self, tx: &Transaction, plaintext: &[u8]) -> (e: EncryptedTx)
        ensures
            e.id == tx.id,
            e.sender == tx.sender,
            e.ciphertext@ == xor_stream(plaintext@, derived_key(self.secret)),
            e.ephemeral_key@ == ephemeral_for(tx.id),
    {
        let key = Self::derive_key(self.secret);
        let ciphertext = apply_stream(plaintext, &key);
        let mut be: Vec<u8> = Vec::new();
        crate::types::push_u64_be(&mut be, tx.id);
        let mut ephemeral = [0u8; 32];
        for i in 0..8usize
            invariant
                be@ == crate::types::u64_be(tx.id),
                forall|j: int| 0 <= j < i ==> ephemeral@[j] == be@[j],
                forall|j: int| 8 <= j < 32 ==> ephemeral@[j] == 0,
        {
            ephemeral[i] = be[i];
        }
        proof { assert(ephemeral@ =~= ephemeral_for(tx.id)); }
        EncryptedTx { id: tx.id, sender: tx.sender, ciphertext, ephemeral_key: ephemeral }
    }

    /// Decrypts `enc_tx` with the key derived from the secret the shares
    /// reconstruct; fails with "no shares" when there are none. Gives the
    /// serialized transaction.
    pub fn decrypt_with_shares(shares: &[(i128, i128)], enc_tx: &EncryptedTx) -> (r: Result<Vec<u8>, &'static str>)
        requires
            shares_small(shares@),
        ensures
            shares@.len() == 0 <==> r is Err,
            r matches Err(e) ==> e@ == "no shares"@,
            r matches Ok(p) ==> p@ == xor_stream(enc_tx.ciphertext@, derived_key(lagrange_secret(shares@) as i128)),
    {
        let recovered = match Self::reconstruct_secret(shares) {
            Ok(v) => v,
            Err(e) => { return Err(e); },
        };
        let key = Self::derive_key(recovered);
        Ok(apply_stream(enc_tx.ciphertext.as_slice(), &key))
    }
}

/// Decryption undoes encryption: shares from which the scheme's secret is
/// reconstructed decrypt what the scheme encrypted back to the plaintext.
pub proof fn lemma_decrypt_encrypt(secret: i128, shares: Seq<(i128, i128)>, plaintext: Seq<u8>)
    requires
        shares.len() > 0,
        lagrange_secret(shares) == secret,
    ensures
        xor_stream(xor_stream(plaintext, derived_key(secret)), derived_key(lagrange_secret(shares) as i128)) == plaintext,
{
    lemma_xor_stream_twice(plaintext, derived_key(secret));
}


impl ThresholdScheme {
    /// Share `i`'s term of the interpolation sum, `y_i * num_i * den_i^-1`,
    /// reduced into `-PRIME..PRIME`.
    #[verifier::spinoff_prover]
    fn share_term(shares: &[(i128, i128)], i: usize) -> (t: i128)
        requires
            shares_small(shares@),
            i < shares@.len(),
        ensures
            -PRIME < t < PRIME,
            (t as int) % (PRIME as int) == (shares@[i as int].1 * lag_num(shares@, i as int, shares@.len())
                * inv_mod((lag_den(shares@, i as int, shares@.len()) % (PRIME as int)) as nat, PRIME as nat)) % (PRIME as int),
    {
        let ghost sv = shares@;
        let k = shares.len();
        let yi = shares[i].1;
        proof { assert(scalable(sv[i as int].1 as int)); }
        let (num, den) = Self::weight_parts(shares, i);
        let den_pos = (den + PRIME) % PRIME;
        proof {
            vstd::arithmetic::div_mod::lemma_mod_add_multiples_vanish(den as int, PRIME as int);
            lemma_cong_unique(den_pos as int, lag_den(sv, i as int, k as nat), PRIME as int);
        }
        let den_inv = mod_inverse(den_pos, PRIME);
        proof {
            assert(-0x1_0000_0002_0000_0004_0000_0008 * PRIME <= yi * num <= 0x1_0000_0002_0000_0004_0000_0008 * PRIME) by (nonlinear_arith)
                requires scalable(yi as int), -PRIME < num < PRIME;
        }
        let term = (yi * num) % PRIME;
        proof {
            assert(-PRIME * PRIME <= term * den_inv <= PRIME * PRIME) by (nonlinear_arith)
                requires -PRIME < term < PRIME, 0 <= den_inv <= PRIME;
        }
        let lagrange = (term * den_inv) % PRIME;
        proof {
            let ln = lag_num(sv, i as int, k as nat);
            let inv = inv_mod((lag_den(sv, i as int, k as nat) % (PRIME as int)) as nat, PRIME as nat);
            assert(den_inv == inv);
            lemma_cong_mul(yi as int, yi as int, num as int, ln, PRIME as int);
            lemma_cong_mul(term as int, yi * ln, den_inv as int, inv, PRIME as int);
        }
        lagrange
    }
}

} // verus!
