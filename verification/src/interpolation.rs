//! Reconstruction from shares: with the secret the constant term of the
//! scheme's polynomial, any threshold-many shares of distinct validators
//! interpolate back to it.
use vstd::prelude::*;

use crate::crypto::{PRIME, ThresholdScheme, derived_key, inv_mod, lemma_xor_stream_twice, poly_value, lag_den, lag_num, lag_sum, lagrange_secret, xor_stream};
use crate::polynomial::{ev, lemma_ev_push, lemma_interpolation, lsum, pairwise_apart, prod_at, weights};
use crate::field::apart;

verus! {

/// Share `i` of a scheme's polynomial: the point `(i + 1, f(i + 1) mod P)`.
pub open spec fn share_point(sc: ThresholdScheme, i: int) -> (i128, i128) {
    ((i + 1) as i128, (poly_value(sc.polynomial@, i + 1, sc.polynomial@.len()) % (PRIME as int)) as i128)
}

/// A difference strictly between `-PRIME` and `PRIME`, other than 0, is not
/// 0 modulo `PRIME`.
proof fn lemma_small_apart(a: int, b: int)
    requires
        a != b,
        -PRIME < a - b < PRIME,
    ensures
        apart(a, b),
{
    let p = PRIME as int;
    let d = a - b;
    if d > 0 {
        vstd::arithmetic::div_mod::lemma_small_mod(d as nat, p as nat);
    } else {
        vstd::arithmetic::div_mod::lemma_mod_add_multiples_vanish(d, p);
        vstd::arithmetic::div_mod::lemma_small_mod((p + d) as nat, p as nat);
    }
}

/// The first coordinates of shares, as integers.
pub open spec fn share_xs(s: Seq<(i128, i128)>) -> Seq<int> {
    s.map_values(|p: (i128, i128)| p.0 as int)
}

/// The second coordinates of shares, as integers.
pub open spec fn share_ys(s: Seq<(i128, i128)>) -> Seq<int> {
    s.map_values(|p: (i128, i128)| p.1 as int)
}

/// A weight's numerator is the product at 0.
proof fn lemma_num_is_prod(s: Seq<(i128, i128)>, i: int, n: nat)
    requires
        n <= s.len(),
    ensures
        lag_num(s, i, n) == prod_at(share_xs(s), i, n, 0),
    decreases n,
{
    if n > 0 {
        lemma_num_is_prod(s, i, (n - 1) as nat);
    }
}

/// A weight's denominator is the product at the share's own point.
proof fn lemma_den_is_prod(s: Seq<(i128, i128)>, i: int, n: nat)
    requires
        n <= s.len(),
        0 <= i < s.len(),
    ensures
        lag_den(s, i, n) == prod_at(share_xs(s), i, n, share_xs(s)[i]),
    decreases n,
{
    if n > 0 {
        lemma_den_is_prod(s, i, (n - 1) as nat);
    }
}

/// The interpolation sum of the shares is the weighted sum at 0.
proof fn lemma_sum_is_lsum(s: Seq<(i128, i128)>, m: nat)
    requires
        m <= s.len(),
    ensures
        lag_sum(s, m) == lsum(share_xs(s), weights(share_xs(s), share_ys(s)), m, 0),
    decreases m,
{
    if m > 0 {
        let i = m - 1;
        lemma_sum_is_lsum(s, (m - 1) as nat);
        lemma_num_is_prod(s, i, s.len());
        lemma_den_is_prod(s, i, s.len());
        let y = s[i].1 as int;
        let nn = lag_num(s, i, s.len());
        let inv = inv_mod((lag_den(s, i, s.len()) % (PRIME as int)) as nat, PRIME as nat);
        assert(weights(share_xs(s), share_ys(s))[i] == y * inv);
        vstd::arithmetic::mul::lemma_mul_is_associative(y, nn, inv);
        vstd::arithmetic::mul::lemma_mul_is_associative(y, inv, nn);
        vstd::arithmetic::mul::lemma_mul_is_commutative(nn, inv);
    }
}

/// Lagrange reconstruction is exact: shares at points apart modulo `PRIME`,
/// each the value there of a polynomial with no more coefficients than there
/// are shares, give back its constant term modulo `PRIME`.
pub proof fn lemma_lagrange_recovers(s: Seq<(i128, i128)>, c: Seq<int>)
    requires
        c.len() <= s.len(),
        pairwise_apart(share_xs(s)),
        forall|k: int| 0 <= k < s.len() ==> (#[trigger] s[k]).1 % PRIME == ev(c, s[k].0 as int) % (PRIME as int),
    ensures
        lagrange_secret(s) == ev(c, 0) % (PRIME as int),
{
    let p = PRIME as int;
    let xs = share_xs(s);
    let ys = share_ys(s);
    assert forall|k: int| 0 <= k < xs.len() implies #[trigger] ys[k] % p == ev(c, xs[k]) % p by {
        assert(s[k].1 % PRIME == ev(c, s[k].0 as int) % p);
    }
    lemma_interpolation(xs, ys, c, 0);
    lemma_sum_is_lsum(s, s.len());
    let l = lsum(xs, weights(xs, ys), xs.len(), 0);
    vstd::arithmetic::div_mod::lemma_fundamental_div_mod(l - ev(c, 0), p);
    vstd::arithmetic::div_mod::lemma_mod_multiples_vanish((l - ev(c, 0)) / p, ev(c, 0), p);
}

/// The coefficients of a scheme's polynomial, as integers.
pub open spec fn coeffs(sc: ThresholdScheme) -> Seq<int> {
    sc.polynomial@.map_values(|v: i128| v as int)
}

/// The sum-of-powers value of the first `n` coefficients is their Horner value.
proof fn lemma_poly_value_ev(k: Seq<i128>, x: int, n: nat)
    requires
        n <= k.len(),
    ensures
        poly_value(k, x, n) == ev(k.map_values(|v: i128| v as int).take(n as int), x),
    decreases n,
{
    let c = k.map_values(|v: i128| v as int);
    if n == 0 {
        assert(c.take(0).len() == 0);
    } else {
        lemma_poly_value_ev(k, x, (n - 1) as nat);
        assert(c.take(n as int) =~= c.take(n - 1).push(c[n - 1]));
        lemma_ev_push(c.take(n - 1), c[n - 1], x);
    }
}

/// The shares of the validators at positions `idx`.
pub open spec fn shares_at(sc: ThresholdScheme, idx: Seq<int>) -> Seq<(i128, i128)> {
    idx.map_values(|a: int| share_point(sc, a))
}

/// Any threshold-many shares of distinct validators give the secret back:
/// interpolating at 0 through at least as many shares as the polynomial has
/// coefficients yields its constant term.
#[verifier::spinoff_prover]
pub proof fn lemma_shares_recover(sc: ThresholdScheme, idx: Seq<int>)
    requires
        1 <= sc.polynomial@.len() <= idx.len(),
        0 <= sc.polynomial@[0] < PRIME,
        forall|i: int| 0 <= i < idx.len() ==> 0 <= #[trigger] idx[i] < PRIME - 1,
        forall|i: int, j: int| 0 <= i < idx.len() && 0 <= j < idx.len() && i != j ==> idx[i] != idx[j],
    ensures
        lagrange_secret(shares_at(sc, idx)) == sc.polynomial@[0],
{
    let p = PRIME as int;
    let k = sc.polynomial@;
    let c = coeffs(sc);
    let s = shares_at(sc, idx);
    assert(c.take(k.len() as int) =~= c);
    assert forall|i: int| 0 <= i < s.len() implies (#[trigger] s[i]).1 % PRIME == ev(c, s[i].0 as int) % p by {
        let x = idx[i] + 1;
        assert(s[i] == share_point(sc, idx[i]));
        lemma_poly_value_ev(k, x, k.len());
        vstd::arithmetic::div_mod::lemma_mod_bound(poly_value(k, x, k.len()), p);
        let y = poly_value(k, x, k.len()) % p;
        vstd::arithmetic::div_mod::lemma_small_mod(y as nat, p as nat);
        assert(s[i].1 as int == y);
    }
    assert(pairwise_apart(share_xs(s))) by {
        assert forall|i: int, j: int| 0 <= i < s.len() && 0 <= j < s.len() && i != j implies apart(share_xs(s)[i], share_xs(s)[j]) by {
            assert(share_xs(s)[i] == idx[i] + 1 && share_xs(s)[j] == idx[j] + 1);
            lemma_small_apart(idx[i] + 1, idx[j] + 1);
        }
    }
    lemma_lagrange_recovers(s, c);
    assert(ev(c, 0) == c[0] + 0 * ev(c.drop_first(), 0));
    vstd::arithmetic::mul::lemma_mul_basics(ev(c.drop_first(), 0));
    vstd::arithmetic::div_mod::lemma_small_mod(c[0] as nat, p as nat);
}

/// What a scheme encrypts, threshold-many shares of distinct validators
/// decrypt back.
pub proof fn lemma_threshold_decrypts(sc: ThresholdScheme, idx: Seq<int>, plaintext: Seq<u8>)
    requires
        1 <= sc.polynomial@.len() <= idx.len(),
        sc.polynomial@[0] == sc.secret,
        0 <= sc.secret < PRIME,
        forall|i: int| 0 <= i < idx.len() ==> 0 <= #[trigger] idx[i] < PRIME - 1,
        forall|i: int, j: int| 0 <= i < idx.len() && 0 <= j < idx.len() && i != j ==> idx[i] != idx[j],
    ensures
        xor_stream(xor_stream(plaintext, derived_key(sc.secret)), derived_key(lagrange_secret(shares_at(sc, idx)) as i128)) == plaintext,
{
    lemma_shares_recover(sc, idx);
    lemma_xor_stream_twice(plaintext, derived_key(sc.secret));
}

} // verus!
