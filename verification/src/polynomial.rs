//! Polynomials over the integers modulo `PRIME`: evaluation, division by a
//! linear factor, and the fact that a polynomial with more roots than its
//! degree vanishes everywhere.
use vstd::prelude::*;
use vstd::arithmetic::power::pow;

use crate::crypto::{PRIME, inv_mod};
use crate::field::{apart, lemma_cancel, lemma_inverse_of, lemma_multiples, lemma_product_nonzero};

verus! {

/// A polynomial's value at `x` by Horner's rule, coefficients lowest first.
pub open spec fn ev(c: Seq<int>, x: int) -> int
    decreases c.len(),
{
    if c.len() == 0 { 0 } else { c[0] + x * ev(c.drop_first(), x) }
}

/// The quotient of `c` divided by `x - r`.
pub open spec fn div_lin(c: Seq<int>, r: int) -> Seq<int>
    decreases c.len(),
{
    if c.len() <= 1 { Seq::empty() } else { seq![ev(c.drop_first(), r)] + div_lin(c.drop_first(), r) }
}

/// `x ((x - r) e + t) + c0 = (x - r)(t + x e) + (c0 + r t)`.
proof fn lemma_div_step(c0: int, x: int, r: int, e: int, t: int)
    ensures
        c0 + x * ((x - r) * e + t) == (x - r) * (t + x * e) + (c0 + r * t),
{
    vstd::arithmetic::mul::lemma_mul_is_distributive_add(x, (x - r) * e, t);
    vstd::arithmetic::mul::lemma_mul_is_associative(x, x - r, e);
    vstd::arithmetic::mul::lemma_mul_is_commutative(x, x - r);
    vstd::arithmetic::mul::lemma_mul_is_associative(x - r, x, e);
    vstd::arithmetic::mul::lemma_mul_is_distributive_add(x - r, t, x * e);
    vstd::arithmetic::mul::lemma_mul_is_distributive_sub_other_way(t, x, r);
}

/// Dividing by `x - r` leaves the value at `r` as remainder.
pub proof fn lemma_div_lin(c: Seq<int>, r: int, x: int)
    requires
        c.len() >= 1,
    ensures
        div_lin(c, r).len() == c.len() - 1,
        ev(c, x) == (x - r) * ev(div_lin(c, r), x) + ev(c, r),
    decreases c.len(),
{
    let t = c.drop_first();
    if c.len() == 1 {
        assert(ev(t, x) == 0 && ev(t, r) == 0);
        assert(ev(div_lin(c, r), x) == 0);
        vstd::arithmetic::mul::lemma_mul_basics(x);
        vstd::arithmetic::mul::lemma_mul_basics(r);
        vstd::arithmetic::mul::lemma_mul_basics(x - r);
    } else {
        lemma_div_lin(t, r, x);
        let q = div_lin(c, r);
        let qt = div_lin(t, r);
        assert(q.drop_first() =~= qt);
        assert(ev(q, x) == ev(t, r) + x * ev(qt, x));
        lemma_div_step(c[0], x, r, ev(qt, x), ev(t, r));
    }
}

/// Points no two of which are equal modulo `PRIME`.
pub open spec fn pairwise_apart(rs: Seq<int>) -> bool {
    forall|i: int, j: int| 0 <= i < rs.len() && 0 <= j < rs.len() && i != j ==> apart(rs[i], rs[j])
}

/// A polynomial with no more coefficients than it has roots, at points apart
/// modulo `PRIME`, is 0 modulo `PRIME` everywhere.
pub proof fn lemma_roots_vanish(c: Seq<int>, rs: Seq<int>, x: int)
    requires
        c.len() <= rs.len(),
        pairwise_apart(rs),
        forall|i: int| 0 <= i < rs.len() ==> #[trigger] ev(c, rs[i]) % (PRIME as int) == 0,
    ensures
        ev(c, x) % (PRIME as int) == 0,
    decreases rs.len(),
{
    let p = PRIME as int;
    if c.len() == 0 {
        assert(ev(c, x) == 0);
    } else {
        let r = rs[0];
        let q = div_lin(c, r);
        let rest = rs.drop_first();
        assert(ev(c, rs[0]) % p == 0);
        assert forall|i: int| 0 <= i < rest.len() implies #[trigger] ev(q, rest[i]) % p == 0 by {
            let ri = rest[i];
            assert(ri == rs[i + 1]);
            assert(ev(c, rs[i + 1]) % p == 0);
            assert(apart(rs[i + 1], rs[0]));
            lemma_div_lin(c, r, ri);
            lemma_multiples(ev(c, ri), ev(c, r), 0);
            lemma_cancel(ri - r, ev(q, ri));
        }
        assert(pairwise_apart(rest)) by {
            assert forall|i: int, j: int| 0 <= i < rest.len() && 0 <= j < rest.len() && i != j implies apart(rest[i], rest[j]) by {
                assert(rest[i] == rs[i + 1] && rest[j] == rs[j + 1]);
            }
        }
        lemma_div_lin(c, r, x);
        lemma_roots_vanish(q, rest, x);
        lemma_multiples(ev(q, x), ev(c, r), x - r);
    }
}

/// `c` with `k` added to its constant coefficient.
pub open spec fn add_const(c: Seq<int>, k: int) -> Seq<int> {
    if c.len() == 0 { seq![k] } else { c.update(0, c[0] + k) }
}

proof fn lemma_add_const(c: Seq<int>, k: int, x: int)
    ensures
        ev(add_const(c, k), x) == ev(c, x) + k,
        add_const(c, k).len() == if c.len() == 0 { 1 } else { c.len() },
{
    let d = add_const(c, k);
    if c.len() == 0 {
        assert(d.drop_first().len() == 0);
        assert(ev(d.drop_first(), x) == 0);
        vstd::arithmetic::mul::lemma_mul_basics(x);
        assert(ev(d, x) == k + x * ev(d.drop_first(), x));
    } else {
        assert(d.drop_first() =~= c.drop_first());
    }
}

/// The coefficients of `(x - a) c(x)`.
pub open spec fn mul_lin(c: Seq<int>, a: int) -> Seq<int>
    decreases c.len(),
{
    if c.len() == 0 { Seq::empty() } else { seq![-(a * c[0])] + add_const(mul_lin(c.drop_first(), a), c[0]) }
}

/// Multiplying by `x - a` multiplies the value by `x - a` and adds a coefficient.
pub proof fn lemma_mul_lin(c: Seq<int>, a: int, x: int)
    ensures
        ev(mul_lin(c, a), x) == (x - a) * ev(c, x),
        mul_lin(c, a).len() == if c.len() == 0 { 0 } else { c.len() + 1 },
    decreases c.len(),
{
    if c.len() == 0 {
        vstd::arithmetic::mul::lemma_mul_basics(x - a);
    } else {
        let t = c.drop_first();
        let m = mul_lin(t, a);
        lemma_mul_lin(t, a, x);
        lemma_add_const(m, c[0], x);
        let r = mul_lin(c, a);
        assert(r.drop_first() =~= add_const(m, c[0]));
        let e = ev(t, x);
        // -(a c0) + x ((x - a) e + c0) = (x - a)(c0 + x e)
        vstd::arithmetic::mul::lemma_mul_is_distributive_add(x, (x - a) * e, c[0]);
        vstd::arithmetic::mul::lemma_mul_is_associative(x, x - a, e);
        vstd::arithmetic::mul::lemma_mul_is_commutative(x, x - a);
        vstd::arithmetic::mul::lemma_mul_is_associative(x - a, x, e);
        vstd::arithmetic::mul::lemma_mul_is_distributive_add(x - a, c[0], x * e);
        vstd::arithmetic::mul::lemma_mul_is_distributive_sub_other_way(c[0], x, a);
        vstd::arithmetic::mul::lemma_mul_is_commutative(x, c[0]);
    }
}

/// The coefficients of `k c(x)`.
pub open spec fn scale(c: Seq<int>, k: int) -> Seq<int> {
    c.map_values(|v: int| k * v)
}

pub proof fn lemma_scale(c: Seq<int>, k: int, x: int)
    ensures
        ev(scale(c, k), x) == k * ev(c, x),
        scale(c, k).len() == c.len(),
    decreases c.len(),
{
    if c.len() == 0 {
        vstd::arithmetic::mul::lemma_mul_basics(k);
    } else {
        let t = c.drop_first();
        lemma_scale(t, k, x);
        assert(scale(c, k).drop_first() =~= scale(t, k));
        let e = ev(t, x);
        lemma_swap2(x, k, e);
        vstd::arithmetic::mul::lemma_mul_is_distributive_add(k, c[0], x * e);
    }
}

/// `a (b c) = b (a c)`.
proof fn lemma_swap2(a: int, b: int, c: int)
    ensures
        a * (b * c) == b * (a * c),
{
    vstd::arithmetic::mul::lemma_mul_is_associative(a, b, c);
    vstd::arithmetic::mul::lemma_mul_is_commutative(a, b);
    vstd::arithmetic::mul::lemma_mul_is_associative(b, a, c);
}

/// Coefficient `i` of `c`, 0 past its end.
pub open spec fn coef(c: Seq<int>, i: int) -> int {
    if 0 <= i < c.len() { c[i] } else { 0 }
}

/// The coefficients of `c(x) + d(x)`.
pub open spec fn poly_add(c: Seq<int>, d: Seq<int>) -> Seq<int> {
    Seq::new(if c.len() >= d.len() { c.len() } else { d.len() }, |i: int| coef(c, i) + coef(d, i))
}

/// `c` without its constant coefficient, or nothing.
pub open spec fn tail(c: Seq<int>) -> Seq<int> {
    if c.len() == 0 { c } else { c.drop_first() }
}

proof fn lemma_ev_split(c: Seq<int>, x: int)
    ensures
        ev(c, x) == coef(c, 0) + x * ev(tail(c), x),
{
    if c.len() == 0 {
        vstd::arithmetic::mul::lemma_mul_basics(x);
    }
}

pub proof fn lemma_poly_add(c: Seq<int>, d: Seq<int>, x: int)
    ensures
        ev(poly_add(c, d), x) == ev(c, x) + ev(d, x),
        poly_add(c, d).len() == if c.len() >= d.len() { c.len() } else { d.len() },
    decreases c.len() + d.len(),
{
    let s = poly_add(c, d);
    if s.len() == 0 {
    } else {
        assert(s.drop_first() =~= poly_add(tail(c), tail(d)));
        lemma_poly_add(tail(c), tail(d), x);
        lemma_ev_split(c, x);
        lemma_ev_split(d, x);
        vstd::arithmetic::mul::lemma_mul_is_distributive_add(x, ev(tail(c), x), ev(tail(d), x));
    }
}

/// The product of `x - xs[j]` over `j < n` other than `i`.
pub open spec fn prod_at(xs: Seq<int>, i: int, n: nat, x: int) -> int
    decreases n,
{
    if n == 0 {
        1
    } else if n - 1 == i {
        prod_at(xs, i, (n - 1) as nat, x)
    } else {
        prod_at(xs, i, (n - 1) as nat, x) * (x - xs[n - 1])
    }
}

/// The coefficients of that product, as a polynomial in `x`.
pub open spec fn basis(xs: Seq<int>, i: int, n: nat) -> Seq<int>
    decreases n,
{
    if n == 0 {
        seq![1]
    } else if n - 1 == i {
        basis(xs, i, (n - 1) as nat)
    } else {
        mul_lin(basis(xs, i, (n - 1) as nat), xs[n - 1])
    }
}

pub proof fn lemma_basis(xs: Seq<int>, i: int, n: nat, x: int)
    ensures
        ev(basis(xs, i, n), x) == prod_at(xs, i, n, x),
        basis(xs, i, n).len() == if 0 <= i < n { n } else { n + 1 },
    decreases n,
{
    if n == 0 {
        let b = basis(xs, i, n);
        assert(b.drop_first().len() == 0);
        assert(ev(b.drop_first(), x) == 0);
        vstd::arithmetic::mul::lemma_mul_basics(x);
    } else {
        lemma_basis(xs, i, (n - 1) as nat, x);
        if n - 1 != i {
            lemma_mul_lin(basis(xs, i, (n - 1) as nat), xs[n - 1], x);
            vstd::arithmetic::mul::lemma_mul_is_commutative(x - xs[n - 1], prod_at(xs, i, (n - 1) as nat, x));
        }
    }
}

/// The product vanishes at every other point.
pub proof fn lemma_prod_zero(xs: Seq<int>, i: int, n: nat, k: int)
    requires
        0 <= k < n,
        k != i,
    ensures
        prod_at(xs, i, n, xs[k]) == 0,
    decreases n,
{
    if n - 1 == k {
        vstd::arithmetic::mul::lemma_mul_basics(prod_at(xs, i, (n - 1) as nat, xs[k]));
    } else {
        lemma_prod_zero(xs, i, (n - 1) as nat, k);
        if n - 1 != i {
            vstd::arithmetic::mul::lemma_mul_basics(xs[k] - xs[n - 1]);
        }
    }
}

/// `sum w[i] prod_at(xs, i, |xs|, x)` over `i < m`.
pub open spec fn lsum(xs: Seq<int>, w: Seq<int>, m: nat, x: int) -> int
    decreases m,
{
    if m == 0 { 0 } else { lsum(xs, w, (m - 1) as nat, x) + w[m - 1] * prod_at(xs, m - 1, xs.len(), x) }
}

/// The coefficients of that sum: the interpolating polynomial with weights `w`.
pub open spec fn lagr(xs: Seq<int>, w: Seq<int>, m: nat) -> Seq<int>
    decreases m,
{
    if m == 0 { Seq::empty() } else { poly_add(lagr(xs, w, (m - 1) as nat), scale(basis(xs, m - 1, xs.len()), w[m - 1])) }
}

pub proof fn lemma_lagr(xs: Seq<int>, w: Seq<int>, m: nat, x: int)
    requires
        m <= xs.len(),
    ensures
        ev(lagr(xs, w, m), x) == lsum(xs, w, m, x),
        lagr(xs, w, m).len() <= xs.len(),
    decreases m,
{
    if m > 0 {
        lemma_lagr(xs, w, (m - 1) as nat, x);
        let b = basis(xs, m - 1, xs.len());
        lemma_basis(xs, m - 1, xs.len(), x);
        lemma_scale(b, w[m - 1], x);
        lemma_poly_add(lagr(xs, w, (m - 1) as nat), scale(b, w[m - 1]), x);
    }
}

/// At point `k` only term `k` of the sum survives.
pub proof fn lemma_lsum_at(xs: Seq<int>, w: Seq<int>, m: nat, k: int)
    requires
        m <= xs.len(),
        0 <= k < xs.len(),
    ensures
        lsum(xs, w, m, xs[k]) == if k < m { w[k] * prod_at(xs, k, xs.len(), xs[k]) } else { 0 },
    decreases m,
{
    if m > 0 {
        lemma_lsum_at(xs, w, (m - 1) as nat, k);
        if m - 1 != k {
            lemma_prod_zero(xs, m - 1, xs.len(), k);
            vstd::arithmetic::mul::lemma_mul_basics(w[m - 1]);
        }
    }
}

/// The product at a point's own place is not 0 modulo `PRIME`.
pub proof fn lemma_prod_nonzero(xs: Seq<int>, i: int, n: nat)
    requires
        n <= xs.len(),
        0 <= i < xs.len(),
        pairwise_apart(xs),
    ensures
        prod_at(xs, i, n, xs[i]) % (PRIME as int) != 0,
    decreases n,
{
    if n == 0 {
        vstd::arithmetic::div_mod::lemma_small_mod(1, PRIME as nat);
    } else {
        lemma_prod_nonzero(xs, i, (n - 1) as nat);
        if n - 1 != i {
            assert(apart(xs[i], xs[n - 1]));
            lemma_product_nonzero(prod_at(xs, i, (n - 1) as nat, xs[i]), xs[i] - xs[n - 1]);
        }
    }
}

/// The interpolation weights of values `ys` at points `xs`: `ys[i]` times the
/// inverse, modulo `PRIME`, of the product at point `i`.
pub open spec fn weights(xs: Seq<int>, ys: Seq<int>) -> Seq<int> {
    Seq::new(xs.len(), |i: int| ys[i] * inv_mod((prod_at(xs, i, xs.len(), xs[i]) % (PRIME as int)) as nat, PRIME as nat))
}

/// Lagrange interpolation: through points apart modulo `PRIME`, the values of
/// a polynomial with no more coefficients than points determine its value at
/// every point `z`, modulo `PRIME`.
pub proof fn lemma_interpolation(xs: Seq<int>, ys: Seq<int>, c: Seq<int>, z: int)
    requires
        c.len() <= xs.len(),
        ys.len() == xs.len(),
        pairwise_apart(xs),
        forall|k: int| 0 <= k < xs.len() ==> #[trigger] ys[k] % (PRIME as int) == ev(c, xs[k]) % (PRIME as int),
    ensures
        (lsum(xs, weights(xs, ys), xs.len(), z) - ev(c, z)) % (PRIME as int) == 0,
{
    let p = PRIME as int;
    let n = xs.len();
    let w = weights(xs, ys);
    let l = lagr(xs, w, n);
    let g = poly_add(c, scale(l, -1));
    lemma_lagr(xs, w, n, z);
    lemma_scale(l, -1, z);
    lemma_poly_add(c, scale(l, -1), z);
    assert forall|k: int| 0 <= k < xs.len() implies #[trigger] ev(g, xs[k]) % p == 0 by {
        let x = xs[k];
        lemma_lagr(xs, w, n, x);
        lemma_scale(l, -1, x);
        lemma_poly_add(c, scale(l, -1), x);
        lemma_lsum_at(xs, w, n, k);
        let d = prod_at(xs, k, n, x);
        lemma_prod_nonzero(xs, k, n);
        let t = lemma_inverse_of(d);
        let inv = inv_mod((d % p) as nat, p as nat);
        assert(w[k] == ys[k] * inv);
        // w_k d = y_k (d inv) = y_k (p t + 1)
        vstd::arithmetic::mul::lemma_mul_is_associative(ys[k], inv, d);
        vstd::arithmetic::mul::lemma_mul_is_commutative(inv, d);
        vstd::arithmetic::mul::lemma_mul_is_distributive_add(ys[k], p * t, 1);
        lemma_swap2(ys[k], p, t);
        assert(w[k] * d == ys[k] + p * (ys[k] * t));
        // ev(c, x) - y_k is a multiple of p
        vstd::arithmetic::div_mod::lemma_fundamental_div_mod(ys[k], p);
        vstd::arithmetic::div_mod::lemma_fundamental_div_mod(ev(c, x), p);
        let diff = ev(c, x) - ys[k];
        assert(diff == p * (ev(c, x) / p) - p * (ys[k] / p));
        vstd::arithmetic::mul::lemma_mul_is_distributive_sub(p, ev(c, x) / p, ys[k] / p);
        vstd::arithmetic::mul::lemma_mul_is_distributive_sub(p, ev(c, x) / p - ys[k] / p, ys[k] * t);
        assert(ev(g, x) == p * (ev(c, x) / p - ys[k] / p - ys[k] * t));
        vstd::arithmetic::div_mod::lemma_mod_multiples_vanish(ev(c, x) / p - ys[k] / p - ys[k] * t, 0, p);
    }
    lemma_roots_vanish(g, xs, z);
    lemma_multiples(ev(g, z), 0, -1);
}

/// Appending a coefficient adds it times the matching power.
pub proof fn lemma_ev_push(c: Seq<int>, a: int, x: int)
    ensures
        ev(c.push(a), x) == ev(c, x) + a * pow(x, c.len()),
    decreases c.len(),
{
    reveal(pow);
    if c.len() == 0 {
        let d = c.push(a);
        assert(d.drop_first().len() == 0);
        assert(ev(d.drop_first(), x) == 0);
        vstd::arithmetic::mul::lemma_mul_basics(x);
        vstd::arithmetic::mul::lemma_mul_basics(a);
        assert(ev(d, x) == a + x * ev(d.drop_first(), x));
    } else {
        let t = c.drop_first();
        lemma_ev_push(t, a, x);
        assert(c.push(a).drop_first() =~= t.push(a));
        // x (ev(t) + a x^(n-1)) = x ev(t) + a x^n
        vstd::arithmetic::mul::lemma_mul_is_distributive_add(x, ev(t, x), a * pow(x, t.len()));
        lemma_swap2(x, a, pow(x, t.len()));
        assert(pow(x, c.len()) == x * pow(x, t.len()));
    }
}

} // verus!
