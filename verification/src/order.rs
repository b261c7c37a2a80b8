//! Lexicographic key order and the sorted enumeration of a map's entries, the
//! order in which the state root takes accounts and contract slots.
use vstd::prelude::*;

use crate::assoc::{AssocMap, KeyEq, entries_map, keys_distinct, lemma_entries_map_at};
use crate::types::Address;

verus! {

/// `a` comes before `b` comparing from position `i` on: at the first position
/// where they differ, `a` holds the smaller value.
pub open spec fn lex_from(a: Seq<int>, b: Seq<int>, i: nat) -> bool
    decreases a.len() - i,
{
    if i >= a.len() || i >= b.len() {
        false
    } else if a[i as int] < b[i as int] {
        true
    } else if a[i as int] > b[i as int] {
        false
    } else {
        lex_from(a, b, i + 1)
    }
}

/// Lexicographic order.
pub open spec fn lex_lt(a: Seq<int>, b: Seq<int>) -> bool {
    lex_from(a, b, 0)
}

/// Nothing comes before itself.
pub proof fn lemma_lex_irreflexive(a: Seq<int>, i: nat)
    ensures
        !lex_from(a, a, i),
    decreases a.len() - i,
{
    if i < a.len() {
        lemma_lex_irreflexive(a, i + 1);
    }
}

/// The order is transitive.
pub proof fn lemma_lex_transitive(a: Seq<int>, b: Seq<int>, c: Seq<int>, i: nat)
    requires
        a.len() == b.len(),
        b.len() == c.len(),
        lex_from(a, b, i),
        lex_from(b, c, i),
    ensures
        lex_from(a, c, i),
    decreases a.len() - i,
{
    if a[i as int] == b[i as int] && b[i as int] == c[i as int] {
        lemma_lex_transitive(a, b, c, i + 1);
    }
}

/// Of two different sequences of one length, one comes before the other.
pub proof fn lemma_lex_total(a: Seq<int>, b: Seq<int>, i: nat)
    requires
        a.len() == b.len(),
        i <= a.len(),
        exists|j: int| i <= j < a.len() && a[j] != b[j],
    ensures
        lex_from(a, b, i) || lex_from(b, a, i),
    decreases a.len() - i,
{
    if a[i as int] == b[i as int] {
        let j = choose|j: int| i <= j < a.len() && a[j] != b[j];
        assert(j > i);
        lemma_lex_total(a, b, i + 1);
    }
}

/// The order is asymmetric.
pub proof fn lemma_lex_asymmetric(a: Seq<int>, b: Seq<int>, i: nat)
    requires
        lex_from(a, b, i),
    ensures
        !lex_from(b, a, i),
    decreases a.len() - i,
{
    if i < a.len() && i < b.len() && a[i as int] == b[i as int] {
        lemma_lex_asymmetric(a, b, i + 1);
    }
}

/// A key the state root orders by: a sequence of numbers compared
/// lexicographically, all keys of a type of one length, different keys with
/// different sequences.
pub trait RootKey: Sized {
    spec fn root_key(&self) -> Seq<int>;

    proof fn lemma_root_key(a: Self, b: Self)
        ensures
            a.root_key().len() == b.root_key().len(),
            a.root_key() == b.root_key() ==> a == b;

    fn before(&self, other: &Self) -> (b: bool)
        ensures
            b == lex_lt(self.root_key(), other.root_key());
}

/// Compares two byte arrays of length `n` lexicographically from position `i`.
fn bytes_before(a: &[u8], b: &[u8], ka: Ghost<Seq<int>>, kb: Ghost<Seq<int>>) -> (r: bool)
    requires
        a@.len() == b@.len(),
        ka@ == a@.map_values(|x: u8| x as int),
        kb@ == b@.map_values(|x: u8| x as int),
    ensures
        r == lex_from(ka@, kb@, 0),
{
    let n = a.len();
    let mut i: usize = 0;
    while i < n
        invariant
            n == a@.len(),
            n == b@.len(),
            i <= n,
            ka@ == a@.map_values(|x: u8| x as int),
            kb@ == b@.map_values(|x: u8| x as int),
            lex_from(ka@, kb@, 0) == lex_from(ka@, kb@, i as nat),
        decreases n - i,
    {
        if a[i] < b[i] {
            return true;
        }
        if a[i] > b[i] {
            return false;
        }
        i = i + 1;
    }
    false
}

/// The numbers of an address's bytes.
pub open spec fn address_key(a: Address) -> Seq<int> {
    a.0@.map_values(|x: u8| x as int)
}

impl RootKey for Address {
    open spec fn root_key(&self) -> Seq<int> {
        address_key(*self)
    }

    proof fn lemma_root_key(a: Self, b: Self) {
        if address_key(a) == address_key(b) {
            assert forall|i: int| 0 <= i < 20 implies a.0@[i] == b.0@[i] by {
                assert(address_key(a)[i] == address_key(b)[i]);
            }
            assert(a.0@ =~= b.0@);
            assert(a.0 =~= b.0);
        }
    }

    fn before(&self, other: &Self) -> (b: bool) {
        bytes_before(&self.0, &other.0, Ghost(address_key(*self)), Ghost(address_key(*other)))
    }
}

impl RootKey for (Address, u64) {
    open spec fn root_key(&self) -> Seq<int> {
        address_key(self.0).push(self.1 as int)
    }

    proof fn lemma_root_key(a: Self, b: Self) {
        if a.root_key() == b.root_key() {
            assert(address_key(a.0) =~= a.root_key().drop_last());
            assert(address_key(b.0) =~= b.root_key().drop_last());
            Address::lemma_root_key(a.0, b.0);
            assert(a.root_key().last() == b.root_key().last());
        }
    }

    fn before(&self, other: &Self) -> (b: bool) {
        let ka = Ghost(self.root_key());
        let kb = Ghost(other.root_key());
        let first = bytes_before(&self.0.0, &other.0.0, Ghost(address_key(self.0)), Ghost(address_key(other.0)));
        proof {
            assert(ka@.subrange(0, 20) =~= address_key(self.0));
            assert(kb@.subrange(0, 20) =~= address_key(other.0));
        }
        if first {
            proof { lemma_lex_prefix(ka@, kb@, 20, 0); }
            return true;
        }
        let same = self.0.same(&other.0);
        proof {
            if same {
                lemma_lex_equal_prefix(ka@, kb@, 0, 20);
                assert(lex_from(ka@, kb@, 21) == false);
            } else {
                Address::lemma_root_key(self.0, other.0);
                let a = address_key(self.0);
                let b = address_key(other.0);
                assert(a != b);
                assert(exists|x: int| 0 <= x < 20 && ka@[x] != kb@[x]) by {
                    if forall|x: int| 0 <= x < 20 ==> ka@[x] == kb@[x] {
                        assert forall|x: int| 0 <= x < a.len() implies a[x] == b[x] by {
                            assert(a[x] == ka@[x] && b[x] == kb@[x]);
                        }
                        assert(a =~= b);
                    }
                }
                lemma_lex_differ_in_prefix(ka@, kb@, 20, 0);
            }
        }
        same && self.1 < other.1
    }
}

/// Comparing within the first `n` positions agrees with comparing the prefixes.
proof fn lemma_lex_prefix(a: Seq<int>, b: Seq<int>, n: nat, i: nat)
    requires
        n <= a.len(),
        n <= b.len(),
        i <= n,
        lex_from(a.subrange(0, n as int), b.subrange(0, n as int), i),
    ensures
        lex_from(a, b, i),
    decreases n - i,
{
    let pa = a.subrange(0, n as int);
    let pb = b.subrange(0, n as int);
    if i < n && pa[i as int] == pb[i as int] {
        lemma_lex_prefix(a, b, n, i + 1);
    }
}

/// Sequences equal on `i..n` compare from `i` as they compare from `n`.
proof fn lemma_lex_equal_prefix(a: Seq<int>, b: Seq<int>, i: nat, n: nat)
    requires
        i <= n,
        n <= a.len(),
        n <= b.len(),
        forall|j: int| i <= j < n ==> a[j] == b[j],
    ensures
        lex_from(a, b, i) == lex_from(a, b, n),
    decreases n - i,
{
    if i < n {
        lemma_lex_equal_prefix(a, b, i + 1, n);
    }
}

/// Where the first `n` positions differ and `a` does not come first among
/// them, `a` does not come first at all.
proof fn lemma_lex_differ_in_prefix(a: Seq<int>, b: Seq<int>, n: nat, i: nat)
    requires
        n <= a.len(),
        n <= b.len(),
        i <= n,
        !lex_from(a.subrange(0, n as int), b.subrange(0, n as int), i),
        exists|j: int| i <= j < n && a[j] != b[j],
    ensures
        !lex_from(a, b, i),
    decreases n - i,
{
    let pa = a.subrange(0, n as int);
    let pb = b.subrange(0, n as int);
    assert(pa[i as int] == a[i as int] && pb[i as int] == b[i as int]);
    if a[i as int] == b[i as int] {
        let j = choose|j: int| i <= j < n && a[j] != b[j];
        assert(j > i);
        lemma_lex_differ_in_prefix(a, b, n, i + 1);
    }
}

/// The entries of `s` are in strictly increasing key order.
pub open spec fn key_sorted<K: RootKey, V>(s: Seq<(K, V)>) -> bool {
    forall|i: int, j: int| 0 <= i < j < s.len() ==> lex_lt(#[trigger] s[i].0.root_key(), #[trigger] s[j].0.root_key())
}

/// `s` lists exactly the entries of `m`.
pub open spec fn enumerates<K, V>(s: Seq<(K, V)>, m: Map<K, V>) -> bool {
    &&& forall|i: int| 0 <= i < s.len() ==> m.contains_key(#[trigger] s[i].0) && m[s[i].0] == s[i].1
    &&& forall|k: K| #[trigger] m.contains_key(k) ==> exists|i: int| 0 <= i < s.len() && s[i].0 == k
}

/// `s` lists the entries of `m` in key order.
pub open spec fn sorted_enum<K: RootKey, V>(s: Seq<(K, V)>, m: Map<K, V>) -> bool {
    key_sorted(s) && enumerates(s, m)
}

/// The entries of `m` in key order.
pub open spec fn sorted_entries<K: RootKey, V>(m: Map<K, V>) -> Seq<(K, V)> {
    choose|s: Seq<(K, V)>| sorted_enum(s, m)
}

/// Two key-ordered listings of one map are the same listing.
pub proof fn lemma_sorted_enum_unique<K: RootKey, V>(s: Seq<(K, V)>, t: Seq<(K, V)>, m: Map<K, V>)
    requires
        sorted_enum(s, m),
        sorted_enum(t, m),
    ensures
        s == t,
    decreases s.len(),
{
    if s.len() == 0 {
        if t.len() > 0 {
            assert(m.contains_key(t[0].0));
        }
        assert(s =~= t);
    } else {
        assert(t.len() > 0) by {
            assert(m.contains_key(s[0].0));
        }
        let k0 = s[0].0;
        let l0 = t[0].0;
        if k0 != l0 {
            let j = choose|j: int| 0 <= j < s.len() && s[j].0 == l0;
            let q = choose|q: int| 0 <= q < t.len() && t[q].0 == k0;
            assert(m.contains_key(l0));
            assert(m.contains_key(k0));
            assert(j != 0);
            assert(q != 0);
            assert(lex_lt(s[0].0.root_key(), s[j].0.root_key()));
            assert(lex_lt(t[0].0.root_key(), t[q].0.root_key()));
            K::lemma_root_key(k0, l0);
            lemma_lex_asymmetric(k0.root_key(), l0.root_key(), 0);
        }
        assert(s[0] == t[0]);
        let m2 = m.remove(k0);
        let s2 = s.drop_first();
        let t2 = t.drop_first();
        assert(sorted_enum(s2, m2)) by {
            assert forall|i: int, j: int| 0 <= i < j < s2.len() implies lex_lt(#[trigger] s2[i].0.root_key(), #[trigger] s2[j].0.root_key()) by {
                assert(s2[i] == s[i + 1] && s2[j] == s[j + 1]);
            }
            assert forall|i: int| 0 <= i < s2.len() implies m2.contains_key(#[trigger] s2[i].0) && m2[s2[i].0] == s2[i].1 by {
                assert(s2[i] == s[i + 1]);
                assert(lex_lt(s[0].0.root_key(), s[i + 1].0.root_key()));
                if s[i + 1].0 == k0 {
                    lemma_lex_irreflexive(k0.root_key(), 0);
                }
            }
            assert forall|k: K| #[trigger] m2.contains_key(k) implies exists|i: int| 0 <= i < s2.len() && s2[i].0 == k by {
                let j = choose|j: int| 0 <= j < s.len() && s[j].0 == k;
                assert(j != 0);
                assert(s2[j - 1].0 == k);
            }
        }
        assert(sorted_enum(t2, m2)) by {
            assert forall|i: int, j: int| 0 <= i < j < t2.len() implies lex_lt(#[trigger] t2[i].0.root_key(), #[trigger] t2[j].0.root_key()) by {
                assert(t2[i] == t[i + 1] && t2[j] == t[j + 1]);
            }
            assert forall|i: int| 0 <= i < t2.len() implies m2.contains_key(#[trigger] t2[i].0) && m2[t2[i].0] == t2[i].1 by {
                assert(t2[i] == t[i + 1]);
                assert(lex_lt(t[0].0.root_key(), t[i + 1].0.root_key()));
                if t[i + 1].0 == k0 {
                    lemma_lex_irreflexive(k0.root_key(), 0);
                }
            }
            assert forall|k: K| #[trigger] m2.contains_key(k) implies exists|i: int| 0 <= i < t2.len() && t2[i].0 == k by {
                let j = choose|j: int| 0 <= j < t.len() && t[j].0 == k;
                assert(j != 0);
                assert(t2[j - 1].0 == k);
            }
        }
        lemma_sorted_enum_unique(s2, t2, m2);
        assert(s =~= t) by {
            assert forall|i: int| 0 <= i < s.len() implies s[i] == t[i] by {
                if i > 0 {
                    assert(s[i] == s2[i - 1] && t[i] == t2[i - 1]);
                }
            }
        }
    }
}

/// The entries of `m` in key order.
pub fn sort_entries<K: RootKey + KeyEq + Copy, V: Copy>(m: &AssocMap<K, V>) -> (out: Vec<(K, V)>)
    requires
        m.wf(),
    ensures
        sorted_enum(out@, m.view()),
        out@ == sorted_entries(m.view()),
{
    proof { m.lemma_entries(); }
    let ghost es = m.entries();
    let n = m.len();
    let mut out: Vec<(K, V)> = Vec::new();
    for i in 0..n
        invariant
            n == es.len(),
            es == m.entries(),
            keys_distinct(es),
            m.view() == entries_map(es),
            key_sorted(out@),
            enumerates(out@, entries_map(es.subrange(0, i as int))),
    {
        let e = *m.entry(i);
        let ghost pre = es.subrange(0, i as int);
        let ghost o = out@;
        // the first position whose key comes after the new key
        let mut pos: usize = 0;
        let len = out.len();
        while pos < len && !e.0.before(&out[pos].0)
            invariant
                len == o.len(),
                o == out@,
                pos <= len,
                forall|j: int| 0 <= j < pos ==> !lex_lt(e.0.root_key(), #[trigger] o[j].0.root_key()),
            decreases len - pos,
        {
            pos = pos + 1;
        }
        proof {
            // the new key is not yet listed
            assert forall|j: int| 0 <= j < o.len() implies o[j].0 != e.0 by {
                assert(entries_map(pre).contains_key(o[j].0));
                let x = choose|x: int| 0 <= x < pre.len() && pre[x].0 == o[j].0;
                assert(pre[x] == es[x]);
                if o[j].0 == e.0 {
                    assert(es[x].0 == es[i as int].0);
                }
            }
            assert forall|j: int| 0 <= j < pos implies lex_lt(#[trigger] o[j].0.root_key(), e.0.root_key()) by {
                K::lemma_root_key(o[j].0, e.0);
                let a = o[j].0.root_key();
                let b = e.0.root_key();
                assert(a != b);
                assert(exists|x: int| 0 <= x < a.len() && a[x] != b[x]) by {
                    if forall|x: int| 0 <= x < a.len() ==> a[x] == b[x] {
                        assert(a =~= b);
                    }
                }
                lemma_lex_total(a, b, 0);
            }
        }
        out.insert(pos, e);
        proof {
            let nw = out@;
            assert(nw == o.insert(pos as int, e));
            assert(key_sorted(nw)) by {
                assert forall|a: int, b: int| 0 <= a < b < nw.len() implies lex_lt(#[trigger] nw[a].0.root_key(), #[trigger] nw[b].0.root_key()) by {
                    if b < pos {
                        assert(nw[a] == o[a] && nw[b] == o[b]);
                    } else if b == pos {
                        assert(nw[a] == o[a]);
                    } else if a == pos {
                        assert(nw[b] == o[b - 1]);
                        if b - 1 > pos {
                            assert(lex_lt(o[pos as int].0.root_key(), o[b - 1].0.root_key()));
                            K::lemma_root_key(e.0, o[pos as int].0);
                            K::lemma_root_key(o[pos as int].0, o[b - 1].0);
                            lemma_lex_transitive(e.0.root_key(), o[pos as int].0.root_key(), o[b - 1].0.root_key(), 0);
                        }
                    } else if a < pos {
                        assert(nw[a] == o[a] && nw[b] == o[b - 1]);
                        assert(lex_lt(o[a].0.root_key(), e.0.root_key()));
                        if b - 1 >= pos {
                            assert(lex_lt(e.0.root_key(), o[pos as int].0.root_key()));
                            if b - 1 > pos {
                                assert(lex_lt(o[pos as int].0.root_key(), o[b - 1].0.root_key()));
                            }
                        }
                        assert(lex_lt(o[a].0.root_key(), o[b - 1].0.root_key()));
                    } else {
                        assert(nw[a] == o[a - 1] && nw[b] == o[b - 1]);
                    }
                }
            }
            let next = es.subrange(0, i + 1);
            assert(next =~= pre.push(e));
            crate::assoc::lemma_entries_map_push(pre, e.0, e.1);
            assert(enumerates(nw, entries_map(next))) by {
                assert forall|j: int| 0 <= j < nw.len() implies entries_map(next).contains_key(#[trigger] nw[j].0) && entries_map(next)[nw[j].0] == nw[j].1 by {
                    if j < pos {
                        assert(nw[j] == o[j]);
                    } else if j > pos {
                        assert(nw[j] == o[j - 1]);
                    }
                }
                assert forall|k: K| #[trigger] entries_map(next).contains_key(k) implies exists|x: int| 0 <= x < nw.len() && nw[x].0 == k by {
                    if k == e.0 {
                        assert(nw[pos as int].0 == k);
                    } else {
                        assert(entries_map(pre).contains_key(k));
                        let x = choose|x: int| 0 <= x < o.len() && o[x].0 == k;
                        if x < pos {
                            assert(nw[x] == o[x]);
                        } else {
                            assert(nw[x + 1] == o[x]);
                        }
                    }
                }
            }
        }
    }
    proof {
        assert(es.subrange(0, n as int) =~= es);
        assert(sorted_enum(out@, m.view()));
        lemma_sorted_enum_unique(out@, sorted_entries(m.view()), m.view());
    }
    out
}

} // verus!
