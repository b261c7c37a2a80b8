//! A small finite map kept as a list of entries with distinct keys, for keys
//! that compare byte by byte.
use vstd::prelude::*;

use crate::types::{Address, Hash256};

verus! {

/// Keys that can be compared in executable code.
pub trait KeyEq: Sized {
    fn key_eq(&self, other: &Self) -> (b: bool)
        ensures
            b == (*self == *other);
}

impl KeyEq for Address {
    fn key_eq(&self, other: &Self) -> (b: bool) {
        self.same(other)
    }
}

impl KeyEq for (Address, Hash256) {
    fn key_eq(&self, other: &Self) -> (b: bool) {
        self.0.same(&other.0) && self.1.same(&other.1)
    }
}

impl KeyEq for u64 {
    fn key_eq(&self, other: &Self) -> (b: bool) {
        *self == *other
    }
}

impl KeyEq for (Address, u64) {
    fn key_eq(&self, other: &Self) -> (b: bool) {
        self.0.same(&other.0) && self.1 == other.1
    }
}

/// A finite map held as a list of `(key, value)` entries, no key twice.
pub struct AssocMap<K, V> {
    entries: Vec<(K, V)>,
}

/// No key occurs twice in `s`.
pub open spec fn keys_distinct<K, V>(s: Seq<(K, V)>) -> bool {
    forall|i: int, j: int| 0 <= i < s.len() && 0 <= j < s.len() && i != j ==> s[i].0 != s[j].0
}

/// The map a list of entries with distinct keys stands for.
pub open spec fn entries_map<K, V>(s: Seq<(K, V)>) -> Map<K, V> {
    Map::new(
        |k: K| exists|i: int| 0 <= i < s.len() && s[i].0 == k,
        |k: K| s[choose|i: int| 0 <= i < s.len() && s[i].0 == k].1,
    )
}

/// `s` with the entry for `k` set to `v`: replaced in place where `k` has an
/// entry, appended otherwise.
pub open spec fn upsert<K, V>(s: Seq<(K, V)>, k: K, v: V) -> Seq<(K, V)> {
    if exists|i: int| 0 <= i < s.len() && s[i].0 == k {
        s.update(choose|i: int| 0 <= i < s.len() && s[i].0 == k, (k, v))
    } else {
        s.push((k, v))
    }
}

/// The entry at `i` is what the map holds for its key.
pub proof fn lemma_entries_map_at<K, V>(s: Seq<(K, V)>, i: int)
    requires
        keys_distinct(s),
        0 <= i < s.len(),
    ensures
        entries_map(s).contains_key(s[i].0),
        entries_map(s)[s[i].0] == s[i].1,
{
    let k = s[i].0;
    assert(exists|j: int| 0 <= j < s.len() && s[j].0 == k);
    let j = choose|j: int| 0 <= j < s.len() && s[j].0 == k;
    assert(j == i);
}

/// Appending an entry with a new key adds it to the map.
pub proof fn lemma_entries_map_push<K, V>(s: Seq<(K, V)>, k: K, v: V)
    requires
        keys_distinct(s),
        !entries_map(s).contains_key(k),
    ensures
        keys_distinct(s.push((k, v))),
        entries_map(s.push((k, v))) == entries_map(s).insert(k, v),
{
    let t = s.push((k, v));
    assert forall|i: int, j: int| 0 <= i < t.len() && 0 <= j < t.len() && i != j implies t[i].0 != t[j].0 by {
        if i == s.len() as int {
            assert(!(exists|x: int| 0 <= x < s.len() && s[x].0 == k));
            assert(s[j].0 != k);
        } else if j == s.len() as int {
            assert(!(exists|x: int| 0 <= x < s.len() && s[x].0 == k));
            assert(s[i].0 != k);
        }
    }
    assert forall|key: K| #[trigger] entries_map(t).contains_key(key) <==> entries_map(s).insert(k, v).contains_key(key) by {
        if exists|x: int| 0 <= x < s.len() && s[x].0 == key {
            let x = choose|x: int| 0 <= x < s.len() && s[x].0 == key;
            assert(t[x].0 == key);
        }
        if exists|x: int| 0 <= x < t.len() && t[x].0 == key {
            let x = choose|x: int| 0 <= x < t.len() && t[x].0 == key;
            if x < s.len() {
                assert(s[x].0 == key);
            }
        }
        if key == k {
            assert(t[s.len() as int].0 == k);
        }
    }
    assert forall|key: K| #[trigger] entries_map(t).contains_key(key) implies entries_map(t)[key] == entries_map(s).insert(k, v)[key] by {
        let x = choose|x: int| 0 <= x < t.len() && t[x].0 == key;
        lemma_entries_map_at(t, x);
        if x < s.len() {
            lemma_entries_map_at(s, x);
        }
    }
    assert(entries_map(t) =~= entries_map(s).insert(k, v));
}

/// Replacing the value of the entry at `i` replaces it in the map.
pub proof fn lemma_entries_map_update<K, V>(s: Seq<(K, V)>, i: int, v: V)
    requires
        keys_distinct(s),
        0 <= i < s.len(),
    ensures
        keys_distinct(s.update(i, (s[i].0, v))),
        entries_map(s.update(i, (s[i].0, v))) == entries_map(s).insert(s[i].0, v),
{
    let k = s[i].0;
    let t = s.update(i, (k, v));
    assert forall|a: int, b: int| 0 <= a < t.len() && 0 <= b < t.len() && a != b implies t[a].0 != t[b].0 by {
        assert(t[a].0 == s[a].0);
        assert(t[b].0 == s[b].0);
    }
    assert forall|key: K| #[trigger] entries_map(t).contains_key(key) <==> entries_map(s).insert(k, v).contains_key(key) by {
        if exists|x: int| 0 <= x < s.len() && s[x].0 == key {
            let x = choose|x: int| 0 <= x < s.len() && s[x].0 == key;
            assert(t[x].0 == key);
        }
        if exists|x: int| 0 <= x < t.len() && t[x].0 == key {
            let x = choose|x: int| 0 <= x < t.len() && t[x].0 == key;
            assert(s[x].0 == key);
        }
        if key == k {
            assert(t[i].0 == k);
        }
    }
    assert forall|key: K| #[trigger] entries_map(t).contains_key(key) implies entries_map(t)[key] == entries_map(s).insert(k, v)[key] by {
        let x = choose|x: int| 0 <= x < t.len() && t[x].0 == key;
        lemma_entries_map_at(t, x);
        if x != i {
            lemma_entries_map_at(s, x);
        }
    }
    assert(entries_map(t) =~= entries_map(s).insert(k, v));
}

impl<K, V> AssocMap<K, V> {
    /// No key occurs twice among the entries.
    pub closed spec fn wf(&self) -> bool {
        keys_distinct(self.entries@)
    }

    /// The map's contents.
    pub closed spec fn view(&self) -> Map<K, V> {
        entries_map(self.entries@)
    }

    /// The entries, in the order they were first inserted.
    pub closed spec fn entries(&self) -> Seq<(K, V)> {
        self.entries@
    }

    /// The entries list stands for the map: distinct keys, each key's value.
    pub proof fn lemma_entries(&self)
        requires
            self.wf(),
        ensures
            keys_distinct(self.entries()),
            self.view() == entries_map(self.entries()),
    {
    }

    pub fn new() -> (m: Self)
        ensures
            m.wf(),
            m.view() == Map::<K, V>::empty(),
            m.entries() == Seq::<(K, V)>::empty(),
    {
        let m = AssocMap { entries: Vec::new() };
        proof { assert(entries_map(m.entries@) =~= Map::<K, V>::empty()); }
        m
    }

    /// The number of entries.
    pub fn len(&self) -> (n: usize)
        ensures
            n == self.entries().len(),
    {
        self.entries.len()
    }

    /// The entry at position `i`.
    pub fn entry(&self, i: usize) -> (e: &(K, V))
        requires
            i < self.entries().len(),
        ensures
            *e == self.entries()[i as int],
    {
        &self.entries[i]
    }
}

impl<K: KeyEq, V> AssocMap<K, V> {
    fn find(&self, k: &K) -> (r: Option<usize>)
        ensures
            match r {
                Some(i) => i < self.entries@.len() && self.entries@[i as int].0 == *k,
                None => !self.view().contains_key(*k),
            },
    {
        let n = self.entries.len();
        let mut i: usize = 0;
        while i < n
            invariant
                n == self.entries@.len(),
                i <= n,
                forall|j: int| 0 <= j < i ==> self.entries@[j].0 != *k,
            decreases n - i,
        {
            if self.entries[i].0.key_eq(k) {
                return Some(i);
            }
            i = i + 1;
        }
        None
    }

    /// The value held for `k`, if any.
    pub fn get(&self, k: &K) -> (r: Option<&V>)
        requires
            self.wf(),
        ensures
            match r {
                Some(v) => self.view().contains_key(*k) && *v == self.view()[*k],
                None => !self.view().contains_key(*k),
            },
    {
        match self.find(k) {
            Some(i) => {
                proof { lemma_entries_map_at(self.entries@, i as int); }
                Some(&self.entries[i].1)
            },
            None => None,
        }
    }

    /// Sets the value for `k`; a key already present keeps its position.
    pub fn insert(&mut self, k: K, v: V)
        requires
            old(self).wf(),
        ensures
            final(self).wf(),
            final(self).view() == old(self).view().insert(k, v),
            final(self).entries() == upsert(old(self).entries(), k, v),
    {
        match self.find(&k) {
            Some(i) => {
                proof {
                    lemma_entries_map_update(self.entries@, i as int, v);
                    let c = choose|j: int| 0 <= j < self.entries@.len() && self.entries@[j].0 == k;
                    assert(c == i as int);
                }
                self.entries[i] = (k, v);
            },
            None => {
                proof { lemma_entries_map_push(self.entries@, k, v); }
                self.entries.push((k, v));
            },
        }
    }
}

impl<K: KeyEq + Copy, V: Copy> AssocMap<K, V> {
    /// A copy of the map, entries in the same order.
    pub fn copy(&self) -> (r: Self)
        requires
            self.wf(),
        ensures
            r.wf(),
            r.view() == self.view(),
            r.entries() == self.entries(),
    {
        let mut v: Vec<(K, V)> = Vec::new();
        let n = self.entries.len();
        for i in 0..n
            invariant
                n == self.entries@.len(),
                v@ == self.entries@.subrange(0, i as int),
        {
            let e = self.entries[i];
            v.push(e);
            proof { assert(v@ =~= self.entries@.subrange(0, i + 1)); }
        }
        proof { assert(v@ =~= self.entries@); }
        AssocMap { entries: v }
    }
}

/// A list of entries with distinct keys has as many entries as its map has keys.
pub proof fn lemma_entries_map_len<K, V>(s: Seq<(K, V)>)
    requires
        keys_distinct(s),
    ensures
        entries_map(s).dom().finite(),
        entries_map(s).dom().len() == s.len(),
    decreases s.len(),
{
    if s.len() == 0 {
        assert(entries_map(s).dom() =~= Set::<K>::empty());
    } else {
        let p = s.drop_last();
        let e = s.last();
        assert(keys_distinct(p)) by {
            assert forall|i: int, j: int| 0 <= i < p.len() && 0 <= j < p.len() && i != j implies p[i].0 != p[j].0 by {
                assert(p[i] == s[i] && p[j] == s[j]);
            }
        }
        lemma_entries_map_len(p);
        assert(!entries_map(p).contains_key(e.0)) by {
            if entries_map(p).contains_key(e.0) {
                let x = choose|x: int| 0 <= x < p.len() && p[x].0 == e.0;
                assert(s[x].0 == s[s.len() - 1].0);
            }
        }
        lemma_entries_map_push(p, e.0, e.1);
        assert(p.push((e.0, e.1)) =~= s);
        assert(entries_map(s).dom() =~= entries_map(p).dom().insert(e.0));
    }
}

/// `m` with the entries of `s` inserted in order, later ones winning.
pub open spec fn fold_insert<K, V>(m: Map<K, V>, s: Seq<(K, V)>) -> Map<K, V>
    decreases s.len(),
{
    if s.len() == 0 {
        m
    } else {
        fold_insert(m, s.drop_last()).insert(s.last().0, s.last().1)
    }
}

/// Inserting `a` then `b` is inserting `a + b`.
pub proof fn lemma_fold_insert_append<K, V>(m: Map<K, V>, a: Seq<(K, V)>, b: Seq<(K, V)>)
    ensures
        fold_insert(m, a + b) == fold_insert(fold_insert(m, a), b),
    decreases b.len(),
{
    if b.len() == 0 {
        assert(a + b =~= a);
    } else {
        lemma_fold_insert_append(m, a, b.drop_last());
        assert((a + b).drop_last() =~= a + b.drop_last());
        assert((a + b).last() == b.last());
    }
}

impl<K: KeyEq, V> AssocMap<K, V> {
    /// Removes the entry for `k`, if any.
    pub fn remove(&mut self, k: &K)
        requires
            old(self).wf(),
        ensures
            final(self).wf(),
            final(self).view() == old(self).view().remove(*k),
    {
        match self.find(k) {
            Some(i) => {
                let ghost s = self.entries@;
                self.entries.remove(i);
                proof {
                    let t = self.entries@;
                    assert(t =~= s.remove(i as int));
                    assert forall|a: int, b: int| 0 <= a < t.len() && 0 <= b < t.len() && a != b implies t[a].0 != t[b].0 by {
                        let a2 = if a < i { a } else { a + 1 };
                        let b2 = if b < i { b } else { b + 1 };
                        assert(t[a] == s[a2] && t[b] == s[b2]);
                    }
                    assert forall|key: K| #[trigger] entries_map(t).contains_key(key) <==> entries_map(s).remove(*k).contains_key(key) by {
                        if exists|x: int| 0 <= x < t.len() && t[x].0 == key {
                            let x = choose|x: int| 0 <= x < t.len() && t[x].0 == key;
                            let x2 = if x < i { x } else { x + 1 };
                            assert(s[x2].0 == key);
                            assert(x2 != i as int);
                        }
                        if exists|x: int| 0 <= x < s.len() && s[x].0 == key {
                            let x = choose|x: int| 0 <= x < s.len() && s[x].0 == key;
                            if key != *k {
                                assert(x != i as int);
                                let x2 = if x < i { x } else { x - 1 };
                                assert(t[x2].0 == key);
                            }
                        }
                    }
                    assert forall|key: K| #[trigger] entries_map(t).contains_key(key) implies entries_map(t)[key] == entries_map(s).remove(*k)[key] by {
                        let x = choose|x: int| 0 <= x < t.len() && t[x].0 == key;
                        lemma_entries_map_at(t, x);
                        let x2 = if x < i { x } else { x + 1 };
                        assert(s[x2] == t[x]);
                        lemma_entries_map_at(s, x2);
                    }
                    assert(entries_map(t) =~= entries_map(s).remove(*k));
                }
            },
            None => {
                proof { assert(self.view() =~= self.view().remove(*k)); }
            },
        }
    }
}

} // verus!
