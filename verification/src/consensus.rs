//! The DAG consensus engine: vertices by round, leader anchors, and commitment of
//! an anchor with the causal history it reaches.
use vstd::prelude::*;

use std::collections::VecDeque;

use crate::types::{Address, EncryptedTx, EncryptedTxView, Hash256, Vertex, VertexView, etx_views, clone_encrypted_txs};

verus! {

/// No two vertices share a digest.
pub open spec fn hashes_distinct(vs: Seq<VertexView>) -> bool {
    forall|i: int, j: int| 0 <= i < vs.len() && 0 <= j < vs.len() && i != j ==> vs[i].hash != vs[j].hash
}

/// Some vertex has digest `h`.
pub open spec fn has_vertex(vs: Seq<VertexView>, h: Hash256) -> bool {
    exists|i: int| 0 <= i < vs.len() && vs[i].hash == h
}

/// The vertex with digest `h`, if there is one.
pub open spec fn find_vertex(vs: Seq<VertexView>, h: Hash256) -> Option<VertexView> {
    if has_vertex(vs, h) {
        Some(vs[choose|i: int| 0 <= i < vs.len() && vs[i].hash == h])
    } else {
        None
    }
}

/// The digests of the first `n` vertices that are in round `r`, in insertion order.
pub open spec fn round_hashes_upto(vs: Seq<VertexView>, r: u64, n: nat) -> Seq<Hash256>
    decreases n,
{
    if n == 0 {
        Seq::empty()
    } else if vs[n - 1].round == r {
        round_hashes_upto(vs, r, (n - 1) as nat).push(vs[n - 1].hash)
    } else {
        round_hashes_upto(vs, r, (n - 1) as nat)
    }
}

/// The digests of the vertices of round `r`, in insertion order.
pub open spec fn round_hashes(vs: Seq<VertexView>, r: u64) -> Seq<Hash256> {
    round_hashes_upto(vs, r, vs.len())
}

/// The digest of the first of the first `n` vertices in round `r` by `author`.
pub open spec fn first_by_upto(vs: Seq<VertexView>, r: u64, author: Address, n: nat) -> Option<Hash256>
    decreases n,
{
    if n == 0 {
        None
    } else {
        match first_by_upto(vs, r, author, (n - 1) as nat) {
            Some(h) => Some(h),
            None => if vs[n - 1].round == r && vs[n - 1].author == author { Some(vs[n - 1].hash) } else { None },
        }
    }
}

/// The state of the engine.
pub struct DagView {
    pub validators: Seq<Address>,
    pub threshold_f: nat,
    pub vertices: Seq<VertexView>,
    pub committed: Set<Hash256>,
    pub current_round: u64,
}

/// The contents of a list of vertices.
pub open spec fn vertex_views(s: Seq<Vertex>) -> Seq<VertexView> {
    s.map_values(|v: Vertex| v@)
}

/// A DAG of vertices over a validator set, with the digests committed so far.
pub struct DagEngine {
    validators: Vec<Address>,
    threshold_f: usize,
    vertices: Vec<Vertex>,
    committed: Vec<Hash256>,
    current_round: u64,
}

impl View for DagEngine {
    type V = DagView;

    closed spec fn view(&self) -> DagView {
        DagView {
            validators: self.validators@,
            threshold_f: self.threshold_f as nat,
            vertices: vertex_views(self.vertices@),
            committed: self.committed@.to_set(),
            current_round: self.current_round,
        }
    }
}

/// Whether `h` occurs in `v`.
fn contains_hash(v: &Vec<Hash256>, h: &Hash256) -> (b: bool)
    ensures
        b == v@.contains(*h),
{
    let n = v.len();
    for i in 0..n
        invariant
            n == v@.len(),
            forall|j: int| 0 <= j < i ==> v@[j] != *h,
    {
        if v[i].same(h) {
            return true;
        }
    }
    false
}

impl DagEngine {
    #[verifier::type_invariant]
    spec fn inv(self) -> bool {
        &&& hashes_distinct(vertex_views(self.vertices@))
        &&& (self.threshold_f == 0 || 3 * self.threshold_f < self.validators@.len())
    }

    /// An engine for `validators` with no vertices; it tolerates
    /// `(n - 1) / 3` faulty validators of `n`.
    pub fn new(validators: Vec<Address>) -> (e: Self)
        ensures
            e@.validators == validators@,
            e@.threshold_f == (if validators@.len() == 0 { 0 } else { (validators@.len() - 1) as nat }) / 3,
            e@.vertices == Seq::<VertexView>::empty(),
            e@.committed == Set::<Hash256>::empty(),
            e@.current_round == 0,
    {
        let n = validators.len();
        let f = n.saturating_sub(1) / 3;
        let e = DagEngine { validators, threshold_f: f, vertices: Vec::new(), committed: Vec::new(), current_round: 0 };
        proof {
            assert(vertex_views(e.vertices@) =~= Seq::<VertexView>::empty());
            assert(e.committed@.to_set() =~= Set::<Hash256>::empty());
        }
        e
    }

    /// How many matching votes commit an anchor: `2f + 1`.
    pub fn quorum(&self) -> (q: usize)
        ensures
            q == 2 * self@.threshold_f + 1,
    {
        proof {
            use_type_invariant(self);
            assert(self.validators.len() == self.validators@.len());
        }
        2 * self.threshold_f + 1
    }

    /// The highest round of any vertex inserted (0 when none).
    pub fn get_current_round(&self) -> (r: u64)
        ensures
            r == self@.current_round,
    {
        self.current_round
    }

    /// The index of the vertex with digest `h`.
    fn find(&self, h: &Hash256) -> (r: Option<usize>)
        ensures
            match r {
                Some(i) => i < self@.vertices.len() && self@.vertices[i as int].hash == *h,
                None => !has_vertex(self@.vertices, *h),
            },
    {
        let n = self.vertices.len();
        for i in 0..n
            invariant
                n == self.vertices@.len(),
                forall|j: int| 0 <= j < i ==> self.vertices@[j].hash != *h,
        {
            if self.vertices[i].hash.same(h) {
                return Some(i);
            }
        }
        None
    }

    /// Adds `vertex` unless a vertex with its digest is already there; the current
    /// round rises to the vertex's round. Gives whether it was added.
    pub fn insert_vertex(&mut self, vertex: Vertex) -> (added: bool)
        ensures
            added == !has_vertex(old(self)@.vertices, vertex.hash),
            final(self)@.validators == old(self)@.validators,
            final(self)@.threshold_f == old(self)@.threshold_f,
            final(self)@.committed == old(self)@.committed,
            added ==> final(self)@.vertices == old(self)@.vertices.push(vertex@),
            added ==> final(self)@.current_round == if vertex.round > old(self)@.current_round { vertex.round } else { old(self)@.current_round },
            !added ==> final(self)@ == old(self)@,
    {
        proof { use_type_invariant(&*self); }
        if self.find(&vertex.hash).is_some() {
            return false;
        }
        let ghost old_vs = vertex_views(self.vertices@);
        let round = vertex.round;
        let ghost vv = vertex@;
        let mut vs: Vec<Vertex> = Vec::new();
        std::mem::swap(&mut vs, &mut self.vertices);
        vs.push(vertex);
        proof {
            assert(vertex_views(vs@) =~= old_vs.push(vv));
            assert(hashes_distinct(vertex_views(vs@))) by {
                let nv = vertex_views(vs@);
                assert forall|i: int, j: int| 0 <= i < nv.len() && 0 <= j < nv.len() && i != j implies nv[i].hash != nv[j].hash by {
                    if i < old_vs.len() && j < old_vs.len() {
                        assert(nv[i] == old_vs[i] && nv[j] == old_vs[j]);
                    } else if i < old_vs.len() {
                        assert(nv[i] == old_vs[i]);
                    } else if j < old_vs.len() {
                        assert(nv[j] == old_vs[j]);
                    }
                }
            }
        }
        self.vertices = vs;
        if round > self.current_round {
            self.current_round = round;
        }
        true
    }

    /// The digests of round `round - 1`, in insertion order: the parents a vertex
    /// of `round` links to (none for round 0).
    pub fn get_parents_for_round(&self, round: u64) -> (ps: Vec<Hash256>)
        ensures
            ps@ == if round == 0 { Seq::<Hash256>::empty() } else { round_hashes(self@.vertices, (round - 1) as u64) },
    {
        let mut ps: Vec<Hash256> = Vec::new();
        if round == 0 {
            return ps;
        }
        let r = round - 1;
        let n = self.vertices.len();
        for i in 0..n
            invariant
                n == self.vertices@.len(),
                r == round - 1,
                ps@ == round_hashes_upto(self@.vertices, r, i as nat),
        {
            proof { assert(self@.vertices[i as int] == self.vertices@[i as int]@); }
            if self.vertices[i].round == r {
                ps.push(self.vertices[i].hash);
            }
        }
        ps
    }

    /// Copies of all vertices, in insertion order.
    pub fn get_all_vertices(&self) -> (vs: Vec<Vertex>)
        ensures
            vertex_views(vs@) == self@.vertices,
    {
        let mut vs: Vec<Vertex> = Vec::new();
        let n = self.vertices.len();
        for i in 0..n
            invariant
                n == self.vertices@.len(),
                vertex_views(vs@) == vertex_views(self.vertices@).subrange(0, i as int),
        {
            let c = self.vertices[i].clone();
            let ghost before = vs@;
            vs.push(c);
            proof {
                assert(vertex_views(vs@) =~= vertex_views(before).push(c@));
                assert(vertex_views(self.vertices@)[i as int] == self.vertices@[i as int]@);
                assert(vertex_views(vs@) =~= vertex_views(self.vertices@).subrange(0, i + 1));
            }
        }
        proof { assert(vertex_views(self.vertices@).subrange(0, n as int) =~= vertex_views(self.vertices@)); }
        vs
    }

    /// The anchor of `round`: the first vertex of that round by the round's
    /// leader, validator `round % n` (none for round 0).
    pub fn get_anchor_for_round(&self, round: u64) -> (a: Option<Hash256>)
        requires
            round > 0 ==> self@.validators.len() > 0,
        ensures
            a == if round == 0 {
                None
            } else {
                first_by_upto(self@.vertices, round, self@.validators[((round as usize) % (self@.validators.len() as usize)) as int], self@.vertices.len())
            },
    {
        if round == 0 {
            return None;
        }
        let leader_idx = (round as usize) % self.validators.len();
        let leader = self.validators[leader_idx];
        let n = self.vertices.len();
        for i in 0..n
            invariant
                n == self.vertices@.len(),
                round != 0,
                leader == self@.validators[((round as usize) % (self@.validators.len() as usize)) as int],
                first_by_upto(self@.vertices, round, leader, i as nat) is None,
        {
            proof { assert(self@.vertices[i as int] == self.vertices@[i as int]@); }
            if self.vertices[i].round == round && self.vertices[i].author.same(&leader) {
                proof {
                    let vs = self@.vertices;
                    assert(vs[i as int] == self.vertices@[i as int]@);
                    assert(first_by_upto(vs, round, leader, (i + 1) as nat) == Some(vs[i as int].hash));
                    lemma_first_by_extends(vs, round, leader, (i + 1) as nat);
                    assert(first_by_upto(vs, round, leader, vs.len()) == Some(self.vertices@[i as int].hash));
                    assert(self.validators@.len() == self.validators.len());
                }
                return Some(self.vertices[i].hash);
            }
        }
        None
    }
}

/// Once found among the first `n` vertices, the first match stays the first.
proof fn lemma_first_by_extends(vs: Seq<VertexView>, r: u64, a: Address, n: nat)
    requires
        n <= vs.len(),
        first_by_upto(vs, r, a, n) is Some,
    ensures
        first_by_upto(vs, r, a, vs.len()) == first_by_upto(vs, r, a, n),
    decreases vs.len() - n,
{
    if n < vs.len() {
        assert(first_by_upto(vs, r, a, (n + 1) as nat) == first_by_upto(vs, r, a, n));
        lemma_first_by_extends(vs, r, a, (n + 1) as nat);
    }
}


// ---------------------------------------------------------------------------
// Commitment

/// How many of the digests `hs` name a vertex that links to `anchor`.
pub open spec fn vote_count(vs: Seq<VertexView>, hs: Seq<Hash256>, anchor: Hash256) -> nat
    decreases hs.len(),
{
    if hs.len() == 0 {
        0
    } else {
        vote_count(vs, hs.drop_last(), anchor) + match find_vertex(vs, hs.last()) {
            Some(v) => if v.parents.contains(anchor) { 1nat } else { 0nat },
            None => 0nat,
        }
    }
}

/// The parents of the vertex with digest `h` (none where there is no such vertex).
pub open spec fn parents_of(vs: Seq<VertexView>, h: Hash256) -> Seq<Hash256> {
    match find_vertex(vs, h) {
        Some(v) => v.parents,
        None => Seq::empty(),
    }
}

/// The search queue and visited list after the first `n` digests of `ps` are
/// offered: each one neither visited nor committed is visited and queued.
pub open spec fn offer(ps: Seq<Hash256>, n: nat, queue: Seq<Hash256>, visited: Seq<Hash256>, committed: Set<Hash256>) -> (Seq<Hash256>, Seq<Hash256>)
    decreases n,
{
    if n == 0 {
        (queue, visited)
    } else {
        let (q, v) = offer(ps, (n - 1) as nat, queue, visited, committed);
        let p = ps[n - 1];
        if !v.contains(p) && !committed.contains(p) { (q.push(p), v.push(p)) } else { (q, v) }
    }
}

/// One step of the breadth-first search over parent links from `(queue, visited,
/// order)`: the head of the queue is taken; unless committed, it joins the order
/// and its parents are offered.
pub open spec fn search_step(vs: Seq<VertexView>, committed: Set<Hash256>, st: (Seq<Hash256>, Seq<Hash256>, Seq<Hash256>)) -> (Seq<Hash256>, Seq<Hash256>, Seq<Hash256>) {
    let curr = st.0[0];
    let rest = st.0.drop_first();
    if committed.contains(curr) {
        (rest, st.1, st.2)
    } else {
        let ps = parents_of(vs, curr);
        let (q, v) = offer(ps, ps.len(), rest, st.1, committed);
        (q, v, st.2.push(curr))
    }
}

/// The order the search reaches once the queue is empty (or `fuel` steps are spent).
pub open spec fn search(vs: Seq<VertexView>, committed: Set<Hash256>, st: (Seq<Hash256>, Seq<Hash256>, Seq<Hash256>), fuel: nat) -> Seq<Hash256>
    decreases fuel,
{
    if fuel == 0 || st.0.len() == 0 {
        st.2
    } else {
        search(vs, committed, search_step(vs, committed, st), (fuel - 1) as nat)
    }
}

/// Every parent digest of the first `n` vertices, vertex by vertex.
pub open spec fn all_parents(vs: Seq<VertexView>, n: nat) -> Seq<Hash256>
    decreases n,
{
    if n == 0 { Seq::empty() } else { all_parents(vs, (n - 1) as nat) + vs[n - 1].parents }
}

/// Every digest the search from `anchor` can meet, with repeats: the anchor and
/// every parent of every vertex. Its length bounds the number of search steps.
pub open spec fn search_universe(vs: Seq<VertexView>, anchor: Hash256) -> Seq<Hash256> {
    seq![anchor] + all_parents(vs, vs.len())
}

/// The uncommitted history `anchor` reaches over parent links: the breadth-first
/// order from the anchor, stopping at committed digests.
pub open spec fn reach(vs: Seq<VertexView>, committed: Set<Hash256>, anchor: Hash256) -> Seq<Hash256> {
    search(vs, committed, (seq![anchor], seq![anchor], Seq::empty()), search_universe(vs, anchor).len())
}

/// None of the parents of `h` is among `rem`.
pub open spec fn parents_gone(vs: Seq<VertexView>, rem: Seq<Hash256>, h: Hash256) -> bool {
    forall|j: int| 0 <= j < rem.len() ==> !parents_of(vs, h).contains(#[trigger] rem[j])
}

/// The index of the first digest of `rem`, from index `i` on, none of whose
/// parents is among `rem`; 0 where there is none.
pub open spec fn first_ready_from(vs: Seq<VertexView>, rem: Seq<Hash256>, i: int) -> int
    decreases rem.len() - i,
{
    if i < 0 || i >= rem.len() {
        0
    } else if parents_gone(vs, rem, rem[i]) {
        i
    } else {
        first_ready_from(vs, rem, i + 1)
    }
}

/// `rem` with parents before children: the first digest none of whose parents
/// remains is taken out, again and again.
pub open spec fn parents_first(vs: Seq<VertexView>, rem: Seq<Hash256>) -> Seq<Hash256>
    decreases rem.len(),
{
    if rem.len() == 0 {
        Seq::empty()
    } else {
        let k = first_ready_from(vs, rem, 0);
        proof { lemma_first_ready_in_range(vs, rem, 0); }
        seq![rem[k]] + parents_first(vs, rem.remove(k))
    }
}

/// The digests committing `anchor` commits: the uncommitted history the anchor
/// reaches, parents before children, and the anchor last. Nothing where the
/// anchor is committed already.
pub open spec fn commit_order(vs: Seq<VertexView>, committed: Set<Hash256>, anchor: Hash256) -> Seq<Hash256> {
    if committed.contains(anchor) {
        Seq::empty()
    } else {
        parents_first(vs, reach(vs, committed, anchor).drop_first()).push(anchor)
    }
}

/// The parent links have no cycle: a rank falls along every link.
pub open spec fn ranked(vs: Seq<VertexView>, rank: spec_fn(Hash256) -> int) -> bool {
    forall|i: int, j: int| 0 <= i < vs.len() && 0 <= j < vs[i].parents.len() ==> rank(#[trigger] vs[i].parents[j]) < rank(vs[i].hash)
}

/// The transactions of the vertices named by `order`, in that order.
pub open spec fn order_txs(vs: Seq<VertexView>, order: Seq<Hash256>) -> Seq<EncryptedTxView>
    decreases order.len(),
{
    if order.len() == 0 {
        Seq::empty()
    } else {
        order_txs(vs, order.drop_last()) + match find_vertex(vs, order.last()) {
            Some(v) => v.transactions,
            None => Seq::empty(),
        }
    }
}

/// With distinct digests, the vertex found for a digest is the one that has it.
proof fn lemma_find_vertex(vs: Seq<VertexView>, i: int)
    requires
        hashes_distinct(vs),
        0 <= i < vs.len(),
    ensures
        find_vertex(vs, vs[i].hash) == Some(vs[i]),
{
    let j = choose|j: int| 0 <= j < vs.len() && vs[j].hash == vs[i].hash;
    assert(j == i);
}

/// A parent of one of the first `n` vertices occurs in their parent list.
proof fn lemma_all_parents_contains(vs: Seq<VertexView>, n: nat, i: int, j: int)
    requires
        n <= vs.len(),
        0 <= i < n,
        0 <= j < vs[i].parents.len(),
    ensures
        all_parents(vs, n).contains(vs[i].parents[j]),
    decreases n,
{
    let ap = all_parents(vs, (n - 1) as nat);
    if i == n - 1 {
        assert((ap + vs[i].parents)[ap.len() + j] == vs[i].parents[j]);
    } else {
        lemma_all_parents_contains(vs, (n - 1) as nat, i, j);
        let k = choose|k: int| 0 <= k < ap.len() && ap[k] == vs[i].parents[j];
        assert((ap + vs[n - 1].parents)[k] == vs[i].parents[j]);
    }
}

/// A list without repeats drawn from `u` is no longer than `u`.
proof fn lemma_distinct_within(a: Seq<Hash256>, u: Seq<Hash256>)
    requires
        a.no_duplicates(),
        forall|x: Hash256| a.contains(x) ==> u.contains(x),
    ensures
        a.len() <= u.len(),
{
    a.unique_seq_to_set();
    u.lemma_cardinality_of_set();
    vstd::seq_lib::seq_to_set_is_finite(u);
    assert(a.to_set().subset_of(u.to_set()));
    vstd::set_lib::lemma_len_subset(a.to_set(), u.to_set());
}

/// Running the search one step further changes nothing it will reach.
proof fn lemma_search_step(vs: Seq<VertexView>, c: Set<Hash256>, st: (Seq<Hash256>, Seq<Hash256>, Seq<Hash256>), fuel: nat)
    requires
        fuel > 0,
        st.0.len() > 0,
    ensures
        search(vs, c, st, fuel) == search(vs, c, search_step(vs, c, st), (fuel - 1) as nat),
{
}

impl DagEngine {
    /// The digests of round `r`, in insertion order.
    fn round_hashes_exec(&self, r: u64) -> (hs: Vec<Hash256>)
        ensures
            hs@ == round_hashes(self@.vertices, r),
    {
        let mut hs: Vec<Hash256> = Vec::new();
        let n = self.vertices.len();
        for i in 0..n
            invariant
                n == self.vertices@.len(),
                hs@ == round_hashes_upto(self@.vertices, r, i as nat),
        {
            proof { assert(self@.vertices[i as int] == self.vertices@[i as int]@); }
            if self.vertices[i].round == r {
                hs.push(self.vertices[i].hash);
            }
        }
        hs
    }

    /// How many of `hs` name a vertex linking to `anchor`.
    fn count_votes(&self, hs: &Vec<Hash256>, anchor: &Hash256) -> (votes: usize)
        ensures
            votes == vote_count(self@.vertices, hs@, *anchor),
    {
        proof { use_type_invariant(self); }
        let mut votes: usize = 0;
        let n = hs.len();
        for i in 0..n
            invariant
                n == hs@.len(),
                hashes_distinct(self@.vertices),
                votes <= i,
                votes == vote_count(self@.vertices, hs@.subrange(0, i as int), *anchor),
        {
            proof { assert(hs@.subrange(0, i + 1).drop_last() =~= hs@.subrange(0, i as int)); }
            match self.find(&hs[i]) {
                Some(idx) => {
                    proof {
                        assert(self@.vertices[idx as int] == self.vertices@[idx as int]@);
                        lemma_find_vertex(self@.vertices, idx as int);
                    }
                    if contains_hash(&self.vertices[idx].parents, anchor) {
                        votes = votes + 1;
                    }
                },
                None => {},
            }
        }
        proof { assert(hs@.subrange(0, n as int) =~= hs@); }
        votes
    }

    /// Commits the anchor `anchor_hash` of round `anchor_round` once at least a
    /// quorum of vertices of the next round link to it: gives the transactions of
    /// the uncommitted history the anchor reaches, parents before children and
    /// the anchor last, and marks that history committed. Gives nothing, and changes nothing, when the next
    /// round has fewer than a quorum of vertices or of links to the anchor, or
    /// when the anchor is already committed.
    pub fn try_commit_anchor(&mut self, anchor_hash: Hash256, anchor_round: u64) -> (r: Option<Vec<EncryptedTx>>)
        requires
            anchor_round < u64::MAX,
        ensures
            r is None <==> (round_hashes(old(self)@.vertices, (anchor_round + 1) as u64).len() < 2 * old(self)@.threshold_f + 1
                || vote_count(old(self)@.vertices, round_hashes(old(self)@.vertices, (anchor_round + 1) as u64), anchor_hash) < 2 * old(self)@.threshold_f + 1
                || old(self)@.committed.contains(anchor_hash)),
            r is None ==> final(self)@ == old(self)@,
            r matches Some(txs) ==> etx_views(txs@) == order_txs(old(self)@.vertices, commit_order(old(self)@.vertices, old(self)@.committed, anchor_hash)),
            r is Some ==> final(self)@ == (DagView {
                committed: old(self)@.committed + commit_order(old(self)@.vertices, old(self)@.committed, anchor_hash).to_set(),
                ..old(self)@
            }),
    {
        proof { use_type_invariant(&*self); }
        let next_round = anchor_round + 1;
        let next = self.round_hashes_exec(next_round);
        let q = self.quorum();
        if next.len() < q {
            return None;
        }
        let votes = self.count_votes(&next, &anchor_hash);
        if votes < q {
            return None;
        }
        if contains_hash(&self.committed, &anchor_hash) {
            return None;
        }
        let found = self.search_from(&anchor_hash);
        let ghost vs = self@.vertices;
        let ghost c = self@.committed;
        proof { lemma_reach_starts_at_anchor(vs, c, anchor_hash); }
        // the history without the anchor, parents before children, then the anchor
        let mut rest: Vec<Hash256> = Vec::new();
        let nf = found.len();
        for i in 1..nf
            invariant
                nf == found@.len(),
                nf >= 1,
                rest@ == found@.subrange(1, i as int),
        {
            rest.push(found[i]);
            proof { assert(rest@ =~= found@.subrange(1, i + 1)); }
        }
        proof { assert(rest@ =~= found@.drop_first()); }
        let mut order = self.order_parents_first(rest);
        order.push(anchor_hash);
        proof { assert(order@ == commit_order(vs, c, anchor_hash)); }
        let m = order.len();
        let mut newc: Vec<Hash256> = Vec::new();
        for i in 0..self.committed.len()
            invariant
                newc@ == self.committed@.subrange(0, i as int),
        {
            newc.push(self.committed[i]);
            proof { assert(newc@ =~= self.committed@.subrange(0, i + 1)); }
        }
        proof { assert(newc@ =~= self.committed@); }
        let mut ordered_txs: Vec<EncryptedTx> = Vec::new();
        for i in 0..m
            invariant
                m == order@.len(),
                vs == self@.vertices,
                hashes_distinct(vs),
                newc@.to_set() == c + order@.subrange(0, i as int).to_set(),
                etx_views(ordered_txs@) == order_txs(vs, order@.subrange(0, i as int)),
        {
            let h = order[i];
            proof {
                assert(order@.subrange(0, i + 1).drop_last() =~= order@.subrange(0, i as int));
                assert(order@.subrange(0, i + 1) =~= order@.subrange(0, i as int).push(h));
                order@.subrange(0, i as int).lemma_push_to_set_commute(h);
            }
            let ghost nb = newc@;
            if !contains_hash(&newc, &h) {
                newc.push(h);
                proof { nb.lemma_push_to_set_commute(h); }
            } else {
                proof { assert(nb.to_set().contains(h)); }
            }
            proof {
                assert(newc@.to_set() =~= c + order@.subrange(0, i + 1).to_set());
            }
            match self.find(&h) {
                Some(idx) => {
                    let t = clone_encrypted_txs(&self.vertices[idx].transactions);
                    proof {
                        assert(self@.vertices[idx as int] == self.vertices@[idx as int]@);
                        lemma_find_vertex(vs, idx as int);
                    }
                    let ghost before = ordered_txs@;
                    let mut t2 = t;
                    ordered_txs.append(&mut t2);
                    proof {
                        assert(etx_views(ordered_txs@) =~= etx_views(before) + etx_views(t@));
                    }
                },
                None => {
                    proof { assert(find_vertex(vs, h) is None); }
                },
            }
        }
        proof {
            assert(order@.subrange(0, m as int) =~= order@);
        }
        self.committed = newc;
        Some(ordered_txs)
    }
}


impl DagEngine {
    /// Whether some parent of `h` is among `rem`.
    fn parent_remains(&self, rem: &Vec<Hash256>, h: &Hash256) -> (b: bool)
        ensures
            b == !parents_gone(self@.vertices, rem@, *h),
    {
        proof { use_type_invariant(self); }
        match self.find(h) {
            None => {
                proof { assert(parents_of(self@.vertices, *h) == Seq::<Hash256>::empty()); }
                false
            },
            Some(idx) => {
                proof {
                    assert(self@.vertices[idx as int] == self.vertices@[idx as int]@);
                    lemma_find_vertex(self@.vertices, idx as int);
                }
                let n = rem.len();
                for j in 0..n
                    invariant
                        n == rem@.len(),
                        idx < self.vertices@.len(),
                        parents_of(self@.vertices, *h) == self.vertices@[idx as int].parents@,
                        forall|t: int| 0 <= t < j ==> !parents_of(self@.vertices, *h).contains(#[trigger] rem@[t]),
                {
                    if contains_hash(&self.vertices[idx].parents, &rem[j]) {
                        return true;
                    }
                }
                false
            },
        }
    }

    /// The index of the first digest of `rem` none of whose parents is in `rem`.
    fn first_ready(&self, rem: &Vec<Hash256>) -> (k: usize)
        ensures
            k == first_ready_from(self@.vertices, rem@, 0),
    {
        let n = rem.len();
        for i in 0..n
            invariant
                n == rem@.len(),
                first_ready_from(self@.vertices, rem@, 0) == first_ready_from(self@.vertices, rem@, i as int),
        {
            if !self.parent_remains(rem, &rem[i]) {
                return i;
            }
        }
        0
    }

    /// `rem` with parents before children.
    fn order_parents_first(&self, rem: Vec<Hash256>) -> (out: Vec<Hash256>)
        ensures
            out@ == parents_first(self@.vertices, rem@),
    {
        let ghost vs = self@.vertices;
        let ghost r0 = rem@;
        let mut rem = rem;
        let mut out: Vec<Hash256> = Vec::new();
        while rem.len() > 0
            invariant
                vs == self@.vertices,
                parents_first(vs, r0) == out@ + parents_first(vs, rem@),
            decreases rem@.len(),
        {
            let k = self.first_ready(&rem);
            proof { lemma_first_ready_in_range(vs, rem@, 0); }
            let ghost rb = rem@;
            let h = rem.remove(k);
            let ghost ob = out@;
            out.push(h);
            proof {
                assert(parents_first(vs, rb) == seq![h] + parents_first(vs, rem@));
                assert(ob + (seq![h] + parents_first(vs, rem@)) =~= out@ + parents_first(vs, rem@));
            }
        }
        proof { assert(out@ + parents_first(vs, rem@) =~= out@); }
        out
    }
}

impl DagEngine {
    /// The breadth-first order from `anchor` over parent links, stopping at
    /// committed digests.
    fn search_from(&self, anchor: &Hash256) -> (order: Vec<Hash256>)
        ensures
            order@ == search(self@.vertices, self@.committed, (seq![*anchor], seq![*anchor], Seq::empty()), search_universe(self@.vertices, *anchor).len()),
    {
        proof { use_type_invariant(self); }
        let ghost vs = self@.vertices;
        let ghost c = self@.committed;
        let ghost u = search_universe(vs, *anchor);
        let ghost st0 = (seq![*anchor], seq![*anchor], Seq::<Hash256>::empty());
        let mut queue: VecDeque<Hash256> = VecDeque::new();
        queue.push_back(*anchor);
        let mut visited: Vec<Hash256> = Vec::new();
        visited.push(*anchor);
        let mut order: Vec<Hash256> = Vec::new();
        let ghost mut it: int = 0;
        proof {
            assert(queue@ =~= st0.0);
            assert(visited@ =~= st0.1);
            assert(order@ =~= st0.2);
            assert(u[0] == *anchor);
        }
        while queue.len() > 0
            invariant
                vs == self@.vertices,
                c == self@.committed,
                hashes_distinct(vs),
                u == search_universe(vs, *anchor),
                0 <= it,
                it + queue@.len() == visited@.len(),
                visited@.no_duplicates(),
                forall|x: Hash256| visited@.contains(x) ==> u.contains(x),
                search(vs, c, st0, u.len()) == search(vs, c, (queue@, visited@, order@), (u.len() - it) as nat),
            decreases u.len() - it,
        {
            proof { lemma_distinct_within(visited@, u); }
            let ghost st = (queue@, visited@, order@);
            let curr = match queue.pop_front() {
                Some(h) => h,
                None => { return order; },
            };
            proof {
                lemma_search_step(vs, c, st, (u.len() - it) as nat);
                assert(queue@ =~= st.0.drop_first());
            }
            if !contains_hash(&self.committed, &curr) {
                order.push(curr);
                let ghost rest = queue@;
                let ghost v0 = visited@;
                match self.find(&curr) {
                    Some(idx) => {
                        let ghost ps = self.vertices@[idx as int].parents@;
                        proof {
                            assert(vs[idx as int] == self.vertices@[idx as int]@);
                            lemma_find_vertex(vs, idx as int);
                            assert(parents_of(vs, curr) == ps);
                        }
                        let np = self.vertices[idx].parents.len();
                        for j in 0..np
                            invariant
                                vs == self@.vertices,
                                c == self@.committed,
                                idx < vs.len(),
                                ps == self.vertices@[idx as int].parents@,
                                ps == vs[idx as int].parents,
                                np == ps.len(),
                                u == search_universe(vs, *anchor),
                                visited@.no_duplicates(),
                                forall|x: Hash256| visited@.contains(x) ==> u.contains(x),
                                (queue@, visited@) == offer(ps, j as nat, rest, v0, c),
                                queue@.len() + v0.len() == visited@.len() + rest.len(),
                        {
                            let p = self.vertices[idx].parents[j];
                            if !contains_hash(&visited, &p) && !contains_hash(&self.committed, &p) {
                                proof {
                                    lemma_all_parents_contains(vs, vs.len(), idx as int, j as int);
                                    let ap = all_parents(vs, vs.len());
                                    let k = choose|k: int| 0 <= k < ap.len() && ap[k] == p;
                                    assert(u[k + 1] == p);
                                }
                                let ghost vb = visited@;
                                visited.push(p);
                                queue.push_back(p);
                                proof {
                                    assert(visited@.no_duplicates()) by {
                                        assert forall|a: int, b: int| 0 <= a < visited@.len() && 0 <= b < visited@.len() && a != b implies visited@[a] != visited@[b] by {
                                            if a < vb.len() && b < vb.len() {
                                                assert(visited@[a] == vb[a] && visited@[b] == vb[b]);
                                            } else if a < vb.len() {
                                                assert(visited@[a] == vb[a]);
                                            } else if b < vb.len() {
                                                assert(visited@[b] == vb[b]);
                                            }
                                        }
                                    }
                                    assert forall|x: Hash256| visited@.contains(x) implies u.contains(x) by {
                                        let a = choose|a: int| 0 <= a < visited@.len() && visited@[a] == x;
                                        if a < vb.len() {
                                            assert(vb[a] == x);
                                        }
                                    }
                                }
                            }
                        }
                    },
                    None => {
                        proof { assert(parents_of(vs, curr) == Seq::<Hash256>::empty()); }
                    },
                }
            }
            proof { it = it + 1; }
        }
        order
    }
}


/// The search only ever appends to the order it has reached.
proof fn lemma_search_extends(vs: Seq<VertexView>, c: Set<Hash256>, st: (Seq<Hash256>, Seq<Hash256>, Seq<Hash256>), fuel: nat)
    ensures
        st.2.len() <= search(vs, c, st, fuel).len(),
        forall|k: int| 0 <= k < st.2.len() ==> #[trigger] search(vs, c, st, fuel)[k] == st.2[k],
    decreases fuel,
{
    if fuel > 0 && st.0.len() > 0 {
        let nxt = search_step(vs, c, st);
        lemma_search_extends(vs, c, nxt, (fuel - 1) as nat);
        if !c.contains(st.0[0]) {
            assert forall|k: int| 0 <= k < st.2.len() implies #[trigger] search(vs, c, st, fuel)[k] == st.2[k] by {
                assert(nxt.2[k] == st.2[k]);
            }
        }
    }
}

/// The search from an uncommitted anchor starts with the anchor.
proof fn lemma_reach_starts_at_anchor(vs: Seq<VertexView>, committed: Set<Hash256>, anchor: Hash256)
    requires
        !committed.contains(anchor),
    ensures
        reach(vs, committed, anchor).len() > 0,
        reach(vs, committed, anchor)[0] == anchor,
{
    let st0 = (seq![anchor], seq![anchor], Seq::<Hash256>::empty());
    let f = search_universe(vs, anchor).len();
    assert(f >= 1);
    let st1 = search_step(vs, committed, st0);
    assert(st1.2 == seq![anchor]);
    lemma_search_extends(vs, committed, st1, (f - 1) as nat);
    assert(reach(vs, committed, anchor) == search(vs, committed, st1, (f - 1) as nat));
}

/// Committing an uncommitted anchor commits the anchor itself, as the last
/// digest of the order; so a second attempt to commit it gives nothing.
pub proof fn lemma_commit_includes_anchor(vs: Seq<VertexView>, committed: Set<Hash256>, anchor: Hash256)
    requires
        !committed.contains(anchor),
    ensures
        commit_order(vs, committed, anchor).len() > 0,
        commit_order(vs, committed, anchor).last() == anchor,
        (committed + commit_order(vs, committed, anchor).to_set()).contains(anchor),
{
    let o = commit_order(vs, committed, anchor);
    assert(o.to_set().contains(anchor)) by {
        assert(o[o.len() - 1] == anchor);
    }
}

/// The index picked from a nonempty `rem` is within it.
pub proof fn lemma_first_ready_in_range(vs: Seq<VertexView>, rem: Seq<Hash256>, i: int)
    requires
        rem.len() > 0,
        0 <= i,
    ensures
        0 <= first_ready_from(vs, rem, i) < rem.len(),
    decreases rem.len() - i,
{
    if i < rem.len() && !parents_gone(vs, rem, rem[i]) {
        lemma_first_ready_in_range(vs, rem, i + 1);
    }
}

/// Where some digest from index `i` on has no parent left, the pick is such a digest.
proof fn lemma_first_ready_found(vs: Seq<VertexView>, rem: Seq<Hash256>, i: int, m: int)
    requires
        0 <= i <= m < rem.len(),
        parents_gone(vs, rem, rem[m]),
    ensures
        parents_gone(vs, rem, rem[first_ready_from(vs, rem, i)]),
    decreases m - i,
{
    if !parents_gone(vs, rem, rem[i]) {
        lemma_first_ready_found(vs, rem, i + 1, m);
    }
}

/// A nonempty list has an element of least rank.
proof fn lemma_least_rank(rem: Seq<Hash256>, rank: spec_fn(Hash256) -> int) -> (m: int)
    requires
        rem.len() > 0,
    ensures
        0 <= m < rem.len(),
        forall|j: int| 0 <= j < rem.len() ==> rank(rem[m]) <= rank(#[trigger] rem[j]),
    decreases rem.len(),
{
    if rem.len() == 1 {
        0
    } else {
        let m0 = lemma_least_rank(rem.drop_last(), rank);
        assert(rem.drop_last()[m0] == rem[m0]);
        if rank(rem.last()) < rank(rem[m0]) {
            assert forall|j: int| 0 <= j < rem.len() implies rank(rem[rem.len() - 1]) <= rank(#[trigger] rem[j]) by {
                if j < rem.len() - 1 {
                    assert(rem.drop_last()[j] == rem[j]);
                }
            }
            rem.len() - 1
        } else {
            assert forall|j: int| 0 <= j < rem.len() implies rank(rem[m0]) <= rank(#[trigger] rem[j]) by {
                if j < rem.len() - 1 {
                    assert(rem.drop_last()[j] == rem[j]);
                }
            }
            m0
        }
    }
}

/// Along a ranked parent link the rank falls.
proof fn lemma_parent_rank(vs: Seq<VertexView>, rank: spec_fn(Hash256) -> int, h: Hash256, p: Hash256)
    requires
        ranked(vs, rank),
        parents_of(vs, h).contains(p),
    ensures
        rank(p) < rank(h),
{
    if has_vertex(vs, h) {
        let k = choose|i: int| 0 <= i < vs.len() && vs[i].hash == h;
        let t = choose|t: int| 0 <= t < vs[k].parents.len() && vs[k].parents[t] == p;
        assert(rank(vs[k].parents[t]) < rank(vs[k].hash));
    }
}

/// Under a ranking, `parents_first` keeps the length, draws only from `rem`, and
/// puts no digest after one of its children: no later digest is a parent of an
/// earlier one.
proof fn lemma_parents_first(vs: Seq<VertexView>, rem: Seq<Hash256>, rank: spec_fn(Hash256) -> int)
    requires
        ranked(vs, rank),
    ensures
        parents_first(vs, rem).len() == rem.len(),
        forall|x: Hash256| parents_first(vs, rem).contains(x) ==> rem.contains(x),
        forall|i: int, j: int| 0 <= i < j < rem.len() ==> !parents_of(vs, #[trigger] parents_first(vs, rem)[i]).contains(#[trigger] parents_first(vs, rem)[j]),
    decreases rem.len(),
{
    if rem.len() > 0 {
        let k = first_ready_from(vs, rem, 0);
        lemma_first_ready_in_range(vs, rem, 0);
        let m = lemma_least_rank(rem, rank);
        assert(parents_gone(vs, rem, rem[m])) by {
            assert forall|j: int| 0 <= j < rem.len() implies !parents_of(vs, rem[m]).contains(#[trigger] rem[j]) by {
                if parents_of(vs, rem[m]).contains(rem[j]) {
                    lemma_parent_rank(vs, rank, rem[m], rem[j]);
                }
            }
        }
        lemma_first_ready_found(vs, rem, 0, m);
        let r2 = rem.remove(k);
        lemma_parents_first(vs, r2, rank);
        let tail = parents_first(vs, r2);
        let out = parents_first(vs, rem);
        assert(out == seq![rem[k]] + tail);
        assert forall|x: Hash256| r2.contains(x) implies rem.contains(x) by {
            let t = choose|t: int| 0 <= t < r2.len() && r2[t] == x;
            if t < k {
                assert(rem[t] == x);
            } else {
                assert(rem[t + 1] == x);
            }
        }
        assert forall|x: Hash256| out.contains(x) implies rem.contains(x) by {
            let t = choose|t: int| 0 <= t < out.len() && out[t] == x;
            if t > 0 {
                assert(tail[t - 1] == x);
                assert(tail.contains(x));
            }
        }
        assert forall|i: int, j: int| 0 <= i < j < rem.len() implies !parents_of(vs, #[trigger] out[i]).contains(#[trigger] out[j]) by {
            assert(out[j] == tail[j - 1]);
            if i == 0 {
                assert(tail[j - 1] == out[j]);
                assert(tail.contains(out[j]));
                assert(r2.contains(out[j]));
                assert(rem.contains(out[j]));
                let t = choose|t: int| 0 <= t < rem.len() && rem[t] == out[j];
                assert(out[0] == rem[k]);
                assert(!parents_of(vs, rem[k]).contains(rem[t]));
            } else {
                assert(out[i] == tail[i - 1]);
            }
        }
    }
}

/// Every digest of the search state is visited, and every visited digest ranks
/// no higher than the anchor.
spec fn search_bounded(rank: spec_fn(Hash256) -> int, top: int, st: (Seq<Hash256>, Seq<Hash256>, Seq<Hash256>)) -> bool {
    &&& forall|x: Hash256| st.1.contains(x) ==> rank(x) <= top
    &&& forall|x: Hash256| st.0.contains(x) ==> st.1.contains(x)
    &&& forall|x: Hash256| st.2.contains(x) ==> st.1.contains(x)
}

/// Offering digests of rank at most `top` keeps the queue within the visited
/// list, the visited list within rank `top`, and what was visited visited.
proof fn lemma_offer_bounded(ps: Seq<Hash256>, n: nat, q: Seq<Hash256>, v: Seq<Hash256>, c: Set<Hash256>, rank: spec_fn(Hash256) -> int, top: int)
    requires
        n <= ps.len(),
        forall|x: Hash256| q.contains(x) ==> v.contains(x),
        forall|x: Hash256| v.contains(x) ==> rank(x) <= top,
        forall|t: int| 0 <= t < ps.len() ==> rank(#[trigger] ps[t]) <= top,
    ensures
        forall|x: Hash256| offer(ps, n, q, v, c).0.contains(x) ==> offer(ps, n, q, v, c).1.contains(x),
        forall|x: Hash256| offer(ps, n, q, v, c).1.contains(x) ==> rank(x) <= top,
        forall|x: Hash256| v.contains(x) ==> offer(ps, n, q, v, c).1.contains(x),
    decreases n,
{
    if n > 0 {
        lemma_offer_bounded(ps, (n - 1) as nat, q, v, c, rank, top);
        let (q1, v1) = offer(ps, (n - 1) as nat, q, v, c);
        let p = ps[n - 1];
        if !v1.contains(p) && !c.contains(p) {
            assert forall|x: Hash256| q1.push(p).contains(x) implies v1.push(p).contains(x) by {
                let t = choose|t: int| 0 <= t < q1.push(p).len() && q1.push(p)[t] == x;
                if t < q1.len() {
                    assert(q1[t] == x);
                    assert(q1.contains(x));
                    assert(v1.contains(x));
                    let u = choose|u: int| 0 <= u < v1.len() && v1[u] == x;
                    assert(v1.push(p)[u] == x);
                } else {
                    assert(v1.push(p)[v1.len() as int] == x);
                }
            }
            assert forall|x: Hash256| v1.push(p).contains(x) implies rank(x) <= top by {
                let t = choose|t: int| 0 <= t < v1.push(p).len() && v1.push(p)[t] == x;
                if t < v1.len() {
                    assert(v1[t] == x);
                    assert(v1.contains(x));
                } else {
                    assert(ps[n - 1] == x);
                }
            }
            assert forall|x: Hash256| v.contains(x) implies v1.push(p).contains(x) by {
                assert(v1.contains(x));
                let u = choose|u: int| 0 <= u < v1.len() && v1[u] == x;
                assert(v1.push(p)[u] == x);
            }
        }
    }
}

/// Under a ranking, the search from a state of digests ranked no higher than
/// `top` reaches only such digests.
proof fn lemma_search_bounded(vs: Seq<VertexView>, c: Set<Hash256>, st: (Seq<Hash256>, Seq<Hash256>, Seq<Hash256>), fuel: nat, rank: spec_fn(Hash256) -> int, top: int)
    requires
        ranked(vs, rank),
        search_bounded(rank, top, st),
    ensures
        forall|k: int| 0 <= k < search(vs, c, st, fuel).len() ==> rank(#[trigger] search(vs, c, st, fuel)[k]) <= top,
    decreases fuel,
{
    if fuel == 0 || st.0.len() == 0 {
        assert forall|k: int| 0 <= k < st.2.len() implies rank(#[trigger] st.2[k]) <= top by {
            assert(st.2.contains(st.2[k]));
        }
    } else {
        let curr = st.0[0];
        assert(st.0.contains(curr));
        let nxt = search_step(vs, c, st);
        let rest = st.0.drop_first();
        assert forall|x: Hash256| rest.contains(x) implies st.1.contains(x) by {
            let t = choose|t: int| 0 <= t < rest.len() && rest[t] == x;
            assert(st.0[t + 1] == x);
        }
        if !c.contains(curr) {
            let ps = parents_of(vs, curr);
            assert forall|t: int| 0 <= t < ps.len() implies rank(#[trigger] ps[t]) <= top by {
                assert(ps.contains(ps[t]));
                lemma_parent_rank(vs, rank, curr, ps[t]);
            }
            lemma_offer_bounded(ps, ps.len(), rest, st.1, c, rank, top);
            assert forall|x: Hash256| nxt.2.contains(x) implies nxt.1.contains(x) by {
                let t = choose|t: int| 0 <= t < nxt.2.len() && nxt.2[t] == x;
                if t < st.2.len() {
                    assert(st.2[t] == x);
                    assert(st.2.contains(x));
                }
            }
        }
        assert(search_bounded(rank, top, nxt));
        lemma_search_step(vs, c, st, fuel);
        lemma_search_bounded(vs, c, nxt, (fuel - 1) as nat, rank, top);
    }
}

/// Where the parent links have no cycle, committing an uncommitted anchor gives
/// its history in topological order: no later digest is a parent of an earlier
/// one, so every ancestor precedes its descendants; and the anchor comes last.
pub proof fn lemma_commit_order_topological(vs: Seq<VertexView>, committed: Set<Hash256>, anchor: Hash256, rank: spec_fn(Hash256) -> int)
    requires
        ranked(vs, rank),
        !committed.contains(anchor),
    ensures
        commit_order(vs, committed, anchor).len() > 0,
        commit_order(vs, committed, anchor).last() == anchor,
        forall|i: int, j: int| 0 <= i < j < commit_order(vs, committed, anchor).len()
            ==> !parents_of(vs, #[trigger] commit_order(vs, committed, anchor)[i]).contains(#[trigger] commit_order(vs, committed, anchor)[j]),
{
    let o = reach(vs, committed, anchor);
    lemma_reach_starts_at_anchor(vs, committed, anchor);
    let rem = o.drop_first();
    let pf = parents_first(vs, rem);
    lemma_parents_first(vs, rem, rank);
    let out = commit_order(vs, committed, anchor);
    assert(out == pf.push(anchor));
    let st0 = (seq![anchor], seq![anchor], Seq::<Hash256>::empty());
    assert(search_bounded(rank, rank(anchor), st0)) by {
        assert forall|x: Hash256| st0.1.contains(x) implies rank(x) <= rank(anchor) by {
            let t = choose|t: int| 0 <= t < st0.1.len() && st0.1[t] == x;
            assert(t == 0);
        }
    }
    lemma_search_bounded(vs, committed, st0, search_universe(vs, anchor).len(), rank, rank(anchor));
    assert forall|i: int, j: int| 0 <= i < j < out.len() implies !parents_of(vs, #[trigger] out[i]).contains(#[trigger] out[j]) by {
        assert(out[i] == pf[i]);
        if j < out.len() - 1 {
            assert(out[j] == pf[j]);
        } else {
            assert(out[j] == anchor);
            assert(pf.contains(pf[i]));
            assert(rem.contains(pf[i]));
            let t = choose|t: int| 0 <= t < rem.len() && rem[t] == pf[i];
            assert(o[t + 1] == pf[i]);
            assert(rank(o[t + 1]) <= rank(anchor));
            if parents_of(vs, pf[i]).contains(anchor) {
                lemma_parent_rank(vs, rank, pf[i], anchor);
            }
        }
    }
}

/// `b` lies `1..=n` parent links above `a`, every digest on the way (`b`
/// included) among `within`.
pub open spec fn descends(vs: Seq<VertexView>, within: Seq<Hash256>, a: Hash256, b: Hash256, n: nat) -> bool
    decreases n,
{
    n > 0 && exists|k: int| 0 <= k < within.len() && #[trigger] parents_of(vs, a).contains(within[k])
        && (within[k] == b || descends(vs, within, within[k], b, (n - 1) as nat))
}

/// In a list where no later digest is a parent of an earlier one, and no digest
/// is its own parent, a digest reached by going up from position `i` stands
/// before `i`.
proof fn lemma_descends_earlier(vs: Seq<VertexView>, o: Seq<Hash256>, i: int, j: int, n: nat)
    requires
        0 <= i < o.len(),
        0 <= j < o.len(),
        forall|x: int, y: int| 0 <= x < y < o.len() ==> !parents_of(vs, #[trigger] o[x]).contains(#[trigger] o[y]),
        forall|x: int| 0 <= x < o.len() ==> !parents_of(vs, #[trigger] o[x]).contains(o[x]),
        descends(vs, o, o[i], o[j], n),
    ensures
        j < i,
    decreases n,
{
    let k = choose|k: int| 0 <= k < o.len() && #[trigger] parents_of(vs, o[i]).contains(o[k])
        && (o[k] == o[j] || descends(vs, o, o[k], o[j], (n - 1) as nat));
    if k >= i {
        if k == i {
            assert(parents_of(vs, o[i]).contains(o[i]));
        } else {
            assert(!parents_of(vs, o[i]).contains(o[k]));
        }
    }
    if o[k] == o[j] {
        if j >= i {
            if j == i {
                assert(parents_of(vs, o[i]).contains(o[i]));
            } else {
                assert(!parents_of(vs, o[i]).contains(o[j]));
            }
        }
    } else {
        lemma_descends_earlier(vs, o, k, j, (n - 1) as nat);
    }
}

/// Where the parent links have no cycle, committing an uncommitted anchor puts
/// every ancestor before its descendants: no digest of the order lies above an
/// earlier one along a path of parent links through the committed history.
pub proof fn lemma_commit_order_ancestors_first(vs: Seq<VertexView>, committed: Set<Hash256>, anchor: Hash256, rank: spec_fn(Hash256) -> int)
    requires
        ranked(vs, rank),
        !committed.contains(anchor),
    ensures
        forall|i: int, j: int, n: nat|
            #![trigger descends(vs, commit_order(vs, committed, anchor), commit_order(vs, committed, anchor)[i], commit_order(vs, committed, anchor)[j], n)]
            0 <= i < j < commit_order(vs, committed, anchor).len()
            ==> !descends(vs, commit_order(vs, committed, anchor), commit_order(vs, committed, anchor)[i], commit_order(vs, committed, anchor)[j], n),
{
    let o = commit_order(vs, committed, anchor);
    lemma_commit_order_topological(vs, committed, anchor, rank);
    assert forall|x: int| 0 <= x < o.len() implies !parents_of(vs, #[trigger] o[x]).contains(o[x]) by {
        if parents_of(vs, o[x]).contains(o[x]) {
            lemma_parent_rank(vs, rank, o[x], o[x]);
        }
    }
    assert forall|i: int, j: int, n: nat| #![trigger descends(vs, o, o[i], o[j], n)] 0 <= i < j < o.len() implies !descends(vs, o, o[i], o[j], n) by {
        if descends(vs, o, o[i], o[j], n) {
            lemma_descends_earlier(vs, o, i, j, n);
        }
    }
}

/// The output for one committed vertex is all of its transactions, in order
/// (nothing for a digest with no vertex).
pub proof fn lemma_order_txs_single(vs: Seq<VertexView>, h: Hash256)
    ensures
        order_txs(vs, seq![h]) == match find_vertex(vs, h) {
            Some(v) => v.transactions,
            None => Seq::<EncryptedTxView>::empty(),
        },
{
    assert(seq![h].drop_last() =~= Seq::<Hash256>::empty());
    assert(order_txs(vs, Seq::<Hash256>::empty()) == Seq::<EncryptedTxView>::empty());
    match find_vertex(vs, h) {
        Some(v) => { assert(Seq::<EncryptedTxView>::empty() + v.transactions =~= v.transactions); },
        None => { assert(Seq::<EncryptedTxView>::empty() + Seq::<EncryptedTxView>::empty() =~= Seq::<EncryptedTxView>::empty()); },
    }
}

/// The output for an order is the outputs for its parts, one after the other:
/// with `lemma_order_txs_single`, the transaction lists of the committed
/// vertices concatenated in commit order, so its length is their sum.
pub proof fn lemma_order_txs_concat(vs: Seq<VertexView>, a: Seq<Hash256>, b: Seq<Hash256>)
    ensures
        order_txs(vs, a + b) == order_txs(vs, a) + order_txs(vs, b),
    decreases b.len(),
{
    if b.len() == 0 {
        assert(a + b =~= a);
        assert(order_txs(vs, a) + Seq::<EncryptedTxView>::empty() =~= order_txs(vs, a));
    } else {
        lemma_order_txs_concat(vs, a, b.drop_last());
        assert((a + b).drop_last() =~= a + b.drop_last());
        assert((a + b).last() == b.last());
        let t = match find_vertex(vs, b.last()) {
            Some(v) => v.transactions,
            None => Seq::<EncryptedTxView>::empty(),
        };
        assert(order_txs(vs, a + b) == order_txs(vs, a + b.drop_last()) + t);
        assert(order_txs(vs, b) == order_txs(vs, b.drop_last()) + t);
        assert(order_txs(vs, a) + order_txs(vs, b.drop_last()) + t =~= order_txs(vs, a) + (order_txs(vs, b.drop_last()) + t));
    }
}

} // verus!
