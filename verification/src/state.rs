//! A node's state and its rounds. A round runs in three steps: `open_round`
//! draws each validator's batch from the mempool and makes up transfers where
//! it runs short; the caller encrypts those; `close_round` builds and inserts
//! the round's vertices; `decrypt_round` and `apply_round` then decrypt the
//! round's transactions and execute them on the ledger.
use vstd::prelude::*;

use crate::consensus::{DagEngine, DagView, has_vertex, vertex_views};
use crate::interpolation::{lemma_shares_recover, share_point, shares_at};
use crate::crypto::{PRIME, ThresholdScheme, lemma_xor_stream_twice, seed_coeff, derived_key, lagrange_secret, poly_value, seed_secret, shares_small, xor_stream};
use crate::execution::{BlockSTMExecutor, hash_with, run_seq};
use crate::mempool::EncryptedMempool;
use crate::node::{VertexDTO, deploy_into, deposited, id_address, keyed_slots, with_deployment, write_contract_slots, genesis_store, genesis_validators, genesis_view, keep_last, simulated_transfer, simulated_tx, summary_of, summary_views, validators_for};
use crate::p2p::PeerManager;
use crate::vm::{SmartContractEngine, call_gas, contract_address_bytes, lowercase, vm_call};
use crate::storage::{FlatStateStore, StoreView, account_or_default, slot_or_zero};
use crate::assoc::fold_insert;
use crate::types::{AccountState, Address, ContractInfo, ContractInfoView, TxPayload, EncryptedTx, EncryptedTxView, Hash256, NodeIdentity, Transaction, Vertex, VertexView, clone_encrypted_txs, clone_hashes, etx_views, sha256, vertex_preimage};

verus! {

/// Everything a node keeps.
pub struct NodeState {
    pub identity: NodeIdentity,
    pub my_address: Address,
    pub validators: Vec<Address>,
    pub dag: DagEngine,
    pub scheme: ThresholdScheme,
    pub mempool: EncryptedMempool,
    pub store: FlatStateStore,
    pub peer_mgr: PeerManager,
    pub round: u64,
    pub total_txs: usize,
    pub last_tps: usize,
    pub vertices_cache: Vec<VertexDTO>,
    pub round_parents: Vec<Hash256>,
    pub total_rewards: u64,
    pub local_ip: String,
    pub port: u16,
}

/// The most transactions one validator draws from the mempool in a round.
pub const BATCH: usize = 50;

/// The most vertex summaries a node keeps.
pub const CACHE_LIMIT: usize = 60;

/// `x`, or `len` where `x` is past it.
pub open spec fn clip(x: int, len: nat) -> int {
    if x < len { x } else { len as int }
}

/// The batch validator `i` draws from queue `q` when the validators before it
/// have drawn theirs: the next fifty, or what is left.
pub open spec fn drawn(q: Seq<EncryptedTxView>, i: int) -> Seq<EncryptedTxView> {
    q.subrange(clip(50 * i, q.len()), clip(50 * i + 50, q.len()))
}

/// What one validator brings to a round: the transactions it drew from the
/// mempool, and the transfers it makes up to fill its batch, still to be
/// encrypted.
pub struct Draw {
    pub pulled: Vec<EncryptedTx>,
    pub made: Vec<Transaction>,
}

/// The largest round a node can open: the one after it must still give every
/// made-up transfer an id inside `u64`.
pub open spec fn round_fits(round: u64, validators: nat) -> bool {
    (round + 1) * 1000 + validators * 50 <= u64::MAX
}

/// `vs` inserted into `d` one after another: each goes in unless a vertex with
/// its digest is there, and raises the current round to its own.
pub open spec fn insert_all(d: DagView, vs: Seq<VertexView>) -> DagView
    decreases vs.len(),
{
    if vs.len() == 0 {
        d
    } else {
        let p = insert_all(d, vs.drop_last());
        let v = vs.last();
        if has_vertex(p.vertices, v.hash) {
            p
        } else {
            DagView {
                vertices: p.vertices.push(v),
                current_round: if v.round > p.current_round { v.round } else { p.current_round },
                ..p
            }
        }
    }
}

/// The vertex `author` makes in round `r` on `parents` with `txs`.
pub open spec fn round_vertex(author: Address, r: u64, parents: Seq<Hash256>, txs: Seq<EncryptedTxView>) -> VertexView {
    VertexView {
        author,
        round: r,
        parents,
        transactions: txs,
        hash: hash_with(sha256(vertex_preimage(author, r, parents, txs))),
    }
}

/// All the transactions of `bs`, batch after batch.
pub open spec fn flatten(bs: Seq<Seq<EncryptedTxView>>) -> Seq<EncryptedTxView>
    decreases bs.len(),
{
    if bs.len() == 0 { Seq::empty() } else { flatten(bs.drop_last()) + bs.last() }
}

/// The last `max` entries of `s`, or all of it.
pub open spec fn last_n<T>(s: Seq<T>, max: nat) -> Seq<T> {
    if s.len() > max { s.subrange(s.len() - max, s.len() as int) } else { s }
}

/// The vertices of a round, one per validator, each on `parents` with the
/// validator's batch.
pub open spec fn round_vertices(vals: Seq<Address>, r: u64, parents: Seq<Hash256>, bs: Seq<Seq<EncryptedTxView>>) -> Seq<VertexView> {
    Seq::new(vals.len(), |i: int| round_vertex(vals[i], r, parents, bs[i]))
}

/// The summaries of a round's vertices; the anchor's author is validator
/// `(r - 1) % n`, and round 1 has no anchor.
pub open spec fn round_summaries(vals: Seq<Address>, r: u64, vs: Seq<VertexView>) -> Seq<crate::node::SummaryView> {
    Seq::new(vs.len(), |i: int| summary_of(vs[i], vals[i] == vals[(((r - 1) as usize) % (vals.len() as usize)) as int] && r > 1))
}

/// The views of a list of batches.
pub open spec fn batch_views(bs: Seq<Vec<EncryptedTx>>) -> Seq<Seq<EncryptedTxView>> {
    bs.map_values(|b: Vec<EncryptedTx>| etx_views(b@))
}

/// The parents of a round's vertices: none in round 1, else the digests of the
/// round before.
pub open spec fn parents_for(r: u64, prev: Seq<Hash256>) -> Seq<Hash256> {
    if r == 1 { Seq::empty() } else { prev }
}

/// The digests of a list of vertices.
pub open spec fn digests(vs: Seq<VertexView>) -> Seq<Hash256> {
    vs.map_values(|v: VertexView| v.hash)
}

/// The three shares a node decrypts a round with: those of validators 0, 1, 2.
pub open spec fn round_shares(sc: ThresholdScheme) -> Seq<(i128, i128)> {
    seq![share_point(sc, 0), share_point(sc, 1), share_point(sc, 2)]
}

/// `amount` moved from `from` to `to` as the ledger's transfer moves it: `from`
/// gets an account if it had none; nothing moves where it holds less;
/// `None` where the receiver's balance would overflow.
pub open spec fn transfer_effect(v: StoreView, from: Address, to: Address, amount: u64) -> Option<StoreView> {
    let f = account_or_default(v.accounts, from);
    let t = account_or_default(v.accounts, to);
    let opened = v.accounts.insert(from, f);
    if f.balance < amount || from == to {
        Some(StoreView { accounts: opened, ..v })
    } else if t.balance + amount > u64::MAX {
        None
    } else {
        Some(StoreView {
            accounts: opened
                .insert(from, AccountState { balance: (f.balance - amount) as u64, nonce: f.nonce })
                .insert(to, AccountState { balance: (t.balance + amount) as u64, nonce: t.nonce }),
            ..v
        })
    }
}

/// What a transaction gossiped by a peer does to the ledger in round `round`:
/// a deployment registers the contract and its initial storage; a call to a
/// deployed contract writes the slots the call writes (a call to an unknown
/// address does nothing); a transfer moves funds; a swap does nothing.
/// `None` where the arithmetic would overflow.
pub open spec fn gossip_effect(v: StoreView, tx: Transaction, round: u64) -> Option<StoreView> {
    match tx.payload {
        TxPayload::DeployContract { name, template, params } =>
            Some(with_deployment(v, tx.sender, tx.nonce, round, name@, template@, params@)),
        TxPayload::CallContract { contract, method, args } =>
            if v.contracts.contains_key(contract) {
                match vm_call(tx.sender, v.contracts[contract].template, lowercase(method@), method@, args@,
                    |slot: u64| slot_or_zero(v.contract_slots, (contract, slot))) {
                    Some(out) => Some(StoreView { contract_slots: fold_insert(v.contract_slots, keyed_slots(contract, out.writes)), ..v }),
                    None => None,
                }
            } else {
                Some(v)
            },
        TxPayload::Transfer { to, amount } => transfer_effect(v, tx.sender, to, amount),
        TxPayload::Swap { .. } => Some(v),
    }
}

/// `m` with each contract of `cs` filed under its address, in order, unless
/// one is filed there already.
pub open spec fn register_missing(m: Map<Address, ContractInfoView>, cs: Seq<ContractInfoView>) -> Map<Address, ContractInfoView>
    decreases cs.len(),
{
    if cs.len() == 0 {
        m
    } else {
        let p = register_missing(m, cs.drop_last());
        let c = cs.last();
        if p.contains_key(c.address) { p } else { p.insert(c.address, c) }
    }
}

/// Contract slots `(contract, slot, value)` keyed by contract and slot.
pub open spec fn slot_triples(s: Seq<(Address, u64, u64)>) -> Seq<((Address, u64), u64)> {
    s.map_values(|t: (Address, u64, u64)| ((t.0, t.1), t.2))
}

/// The views of a list of contracts.
pub open spec fn contract_views(s: Seq<ContractInfo>) -> Seq<ContractInfoView> {
    s.map_values(|c: ContractInfo| c@)
}

/// Interpolating at 0 through the shares of validators 0, 1 and 2 of a
/// polynomial with three coefficients gives its constant term back.
pub proof fn lemma_round_shares_recover(sc: ThresholdScheme)
    requires
        sc.polynomial@.len() == 3,
        0 <= sc.polynomial@[0] < PRIME,
    ensures
        lagrange_secret(round_shares(sc)) == sc.polynomial@[0],
{
    let idx = seq![0int, 1int, 2int];
    lemma_shares_recover(sc, idx);
    assert(round_shares(sc) =~= shares_at(sc, idx));
}

/// A scheme whose polynomial has three coefficients, the first its secret,
/// which lies in `1..PRIME`.
pub open spec fn three_of_n(sc: ThresholdScheme) -> bool {
    &&& sc.polynomial@.len() == 3
    &&& sc.polynomial@[0] == sc.secret
    &&& 0 < sc.secret < PRIME
}

/// What a node encrypts with its scheme, the shares of validators 0, 1 and 2
/// decrypt back.
pub proof fn lemma_round_roundtrip(sc: ThresholdScheme, plaintext: Seq<u8>)
    requires
        three_of_n(sc),
    ensures
        xor_stream(xor_stream(plaintext, derived_key(sc.secret)), derived_key(lagrange_secret(round_shares(sc)) as i128)) == plaintext,
{
    lemma_round_shares_recover(sc);
    lemma_xor_stream_twice(plaintext, derived_key(sc.secret));
}

impl NodeState {
    /// What the node relies on between rounds: a validator set, and a
    /// three-share scheme whose coefficients keep share arithmetic inside
    /// `i128`.
    pub open spec fn wf(&self) -> bool {
        &&& self.validators@.len() > 0
        &&& self.scheme.coeffs_small()
        &&& three_of_n(self.scheme)
    }

    /// `self` and `other` agree on the node's identity and address, its peers,
    /// where it listens, and its last measured throughput.
    pub open spec fn same_surroundings(&self, other: Self) -> bool {
        &&& self.identity == other.identity
        &&& self.my_address == other.my_address
        &&& self.peer_mgr == other.peer_mgr
        &&& self.local_ip == other.local_ip
        &&& self.port == other.port
        &&& self.last_tps == other.last_tps
    }

    /// A node at genesis: the validator set of `validators_for`, a fresh DAG
    /// over it, a 3-of-4 scheme seeded with 9999, an empty mempool, the genesis
    /// ledger, round 0.
    pub fn genesis(identity: NodeIdentity, peer_mgr: PeerManager, local_ip: String, port: u16) -> (s: Self)
        ensures
            s.wf(),
            s.identity == identity,
            s.my_address == identity.address,
            s.validators@ == validators_for(identity.address),
            s.dag@.validators == validators_for(identity.address),
            s.dag@.vertices.len() == 0,
            s.dag@.committed.is_empty(),
            s.dag@.current_round == 0,
            s.scheme.threshold == 3,
            s.scheme.total_validators == 4,
            s.scheme.secret == seed_secret(9999),
            s.scheme.polynomial@ == seq![seed_secret(9999), seed_coeff(9999, 1), seed_coeff(9999, 2)],
            s.dag@.threshold_f == ((validators_for(identity.address).len() - 1) as nat) / 3,
            s.mempool@.len() == 0,
            s.store@ == genesis_view(identity.address),
            s.peer_mgr == peer_mgr,
            s.round == 0,
            s.total_txs == 0,
            s.last_tps == 134_959,
            s.vertices_cache@.len() == 0,
            s.round_parents@.len() == 0,
            s.total_rewards == 0,
            s.local_ip == local_ip,
            s.port == port,
    {
        let me = identity.address;
        let validators = genesis_validators(me);
        let vs = clone_addresses(&validators);
        let dag = DagEngine::new(vs);
        let scheme = ThresholdScheme::new(3, 4, 9999);
        let mempool = EncryptedMempool::new();
        let store = genesis_store(me);
        NodeState {
            my_address: me,
            identity,
            validators,
            dag,
            scheme,
            mempool,
            store,
            peer_mgr,
            round: 0,
            total_txs: 0,
            last_tps: 134_959,
            vertices_cache: Vec::new(),
            round_parents: Vec::new(),
            total_rewards: 0,
            local_ip,
            port,
        }
    }

    /// Opens the next round: each validator in turn draws up to fifty
    /// transactions from the mempool, and makes up transfers
    /// (`simulated_tx`) to fill its batch to fifty.
    pub fn open_round(&mut self) -> (draws: Vec<Draw>)
        requires
            old(self).wf(),
            round_fits(old(self).round, old(self).validators@.len()),
        ensures
            final(self).wf(),
            final(self).round == old(self).round + 1,
            draws@.len() == old(self).validators@.len(),
            forall|i: int| 0 <= i < draws@.len() ==> etx_views((#[trigger] draws@[i]).pulled@) == drawn(old(self).mempool@, i),
            forall|i: int| 0 <= i < draws@.len() ==> (#[trigger] draws@[i]).made@.len() == 50 - draws@[i].pulled@.len(),
            forall|i: int, k: int| 0 <= i < draws@.len() && 0 <= k < draws@[i].made@.len() ==>
                #[trigger] draws@[i].made@[k] == simulated_tx(final(self).round, i as u64, (draws@[i].pulled@.len() + k) as u64),
            final(self).mempool@ == old(self).mempool@.skip(clip(50 * (old(self).validators@.len() as int), old(self).mempool@.len())),
            final(self).validators == old(self).validators,
            final(self).dag == old(self).dag,
            final(self).scheme == old(self).scheme,
            final(self).store == old(self).store,
            final(self).my_address == old(self).my_address,
            final(self).vertices_cache == old(self).vertices_cache,
            final(self).round_parents == old(self).round_parents,
            final(self).total_txs == old(self).total_txs,
            final(self).same_surroundings(*old(self)),
            final(self).total_rewards == old(self).total_rewards,
    {
        self.round = self.round + 1;
        let r = self.round;
        let n = self.validators.len();
        let ghost q = old(self).mempool@;
        let mut draws: Vec<Draw> = Vec::new();
        for idx in 0..n
            invariant
                n == self.validators@.len(),
                r == self.round,
                r == old(self).round + 1,
                round_fits(old(self).round, n as nat),
                self.validators == old(self).validators,
                self.dag == old(self).dag,
                self.scheme == old(self).scheme,
                self.store == old(self).store,
                self.my_address == old(self).my_address,
                self.vertices_cache == old(self).vertices_cache,
                self.round_parents == old(self).round_parents,
                self.total_txs == old(self).total_txs,
                self.same_surroundings(*old(self)),
                self.total_rewards == old(self).total_rewards,
                draws@.len() == idx,
                self.mempool@ == q.skip(clip(50 * idx, q.len())),
                forall|i: int| 0 <= i < idx ==> etx_views((#[trigger] draws@[i]).pulled@) == drawn(q, i),
                forall|i: int| 0 <= i < idx ==> (#[trigger] draws@[i]).made@.len() == 50 - draws@[i].pulled@.len(),
                forall|i: int, k: int| 0 <= i < idx && 0 <= k < draws@[i].made@.len() ==>
                    #[trigger] draws@[i].made@[k] == simulated_tx(r, i as u64, (draws@[i].pulled@.len() + k) as u64),
        {
            let ghost before = self.mempool@;
            let pulled = self.mempool.drain_batch(BATCH);
            proof {
                assert(etx_views(pulled@) =~= drawn(q, idx as int));
                assert(self.mempool@ =~= q.skip(clip(50 * (idx + 1), q.len())));
            }
            let have = pulled.len();
            let mut made: Vec<Transaction> = Vec::new();
            let mut k: usize = have;
            while k < BATCH
                invariant
                    have <= k <= BATCH,
                    have <= BATCH,
                    idx < n,
                    r == old(self).round + 1,
                    round_fits(old(self).round, n as nat),
                    made@.len() == k - have,
                    forall|j: int| 0 <= j < made@.len() ==> #[trigger] made@[j] == simulated_tx(r, idx as u64, (have + j) as u64),
                decreases BATCH - k,
            {
                let tx = simulated_transfer(r, idx as u64, k as u64);
                made.push(tx);
                k = k + 1;
            }
            draws.push(Draw { pulled, made });
        }
        draws
    }

    /// Closes the current round with each validator's batch, in validator
    /// order: builds the validators' vertices on the digests of the round
    /// before, inserts them into the DAG, keeps their digests as the next
    /// round's parents and their summaries (at most sixty kept), and gives all
    /// the round's transactions in order and this node's own vertex, if it
    /// is a validator.
    pub fn close_round(&mut self, batches: Vec<Vec<EncryptedTx>>) -> (out: (Vec<EncryptedTx>, Option<Vertex>))
        requires
            old(self).wf(),
            old(self).round >= 1,
            batches@.len() == old(self).validators@.len(),
        ensures
            ({
                let vals = old(self).validators@;
                let r = old(self).round;
                let vs = round_vertices(vals, r, parents_for(r, old(self).round_parents@), batch_views(batches@));
                &&& final(self).dag@ == insert_all(old(self).dag@, vs)
                &&& final(self).round_parents@ == digests(vs)
                &&& etx_views(out.0@) == flatten(batch_views(batches@))
                &&& summary_views(final(self).vertices_cache@) == last_n(summary_views(old(self).vertices_cache@) + round_summaries(vals, r, vs), 60)
                &&& (out.1 is Some <==> vals.contains(old(self).my_address))
                &&& (out.1 matches Some(v) ==> exists|j: int| 0 <= j < vals.len() && vals[j] == old(self).my_address && v@ == vs[j]
                        && forall|k: int| j < k < vals.len() ==> vals[k] != old(self).my_address)
            }),
            final(self).wf(),
            final(self).round == old(self).round,
            final(self).validators == old(self).validators,
            final(self).scheme == old(self).scheme,
            final(self).mempool == old(self).mempool,
            final(self).store == old(self).store,
            final(self).my_address == old(self).my_address,
            final(self).total_txs == old(self).total_txs,
            final(self).same_surroundings(*old(self)),
            final(self).total_rewards == old(self).total_rewards,
    {
        let r = self.round;
        let n = self.validators.len();
        let me = self.my_address;
        let anchor = self.validators[((r - 1) as usize) % n];
        let ghost vals = self.validators@;
        let ghost bviews = batch_views(batches@);
        let ghost vs = round_vertices(vals, r, parents_for(r, old(self).round_parents@), bviews);
        let ghost sums = round_summaries(vals, r, vs);
        let ghost cache0 = summary_views(old(self).vertices_cache@);
        let ghost mut mj: int = 0;
        let mut round_txs: Vec<EncryptedTx> = Vec::new();
        let mut hashes: Vec<Hash256> = Vec::new();
        let mut mine: Option<Vertex> = None;
        proof {
            assert(anchor == vals[(((r - 1) as usize) % (vals.len() as usize)) as int]);
        }
        for i in 0..n
            invariant
                n == vals.len(),
                n == batches@.len(),
                vals == self.validators@,
                r == self.round,
                r >= 1,
                me == self.my_address,
                anchor == vals[(((r - 1) as usize) % (vals.len() as usize)) as int],
                bviews == batch_views(batches@),
                vs == round_vertices(vals, r, parents_for(r, old(self).round_parents@), bviews),
                sums == round_summaries(vals, r, vs),
                cache0 == summary_views(old(self).vertices_cache@),
                self.validators == old(self).validators,
                self.scheme == old(self).scheme,
                self.mempool == old(self).mempool,
                self.store == old(self).store,
                self.my_address == old(self).my_address,
                self.total_txs == old(self).total_txs,
                self.same_surroundings(*old(self)),
                self.total_rewards == old(self).total_rewards,
                self.round == old(self).round,
                self.round_parents == old(self).round_parents,
                self.dag@ == insert_all(old(self).dag@, vs.take(i as int)),
                hashes@ == digests(vs.take(i as int)),
                etx_views(round_txs@) == flatten(bviews.take(i as int)),
                summary_views(self.vertices_cache@) == cache0 + sums.take(i as int),
                mine is None ==> forall|k: int| 0 <= k < i ==> vals[k] != me,
                mine matches Some(v) ==> 0 <= mj < i && vals[mj] == me && v@ == vs[mj] && forall|k: int| mj < k < i ==> vals[k] != me,
        {
            let val = self.validators[i];
            let parents = if r == 1 { Vec::new() } else { clone_hashes(&self.round_parents) };
            let txs = clone_encrypted_txs(&batches[i]);
            let mut for_round = clone_encrypted_txs(&batches[i]);
            let vertex = Vertex::new(val, r, parents, txs);
            proof {
                crate::execution::lemma_hash_with(vertex.hash);
                assert(parents_for(r, old(self).round_parents@) =~= vertex.parents@);
                assert(vertex@ == vs[i as int]);
            }
            let is_anchor = val.same(&anchor) && r > 1;
            let dto = VertexDTO::describe(&vertex, is_anchor);
            if val.same(&me) {
                mine = Some(vertex.clone());
                proof { mj = i as int; }
            }
            let h = vertex.hash;
            self.dag.insert_vertex(vertex);
            hashes.push(h);
            let ghost before_cache = self.vertices_cache@;
            self.vertices_cache.push(dto);
            proof {
                assert(summary_views(self.vertices_cache@) =~= summary_views(before_cache).push(dto@));
                assert(dto@ == sums[i as int]);
            }
            let ghost before_txs = round_txs@;
            round_txs.append(&mut for_round);
            proof {
                assert(vs.take(i + 1).drop_last() =~= vs.take(i as int));
                assert(bviews.take(i + 1).drop_last() =~= bviews.take(i as int));
                assert(digests(vs.take(i + 1)) =~= digests(vs.take(i as int)).push(h));
                assert(etx_views(round_txs@) =~= etx_views(before_txs) + bviews[i as int]);
                assert(summary_views(self.vertices_cache@) =~= cache0 + sums.take(i + 1));
            }
        }
        self.round_parents = hashes;
        let ghost full = self.vertices_cache@;
        keep_last(&mut self.vertices_cache, CACHE_LIMIT);
        proof {
            assert(vs.take(n as int) =~= vs);
            assert(bviews.take(n as int) =~= bviews);
            assert(sums.take(n as int) =~= sums);
            if full.len() > 60 {
                assert(summary_views(self.vertices_cache@) =~= summary_views(full).subrange(full.len() - 60, full.len() as int));
            }
            if mine is None {
                assert(!vals.contains(me));
            } else {
                assert(vals[mj] == me);
            }
        }
        (round_txs, mine)
    }

    /// Decrypts a round's transactions, in order, with the shares of
    /// validators 0, 1 and 2. Never fails: there are always shares.
    pub fn decrypt_round(&self, round_txs: &[EncryptedTx]) -> (r: Result<Vec<Vec<u8>>, &'static str>)
        requires
            self.wf(),
        ensures
            r is Ok,
            r matches Ok(p) ==> p@.len() == round_txs@.len() && forall|i: int| 0 <= i < p@.len() ==>
                (#[trigger] p@[i])@ == xor_stream(round_txs@[i].ciphertext@, derived_key(lagrange_secret(round_shares(self.scheme)) as i128)),
            lagrange_secret(round_shares(self.scheme)) == self.scheme.secret,
    {
        proof { lemma_round_shares_recover(self.scheme); }
        let mut shares: Vec<(i128, i128)> = Vec::new();
        shares.push(self.scheme.get_share(0));
        shares.push(self.scheme.get_share(1));
        shares.push(self.scheme.get_share(2));
        proof {
            assert(shares@ =~= round_shares(self.scheme));
            assert(shares_small(shares@));
        }
        EncryptedMempool::decrypt_ordered_batch(round_txs, shares.as_slice())
    }

    /// Executes a round's decrypted transactions on the ledger and counts
    /// them; `false`, changing nothing, where some transaction's arithmetic
    /// would overflow.
    pub fn apply_round(&mut self, txs: &[Transaction]) -> (applied: bool)
        requires
            old(self).total_txs + txs@.len() <= usize::MAX,
        ensures
            applied == run_seq(old(self).store@, txs@) is Some,
            applied ==> final(self).store@ == run_seq(old(self).store@, txs@).unwrap(),
            applied ==> final(self).total_txs == old(self).total_txs + txs@.len(),
            !applied ==> final(self).store@ == old(self).store@ && final(self).total_txs == old(self).total_txs,
            final(self).wf() == old(self).wf(),
            final(self).round == old(self).round,
            final(self).validators == old(self).validators,
            final(self).scheme == old(self).scheme,
            final(self).dag == old(self).dag,
            final(self).mempool == old(self).mempool,
            final(self).my_address == old(self).my_address,
            final(self).total_rewards == old(self).total_rewards,
            final(self).same_surroundings(*old(self)),
            final(self).vertices_cache == old(self).vertices_cache,
            final(self).round_parents == old(self).round_parents,
    {
        match BlockSTMExecutor::try_execute_block(txs, &self.store) {
            Some((store, _aborts)) => {
                self.store = store;
                self.total_txs = self.total_txs + txs.len();
                true
            }
            None => false,
        }
    }

    /// The transaction by which this node deploys `template` as `name`, and
    /// the address the contract will have: the node's current nonce, id
    /// `total_txs + 1000`, gas limit 100 000.
    pub fn deploy_request(&self, name: String, template: String, params: Vec<u64>) -> (r: (Address, Transaction))
        requires
            self.total_txs + 1000 <= u64::MAX,
        ensures
            ({
                let nonce = account_or_default(self.store@.accounts, self.my_address).nonce;
                &&& r.0.0@ == contract_address_bytes(self.my_address, nonce, name@)
                &&& r.1 == Transaction {
                    id: (self.total_txs + 1000) as u64,
                    sender: self.my_address,
                    nonce,
                    payload: TxPayload::DeployContract { name, template, params },
                    gas_limit: 100_000,
                }
            }),
    {
        let me = self.my_address;
        let nonce = self.store.get_account(&me).nonce;
        let addr = SmartContractEngine::derive_contract_address(&me, nonce, name.as_str());
        let tx = Transaction {
            id: self.total_txs as u64 + 1000,
            sender: me,
            nonce,
            payload: TxPayload::DeployContract { name, template, params },
            gas_limit: 100_000,
        };
        (addr, tx)
    }

    /// The transaction by which this node calls `method` of `contract`: the
    /// node's current nonce, id `total_txs + 1000`, gas limit 50 000.
    pub fn call_request(&self, contract: Address, method: String, args: Vec<u64>) -> (tx: Transaction)
        requires
            self.total_txs + 1000 <= u64::MAX,
        ensures
            tx == (Transaction {
                id: (self.total_txs + 1000) as u64,
                sender: self.my_address,
                nonce: account_or_default(self.store@.accounts, self.my_address).nonce,
                payload: TxPayload::CallContract { contract, method, args },
                gas_limit: 50_000,
            }),
    {
        let me = self.my_address;
        let nonce = self.store.get_account(&me).nonce;
        Transaction {
            id: self.total_txs as u64 + 1000,
            sender: me,
            nonce,
            payload: TxPayload::CallContract { contract, method, args },
            gas_limit: 50_000,
        }
    }

    /// The transaction a user submits through this node: a swap of `amount`
    /// in pool 1 accepting ten less, or a transfer of `amount` to account 102;
    /// nonce 0, id `total_txs + 999`, gas limit 21 000.
    pub fn user_request(&self, amount: u64, is_swap: bool) -> (tx: Transaction)
        requires
            self.total_txs + 999 <= u64::MAX,
        ensures
            tx == (Transaction {
                id: (self.total_txs + 999) as u64,
                sender: self.my_address,
                nonce: 0,
                payload: if is_swap {
                    TxPayload::Swap { pool_id: 1, amount_in: amount, min_out: if amount >= 10 { (amount - 10) as u64 } else { 0 } }
                } else {
                    TxPayload::Transfer { to: id_address(102), amount }
                },
                gas_limit: 21000,
            }),
    {
        let payload = if is_swap {
            TxPayload::Swap { pool_id: 1, amount_in: amount, min_out: amount.saturating_sub(10) }
        } else {
            let to = Address::new(102);
            proof { crate::execution::lemma_addr_with(to); }
            TxPayload::Transfer { to, amount }
        };
        Transaction { id: self.total_txs as u64 + 999, sender: self.my_address, nonce: 0, payload, gas_limit: 21000 }
    }

    /// Applies a transaction a peer gossiped, directly on the ledger
    /// (`gossip_effect`), and counts it; `false`, changing nothing, where its
    /// arithmetic would overflow.
    pub fn apply_gossip_tx(&mut self, tx: &Transaction) -> (applied: bool)
        requires
            old(self).total_txs < usize::MAX,
            tx.payload matches TxPayload::CallContract { args, .. } ==> call_gas(args@.len()) <= u64::MAX,
        ensures
            applied == gossip_effect(old(self).store@, *tx, old(self).round) is Some,
            applied ==> final(self).store@ == gossip_effect(old(self).store@, *tx, old(self).round).unwrap(),
            applied ==> final(self).total_txs == old(self).total_txs + 1,
            !applied ==> final(self).store@ == old(self).store@ && final(self).total_txs == old(self).total_txs,
            final(self).wf() == old(self).wf(),
            final(self).round == old(self).round,
            final(self).validators == old(self).validators,
            final(self).scheme == old(self).scheme,
            final(self).dag == old(self).dag,
            final(self).mempool == old(self).mempool,
            final(self).my_address == old(self).my_address,
            final(self).total_rewards == old(self).total_rewards,
            final(self).same_surroundings(*old(self)),
            final(self).vertices_cache == old(self).vertices_cache,
            final(self).round_parents == old(self).round_parents,
    {
        let ghost v = self.store@;
        match &tx.payload {
            TxPayload::DeployContract { name, template, params } => {
                deploy_into(&mut self.store, tx.sender, tx.nonce, self.round, name.as_str(), template.as_str(), params.as_slice());
            },
            TxPayload::CallContract { contract, method, args } => {
                match self.store.get_contract(contract) {
                    Some(info) => {
                        let ghost rd = |slot: u64| slot_or_zero(v.contract_slots, (*contract, slot));
                        let outcome = {
                            let st: &FlatStateStore = &self.store;
                            let reader = |slot: u64| -> (x: u64)
                                ensures
                                    x == slot_or_zero(st@.contract_slots, (*contract, slot)),
                            {
                                st.get_contract_slot(contract, slot)
                            };
                            proof {
                                assert forall|slot: u64, x: u64| #[trigger] reader.ensures((slot,), x) implies x == rd(slot) by {}
                            }
                            SmartContractEngine::run_call(tx.sender, &info, method.as_str(), args.as_slice(), &reader, Ghost(rd))
                        };
                        match outcome {
                            Some((_res, _reads, writes)) => {
                                write_contract_slots(&mut self.store, *contract, &writes);
                            },
                            None => {
                                return false;
                            },
                        }
                    },
                    None => {},
                }
            },
            TxPayload::Transfer { to, amount } => {
                let f = self.store.get_account(&tx.sender);
                let t = self.store.get_account(to);
                if f.balance >= *amount && !tx.sender.same(to) && t.balance > u64::MAX - *amount {
                    return false;
                }
                self.store.transfer(tx.sender, *to, *amount);
                proof {
                    assert(self.store@ =~= gossip_effect(v, *tx, self.round).unwrap());
                }
            },
            TxPayload::Swap { .. } => {},
        }
        self.total_txs = self.total_txs + 1;
        true
    }

    /// Takes in the state a peer sent: its contracts this node lacks, all its
    /// contract slots, its vertices (each unless the DAG has its digest), and
    /// its round where that is ahead.
    pub fn apply_sync(&mut self, contracts: Vec<ContractInfo>, contract_slots: Vec<(Address, u64, u64)>, vertices: Vec<Vertex>, latest_round: u64)
        ensures
            final(self).store@ == (StoreView {
                contracts: register_missing(old(self).store@.contracts, contract_views(contracts@)),
                contract_slots: fold_insert(old(self).store@.contract_slots, slot_triples(contract_slots@)),
                ..old(self).store@
            }),
            final(self).dag@ == insert_all(old(self).dag@, vertex_views(vertices@)),
            final(self).round == if latest_round > old(self).round { latest_round } else { old(self).round },
            final(self).wf() == old(self).wf(),
            final(self).validators == old(self).validators,
            final(self).scheme == old(self).scheme,
            final(self).mempool == old(self).mempool,
            final(self).my_address == old(self).my_address,
            final(self).total_txs == old(self).total_txs,
            final(self).total_rewards == old(self).total_rewards,
            final(self).same_surroundings(*old(self)),
            final(self).vertices_cache == old(self).vertices_cache,
            final(self).round_parents == old(self).round_parents,
    {
        let ghost cs = contract_views(contracts@);
        let ghost s0 = self.store@;
        let n = contracts.len();
        for i in 0..n
            invariant
                n == contracts@.len(),
                cs == contract_views(contracts@),
                self.store@ == (StoreView { contracts: register_missing(s0.contracts, cs.take(i as int)), ..s0 }),
                s0 == old(self).store@,
                self.dag == old(self).dag,
                self.validators == old(self).validators,
                self.scheme == old(self).scheme,
                self.mempool == old(self).mempool,
                self.my_address == old(self).my_address,
                self.total_txs == old(self).total_txs,
                self.same_surroundings(*old(self)),
                self.total_rewards == old(self).total_rewards,
                self.vertices_cache == old(self).vertices_cache,
                self.round_parents == old(self).round_parents,
                self.total_rewards == old(self).total_rewards,
                self.round == old(self).round,
        {
            let c = contracts[i].clone();
            proof { assert(cs.take(i + 1).drop_last() =~= cs.take(i as int)); }
            if self.store.get_contract(&c.address).is_none() {
                self.store.register_contract(c);
            }
            proof { assert(self.store@ =~= (StoreView { contracts: register_missing(s0.contracts, cs.take(i + 1)), ..s0 })); }
        }
        proof { assert(cs.take(n as int) =~= cs); }
        let ghost s1 = self.store@;
        let ghost ts = slot_triples(contract_slots@);
        let m = contract_slots.len();
        for i in 0..m
            invariant
                m == contract_slots@.len(),
                ts == slot_triples(contract_slots@),
                self.store@ == (StoreView { contract_slots: fold_insert(s1.contract_slots, ts.take(i as int)), ..s1 }),
                self.dag == old(self).dag,
                self.validators == old(self).validators,
                self.scheme == old(self).scheme,
                self.mempool == old(self).mempool,
                self.my_address == old(self).my_address,
                self.total_txs == old(self).total_txs,
                self.same_surroundings(*old(self)),
                self.total_rewards == old(self).total_rewards,
                self.vertices_cache == old(self).vertices_cache,
                self.round_parents == old(self).round_parents,
                self.total_rewards == old(self).total_rewards,
                self.round == old(self).round,
        {
            let t = contract_slots[i];
            self.store.set_contract_slot(t.0, t.1, t.2);
            proof {
                assert(ts.take(i + 1).drop_last() =~= ts.take(i as int));
                assert(self.store@ =~= (StoreView { contract_slots: fold_insert(s1.contract_slots, ts.take(i + 1)), ..s1 }));
            }
        }
        proof { assert(ts.take(m as int) =~= ts); }
        let ghost vs = vertex_views(vertices@);
        let ghost d0 = self.dag@;
        let ghost s2 = self.store@;
        let k = vertices.len();
        for i in 0..k
            invariant
                k == vertices@.len(),
                vs == vertex_views(vertices@),
                self.dag@ == insert_all(d0, vs.take(i as int)),
                d0 == old(self).dag@,
                self.store@ == s2,
                self.validators == old(self).validators,
                self.scheme == old(self).scheme,
                self.mempool == old(self).mempool,
                self.my_address == old(self).my_address,
                self.total_txs == old(self).total_txs,
                self.same_surroundings(*old(self)),
                self.total_rewards == old(self).total_rewards,
                self.vertices_cache == old(self).vertices_cache,
                self.round_parents == old(self).round_parents,
                self.total_rewards == old(self).total_rewards,
                self.round == old(self).round,
        {
            let v = vertices[i].clone();
            proof { assert(vs.take(i + 1).drop_last() =~= vs.take(i as int)); }
            self.dag.insert_vertex(v);
        }
        proof { assert(vs.take(k as int) =~= vs); }
        if latest_round > self.round {
            self.round = latest_round;
        }
    }

    /// Credits this node the ten-unit reward of a finished round.
    pub fn collect_reward(&mut self)
        requires
            account_or_default(old(self).store@.accounts, old(self).my_address).balance + 10 <= u64::MAX,
            old(self).total_rewards + 10 <= u64::MAX,
        ensures
            final(self).store@ == deposited(old(self).store@, old(self).my_address, 10),
            final(self).total_rewards == old(self).total_rewards + 10,
            final(self).wf() == old(self).wf(),
            final(self).round == old(self).round,
            final(self).validators == old(self).validators,
            final(self).scheme == old(self).scheme,
            final(self).dag == old(self).dag,
            final(self).mempool == old(self).mempool,
            final(self).my_address == old(self).my_address,
            final(self).total_txs == old(self).total_txs,
            final(self).same_surroundings(*old(self)),
            final(self).vertices_cache == old(self).vertices_cache,
            final(self).round_parents == old(self).round_parents,
    {
        let me = self.my_address;
        self.store.deposit(me, 10);
        self.total_rewards = self.total_rewards + 10;
    }
}

/// A copy of a list of addresses.
fn clone_addresses(v: &Vec<Address>) -> (c: Vec<Address>)
    ensures
        c@ == v@,
{
    let mut c: Vec<Address> = Vec::new();
    for i in 0..v.len()
        invariant
            c@ == v@.subrange(0, i as int),
    {
        c.push(v[i]);
        proof { assert(c@ =~= v@.subrange(0, i + 1)); }
    }
    proof { assert(v@.subrange(0, v@.len() as int) =~= v@); }
    c
}

} // verus!
