//! The node's own rules: the genesis validator set and ledger, the simulated
//! load of a round, the round's leader, and the vertex summaries the
//! dashboard shows.
use vstd::prelude::*;

use crate::assoc::{AssocMap, fold_insert};
use crate::execution::{addr_with, deployed_info};
use crate::storage::{FlatStateStore, StoreView, account_or_default};
use crate::types::{AccountState, Address, ContractInfoView, Hash256, Transaction, TxPayload, Vertex, VertexView, address_bytes, hash_display};
use crate::types::hex::hex_lower;
use crate::vm::{SmartContractEngine, deploy_entries, lowercase};

verus! {

/// The address `Address::new(id)` builds.
pub open spec fn id_address(id: u64) -> Address {
    addr_with(address_bytes(id))
}

/// `Address::new(id)` is `id_address(id)`.
proof fn lemma_id_address(id: u64, a: Address)
    requires
        a.0@ == address_bytes(id),
    ensures
        a == id_address(id),
{
    crate::execution::lemma_addr_with(a);
}

// ---------------------------------------------------------------------------
// Genesis

/// The four genesis validators, 101 to 104.
pub open spec fn base_validators() -> Seq<Address> {
    seq![id_address(101), id_address(102), id_address(103), id_address(104)]
}

/// The validator set a node starts with: the genesis validators, and the node
/// itself where it is not one of them.
pub open spec fn validators_for(me: Address) -> Seq<Address> {
    if base_validators().contains(me) { base_validators() } else { base_validators().push(me) }
}

/// The validator set a node starts with.
pub fn genesis_validators(me: Address) -> (v: Vec<Address>)
    ensures
        v@ == validators_for(me),
{
    let mut v: Vec<Address> = Vec::new();
    let a = Address::new(101);
    let b = Address::new(102);
    let c = Address::new(103);
    let d = Address::new(104);
    proof {
        lemma_id_address(101, a);
        lemma_id_address(102, b);
        lemma_id_address(103, c);
        lemma_id_address(104, d);
    }
    v.push(a);
    v.push(b);
    v.push(c);
    v.push(d);
    proof { assert(v@ =~= base_validators()); }
    let present = me.same(&a) || me.same(&b) || me.same(&c) || me.same(&d);
    proof {
        let bv = base_validators();
        if bv.contains(me) {
            let i = choose|i: int| 0 <= i < bv.len() && bv[i] == me;
            assert(present);
        } else {
            assert(bv[0] == a && bv[1] == b && bv[2] == c && bv[3] == d);
        }
    }
    if !present {
        v.push(me);
    }
    v
}

/// `v` with `amt` added to the balance of `a`.
pub open spec fn deposited(v: StoreView, a: Address, amt: u64) -> StoreView {
    StoreView {
        accounts: v.accounts.insert(a, AccountState {
            balance: (account_or_default(v.accounts, a).balance + amt) as u64,
            nonce: account_or_default(v.accounts, a).nonce,
        }),
        ..v
    }
}

/// Contract slot entries `s` of the contract at `c`, keyed by contract and slot.
pub open spec fn keyed_slots(c: Address, s: Seq<(u64, u64)>) -> Seq<((Address, u64), u64)> {
    s.map_values(|e: (u64, u64)| ((c, e.0), e.1))
}

/// The metadata of the contract `name` of `template` deployed by `creator` at
/// `nonce` in round `round`.
pub open spec fn deployed_at(creator: Address, nonce: u64, round: u64, name: Seq<char>, template: Seq<char>) -> ContractInfoView {
    ContractInfoView { created_at_round: round, ..deployed_info(creator, nonce, name, template) }
}

/// `v` with the contract `name` of `template` deployed by `creator` at `nonce`
/// in round `round`, and its initial storage.
pub open spec fn with_deployment(v: StoreView, creator: Address, nonce: u64, round: u64, name: Seq<char>, template: Seq<char>, params: Seq<u64>) -> StoreView {
    let info = deployed_at(creator, nonce, round, name, template);
    StoreView {
        contracts: v.contracts.insert(info.address, info),
        contract_slots: fold_insert(v.contract_slots, keyed_slots(info.address, deploy_entries(creator, lowercase(template), params))),
        ..v
    }
}

/// The empty ledger.
pub open spec fn empty_view() -> StoreView {
    StoreView {
        accounts: Map::empty(),
        storage_slots: Map::empty(),
        contracts: Map::empty(),
        contract_slots: Map::empty(),
    }
}

/// The ledger a node starts from: one million for the node and for account 101,
/// half a million for 102; seven contracts deployed by 101 (a counter, a token,
/// a vault, a Uniswap pool, a MakerDAO vault, a Raydium pool and an SPL token);
/// account 101 then at one million with nonce 7.
pub open spec fn genesis_view(me: Address) -> StoreView {
    let g = id_address(101);
    let v1 = deposited(deposited(deposited(empty_view(), me, 1_000_000), g, 1_000_000), id_address(102), 500_000);
    let v2 = with_deployment(v1, g, 0, 0, "GenesisCounter"@, "counter"@, seq![42u64]);
    let v3 = with_deployment(v2, g, 1, 0, "AetherCommunityToken"@, "token"@, seq![1_000_000u64]);
    let v4 = with_deployment(v3, g, 2, 0, "HighYieldVault"@, "vault"@, seq![5u64]);
    let v5 = with_deployment(v4, g, 3, 0, "UniswapV2_ETH_USDC"@, "uniswap_v2"@, seq![10_000u64, 20_000_000u64]);
    let v6 = with_deployment(v5, g, 4, 0, "MakerDAO_CDP"@, "maker_cdp"@, seq![2_000u64, 150u64]);
    let v7 = with_deployment(v6, g, 5, 0, "Raydium_SOL_USDC"@, "raydium"@, seq![50_000u64, 7_500_000u64]);
    let v8 = with_deployment(v7, g, 6, 0, "SPL_USDC_Token"@, "spl_token"@, seq![100_000_000u64]);
    StoreView { accounts: v8.accounts.insert(g, AccountState { balance: 1_000_000, nonce: 7 }), ..v8 }
}

/// Writes `slots` into the storage of the contract at `contract`, in order.
pub(crate) fn write_contract_slots(store: &mut FlatStateStore, contract: Address, slots: &AssocMap<u64, u64>)
    ensures
        final(store)@ == (StoreView { contract_slots: fold_insert(old(store)@.contract_slots, keyed_slots(contract, slots.entries())), ..old(store)@ }),
{
    let ghost es = slots.entries();
    let n = slots.len();
    for i in 0..n
        invariant
            n == es.len(),
            es == slots.entries(),
            store@ == (StoreView { contract_slots: fold_insert(old(store)@.contract_slots, keyed_slots(contract, es.subrange(0, i as int))), ..old(store)@ }),
    {
        let e = *slots.entry(i);
        store.set_contract_slot(contract, e.0, e.1);
        proof {
            assert(keyed_slots(contract, es.subrange(0, i + 1)).drop_last() =~= keyed_slots(contract, es.subrange(0, i as int)));
            assert(keyed_slots(contract, es.subrange(0, i + 1)).last() == ((contract, e.0), e.1));
            assert(store@ =~= (StoreView { contract_slots: fold_insert(old(store)@.contract_slots, keyed_slots(contract, es.subrange(0, i + 1))), ..old(store)@ }));
        }
    }
    proof { assert(es.subrange(0, n as int) =~= es); }
}

/// Deploys a contract into `store` in round `round`: registers it and sets
/// its initial slots.
pub(crate) fn deploy_into(store: &mut FlatStateStore, creator: Address, nonce: u64, round: u64, name: &str, template: &str, params: &[u64])
    ensures
        final(store)@ == with_deployment(old(store)@, creator, nonce, round, name@, template@, params@),
{
    let (info, slots) = SmartContractEngine::deploy_entries(creator, nonce, round, name, template, params);
    let addr = info.address;
    proof {
        crate::execution::lemma_addr_with(addr);
        assert(info@ == deployed_at(creator, nonce, round, name@, template@));
    }
    store.register_contract(info);
    write_contract_slots(store, addr, &slots);
    proof {
        assert(store@ =~= with_deployment(old(store)@, creator, nonce, round, name@, template@, params@));
    }
}

/// The ledger a node starts from.
pub fn genesis_store(me: Address) -> (s: FlatStateStore)
    ensures
        s@ == genesis_view(me),
{
    let g = Address::new(101);
    let h = Address::new(102);
    proof {
        lemma_id_address(101, g);
        lemma_id_address(102, h);
    }
    let mut store = FlatStateStore::new();
    proof { assert(store@ =~= empty_view()); }
    store.deposit(me, 1_000_000);
    proof { assert(store@ =~= deposited(empty_view(), me, 1_000_000)); }
    let ghost v = store@;
    store.deposit(g, 1_000_000);
    proof { assert(store@ =~= deposited(v, g, 1_000_000)); }
    let ghost v = store@;
    store.deposit(h, 500_000);
    proof { assert(store@ =~= deposited(v, h, 500_000)); }
    let ghost v1 = store@;
    let p1: [u64; 1] = [42];
    deploy_into(&mut store, g, 0, 0, "GenesisCounter", "counter", &p1);
    proof { assert(p1@ =~= seq![42u64]); }
    let ghost v2 = store@;
    assert(v2 == with_deployment(v1, id_address(101), 0, 0, "GenesisCounter"@, "counter"@, seq![42u64]));
    let p2: [u64; 1] = [1_000_000];
    deploy_into(&mut store, g, 1, 0, "AetherCommunityToken", "token", &p2);
    proof { assert(p2@ =~= seq![1_000_000u64]); }
    let ghost v3 = store@;
    assert(v3 == with_deployment(v2, id_address(101), 1, 0, "AetherCommunityToken"@, "token"@, seq![1_000_000u64]));
    let p3: [u64; 1] = [5];
    deploy_into(&mut store, g, 2, 0, "HighYieldVault", "vault", &p3);
    proof { assert(p3@ =~= seq![5u64]); }
    let ghost v4 = store@;
    assert(v4 == with_deployment(v3, id_address(101), 2, 0, "HighYieldVault"@, "vault"@, seq![5u64]));
    let p4: [u64; 2] = [10_000, 20_000_000];
    deploy_into(&mut store, g, 3, 0, "UniswapV2_ETH_USDC", "uniswap_v2", &p4);
    proof { assert(p4@ =~= seq![10_000u64, 20_000_000u64]); }
    let ghost v5 = store@;
    assert(v5 == with_deployment(v4, id_address(101), 3, 0, "UniswapV2_ETH_USDC"@, "uniswap_v2"@, seq![10_000u64, 20_000_000u64]));
    let p5: [u64; 2] = [2_000, 150];
    deploy_into(&mut store, g, 4, 0, "MakerDAO_CDP", "maker_cdp", &p5);
    proof { assert(p5@ =~= seq![2_000u64, 150u64]); }
    let ghost v6 = store@;
    assert(v6 == with_deployment(v5, id_address(101), 4, 0, "MakerDAO_CDP"@, "maker_cdp"@, seq![2_000u64, 150u64]));
    let p6: [u64; 2] = [50_000, 7_500_000];
    deploy_into(&mut store, g, 5, 0, "Raydium_SOL_USDC", "raydium", &p6);
    proof { assert(p6@ =~= seq![50_000u64, 7_500_000u64]); }
    let ghost v7 = store@;
    assert(v7 == with_deployment(v6, id_address(101), 5, 0, "Raydium_SOL_USDC"@, "raydium"@, seq![50_000u64, 7_500_000u64]));
    let p7: [u64; 1] = [100_000_000];
    deploy_into(&mut store, g, 6, 0, "SPL_USDC_Token", "spl_token", &p7);
    proof { assert(p7@ =~= seq![100_000_000u64]); }
    let ghost v8 = store@;
    assert(v8 == with_deployment(v7, id_address(101), 6, 0, "SPL_USDC_Token"@, "spl_token"@, seq![100_000_000u64]));
    let ghost v = store@;
    store.set_account(g, AccountState { balance: 1_000_000, nonce: 7 });
    proof { assert(store@ =~= (StoreView { accounts: v.accounts.insert(g, AccountState { balance: 1_000_000, nonce: 7 }), ..v })); }
    store
}

// ---------------------------------------------------------------------------
// Rounds

/// The anchor author of round `round` (from 1): validator `(round - 1) % n`.
pub fn leader_for_round(validators: &[Address], round: u64) -> (a: Address)
    requires
        validators@.len() > 0,
        round >= 1,
    ensures
        a == validators@[(((round - 1) as usize) % (validators@.len() as usize)) as int],
{
    validators[((round - 1) as usize) % validators.len()]
}

/// The `k`-th transfer a validator at position `idx` makes up in round `round`
/// when the mempool runs short: from account `100 + k % 4` to `200 + k % 10`,
/// ten units, id `round * 1000 + idx * 50 + k`.
pub open spec fn simulated_tx(round: u64, idx: u64, k: u64) -> Transaction {
    Transaction {
        id: (round * 1000 + idx * 50 + k) as u64,
        sender: id_address((100 + k % 4) as u64),
        nonce: 0,
        payload: TxPayload::Transfer { to: id_address((200 + k % 10) as u64), amount: 10 },
        gas_limit: 21000,
    }
}

/// The `k`-th transfer a validator at position `idx` makes up in round `round`.
pub fn simulated_transfer(round: u64, idx: u64, k: u64) -> (tx: Transaction)
    requires
        round * 1000 + idx * 50 + k <= u64::MAX,
    ensures
        tx == simulated_tx(round, idx, k),
{
    let from = Address::new(100 + k % 4);
    let to = Address::new(200 + k % 10);
    proof {
        lemma_id_address((100 + k % 4) as u64, from);
        lemma_id_address((200 + k % 10) as u64, to);
    }
    Transaction { id: round * 1000 + idx * 50 + k, sender: from, nonce: 0, payload: TxPayload::Transfer { to, amount: 10 }, gas_limit: 21000 }
}

/// What the dashboard shows of one vertex.
pub struct VertexDTO {
    pub author: String,
    pub round: u64,
    pub parents: Vec<String>,
    pub hash: String,
    pub is_anchor: bool,
}

/// The contents of a list of strings.
pub open spec fn texts_of(v: Seq<String>) -> Seq<Seq<char>> {
    v.map_values(|s: String| s@)
}

/// What a vertex summary says, as text.
pub struct SummaryView {
    pub author: Seq<char>,
    pub round: u64,
    pub parents: Seq<Seq<char>>,
    pub hash: Seq<char>,
    pub is_anchor: bool,
}

/// The summary of vertex `v`: its author in hex, its round, the short digests
/// of its parents and of itself, and whether it is its round's anchor.
pub open spec fn summary_of(v: VertexView, is_anchor: bool) -> SummaryView {
    SummaryView {
        author: "0x"@ + hex_lower(v.author.0@),
        round: v.round,
        parents: v.parents.map_values(|p: Hash256| hash_display(p)),
        hash: hash_display(v.hash),
        is_anchor,
    }
}

impl View for VertexDTO {
    type V = SummaryView;

    open spec fn view(&self) -> SummaryView {
        SummaryView {
            author: self.author@,
            round: self.round,
            parents: texts_of(self.parents@),
            hash: self.hash@,
            is_anchor: self.is_anchor,
        }
    }
}

/// The views of a list of summaries.
pub open spec fn summary_views(v: Seq<VertexDTO>) -> Seq<SummaryView> {
    v.map_values(|d: VertexDTO| d@)
}

impl VertexDTO {
    /// The summary of `v`: its author in hex, its round, the short digests of its
    /// parents and of itself, and whether it is its round's anchor.
    pub fn describe(v: &Vertex, is_anchor: bool) -> (d: VertexDTO)
        ensures
            d.view() == summary_of(v@, is_anchor),
    {
        let mut parents: Vec<String> = Vec::new();
        let n = v.parents.len();
        for i in 0..n
            invariant
                n == v.parents@.len(),
                texts_of(parents@) == v.parents@.subrange(0, i as int).map_values(|p: Hash256| hash_display(p)),
        {
            let s = v.parents[i].display_string();
            let ghost before = parents@;
            parents.push(s);
            proof {
                assert(texts_of(parents@) =~= texts_of(before).push(s@));
                assert(v.parents@.subrange(0, i + 1).map_values(|p: Hash256| hash_display(p)) =~= v.parents@.subrange(0, i as int).map_values(|p: Hash256| hash_display(p)).push(hash_display(v.parents@[i as int])));
            }
        }
        proof { assert(v.parents@.subrange(0, n as int) =~= v.parents@); }
        VertexDTO { author: v.author.to_hex(), round: v.round, parents, hash: v.hash.display_string(), is_anchor }
    }
}

/// Keeps only the last `max` entries of `v`.
pub fn keep_last<T>(v: &mut Vec<T>, max: usize)
    ensures
        final(v)@ == if old(v)@.len() > max { old(v)@.subrange(old(v)@.len() - max, old(v)@.len() as int) } else { old(v)@ },
{
    let n = v.len();
    if n > max {
        let tail = v.split_off(n - max);
        *v = tail;
    }
}

} // verus!
