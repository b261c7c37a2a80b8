//! Block execution: a sequential executor and a Block-STM executor over
//! multi-version memory, with the state each leaves behind.
use vstd::prelude::*;

use crate::assoc::{AssocMap, KeyEq, upsert, entries_map, keys_distinct, fold_insert, lemma_fold_insert_append};
use crate::storage::{FlatStateStore, StoreView, account_or_default, slot_or_zero, fold_contracts};
use crate::types::{AccountState, Address, ContractInfo, ContractInfoView, Hash256, Transaction, TxPayload, address_bytes, sha256, sha256_digest};
use crate::vm::{SmartContractEngine, VmOutcome, vm_call, call_gas, lowercase, deploy_entries, contract_address_bytes, reader_fn, reader_ok};

verus! {

/// A location of the ledger state as the executors see it.
#[derive(Clone, Copy, Debug, PartialEq, Eq, Hash, PartialOrd, Ord)]
pub enum StateKey {
    Account(Address),
    Pool(u64),
    ContractMeta(Address),
    ContractSlot(Address, u64),
}

impl KeyEq for StateKey {
    fn key_eq(&self, other: &Self) -> (b: bool) {
        match (self, other) {
            (StateKey::Account(a), StateKey::Account(b)) => a.same(b),
            (StateKey::Pool(a), StateKey::Pool(b)) => *a == *b,
            (StateKey::ContractMeta(a), StateKey::ContractMeta(b)) => a.same(b),
            (StateKey::ContractSlot(a, x), StateKey::ContractSlot(b, y)) => a.same(b) && *x == *y,
            _ => false,
        }
    }
}

impl KeyEq for (StateKey, usize) {
    fn key_eq(&self, other: &Self) -> (b: bool) {
        self.0.key_eq(&other.0) && self.1 == other.1
    }
}

/// The value at a state location.
#[derive(Debug, PartialEq, Eq)]
pub enum StateValue {
    Account(AccountState),
    Pool { reserve_a: u64, reserve_b: u64 },
    ContractMeta(Option<ContractInfo>),
    ContractSlot(u64),
}

/// The contents of a state value.
pub enum ValueView {
    Account(AccountState),
    Pool { reserve_a: u64, reserve_b: u64 },
    ContractMeta(Option<ContractInfoView>),
    ContractSlot(u64),
}

impl View for StateValue {
    type V = ValueView;

    open spec fn view(&self) -> ValueView {
        match self {
            StateValue::Account(a) => ValueView::Account(*a),
            StateValue::Pool { reserve_a, reserve_b } => ValueView::Pool { reserve_a: *reserve_a, reserve_b: *reserve_b },
            StateValue::ContractMeta(c) => ValueView::ContractMeta(match c {
                Some(i) => Some(i@),
                None => None,
            }),
            StateValue::ContractSlot(v) => ValueView::ContractSlot(*v),
        }
    }
}

impl Clone for StateValue {
    fn clone(&self) -> (r: Self)
        ensures
            r@ == self@,
    {
        match self {
            StateValue::Account(a) => StateValue::Account(*a),
            StateValue::Pool { reserve_a, reserve_b } => StateValue::Pool { reserve_a: *reserve_a, reserve_b: *reserve_b },
            StateValue::ContractMeta(c) => StateValue::ContractMeta(match c {
                Some(i) => Some(i.clone()),
                None => None,
            }),
            StateValue::ContractSlot(v) => StateValue::ContractSlot(*v),
        }
    }
}

/// Which write a read saw: the base store, or transaction `i`'s write.
#[derive(Clone, Copy, Debug, PartialEq, Eq, Structural)]
pub enum TxVersion {
    Storage,
    Tx(usize),
}

/// The bytes `b"reserve_a"`.
pub open spec fn reserve_a_bytes() -> Seq<u8> {
    seq![114u8, 101u8, 115u8, 101u8, 114u8, 118u8, 101u8, 95u8, 97u8]
}

/// The bytes `b"reserve_b"`.
pub open spec fn reserve_b_bytes() -> Seq<u8> {
    seq![114u8, 101u8, 115u8, 101u8, 114u8, 118u8, 101u8, 95u8, 98u8]
}

/// The address whose bytes are `b`.
pub open spec fn addr_with(b: Seq<u8>) -> Address {
    choose|a: Address| a.0@ == b
}

/// The digest whose bytes are `b`.
pub open spec fn hash_with(b: Seq<u8>) -> Hash256 {
    choose|h: Hash256| h.0@ == b
}

/// The address that holds pool `id`'s reserves: `Address::new(id)`.
pub open spec fn pool_addr(id: u64) -> Address {
    addr_with(address_bytes(id))
}

/// The storage slot of a pool's first reserve: SHA-256 of `b"reserve_a"`.
pub open spec fn slot_a() -> Hash256 {
    hash_with(sha256(reserve_a_bytes()))
}

/// The storage slot of a pool's second reserve: SHA-256 of `b"reserve_b"`.
pub open spec fn slot_b() -> Hash256 {
    hash_with(sha256(reserve_b_bytes()))
}

/// An address is the address with its own bytes.
pub proof fn lemma_addr_with(a: Address)
    ensures
        addr_with(a.0@) == a,
{
    let c = addr_with(a.0@);
    assert(c.0@ == a.0@);
    assert(c.0 =~= a.0);
}

/// A digest is the digest with its own bytes.
pub proof fn lemma_hash_with(h: Hash256)
    ensures
        hash_with(h.0@) == h,
{
    let c = hash_with(h.0@);
    assert(c.0@ == h.0@);
    assert(c.0 =~= h.0);
}

/// A pool reserve as read from storage: zero stands for the default of ten million.
pub open spec fn reserve_or_default(x: u64) -> u64 {
    if x == 0 { 10_000_000 } else { x }
}

/// The value at `k` in the store `v`, as the executors read it.
pub open spec fn base_read(v: StoreView, k: StateKey) -> ValueView {
    match k {
        StateKey::Account(a) => ValueView::Account(account_or_default(v.accounts, a)),
        StateKey::Pool(id) => ValueView::Pool {
            reserve_a: reserve_or_default(slot_or_zero(v.storage_slots, (pool_addr(id), slot_a()))),
            reserve_b: reserve_or_default(slot_or_zero(v.storage_slots, (pool_addr(id), slot_b()))),
        },
        StateKey::ContractMeta(a) => ValueView::ContractMeta(
            if v.contracts.contains_key(a) { Some(v.contracts[a]) } else { None },
        ),
        StateKey::ContractSlot(a, s) => ValueView::ContractSlot(slot_or_zero(v.contract_slots, (a, s))),
    }
}

/// The reader of the store `v`.
pub open spec fn store_reader(v: StoreView) -> spec_fn(StateKey) -> ValueView {
    |k: StateKey| base_read(v, k)
}

/// The store `v` with one write applied.
pub open spec fn apply_entry(v: StoreView, e: (StateKey, ValueView)) -> StoreView {
    match (e.0, e.1) {
        (StateKey::Account(a), ValueView::Account(s)) => StoreView { accounts: v.accounts.insert(a, s), ..v },
        (StateKey::Pool(id), ValueView::Pool { reserve_a, reserve_b }) => StoreView {
            storage_slots: v.storage_slots.insert((pool_addr(id), slot_a()), reserve_a).insert((pool_addr(id), slot_b()), reserve_b),
            ..v
        },
        (StateKey::ContractMeta(_), ValueView::ContractMeta(Some(info))) => StoreView {
            contracts: v.contracts.insert(info.address, info),
            ..v
        },
        (StateKey::ContractSlot(a, s), ValueView::ContractSlot(x)) => StoreView {
            contract_slots: v.contract_slots.insert((a, s), x),
            ..v
        },
        _ => v,
    }
}

/// The store `v` with a list of writes applied in order.
pub open spec fn apply_entries(v: StoreView, s: Seq<(StateKey, ValueView)>) -> StoreView
    decreases s.len(),
{
    if s.len() == 0 {
        v
    } else {
        apply_entry(apply_entries(v, s.drop_last()), s.last())
    }
}

/// The account in a read value (zero balance and nonce if it is not one).
pub open spec fn acct_of(v: ValueView) -> AccountState {
    match v {
        ValueView::Account(a) => a,
        _ => AccountState { balance: 0, nonce: 0 },
    }
}

/// The reserves in a read value (ten million each if it is not a pool).
pub open spec fn pool_of(v: ValueView) -> (u64, u64) {
    match v {
        ValueView::Pool { reserve_a, reserve_b } => (reserve_a, reserve_b),
        _ => (10_000_000, 10_000_000),
    }
}

/// The number in a read value (zero if it is not a contract slot).
pub open spec fn slot_val(v: ValueView) -> u64 {
    match v {
        ValueView::ContractSlot(x) => x,
        _ => 0,
    }
}

/// The metadata of a contract deployed by `sender` at `nonce`.
pub open spec fn deployed_info(sender: Address, nonce: u64, name: Seq<char>, template: Seq<char>) -> ContractInfoView {
    ContractInfoView {
        address: addr_with(contract_address_bytes(sender, nonce, name)),
        name: name,
        template: lowercase(template),
        creator: sender,
        created_at_round: 0,
    }
}

/// Contract slot writes as state writes of the contract at `c`.
pub open spec fn slot_entries(c: Address, w: Seq<(u64, u64)>) -> Seq<(StateKey, ValueView)> {
    w.map_values(|e: (u64, u64)| (StateKey::ContractSlot(c, e.0), ValueView::ContractSlot(e.1)))
}

/// The write set of `tx` when it reads state through `rd`, in the order the writes
/// are made (a second write to a key replaces the first); `None` where the
/// transaction's arithmetic overflows.
#[verifier::opaque]
pub open spec fn tx_entries(tx: Transaction, rd: spec_fn(StateKey) -> ValueView) -> Option<Seq<(StateKey, ValueView)>> {
    let sk = StateKey::Account(tx.sender);
    let s = acct_of(rd(sk));
    let none = Seq::<(StateKey, ValueView)>::empty();
    match tx.payload {
        TxPayload::Transfer { to, amount } => {
            let r = acct_of(rd(StateKey::Account(to)));
            if s.balance >= amount {
                if s.nonce + 1 > u64::MAX || r.balance + amount > u64::MAX {
                    None
                } else {
                    Some(upsert(
                        upsert(none, sk, ValueView::Account(AccountState { balance: (s.balance - amount) as u64, nonce: (s.nonce + 1) as u64 })),
                        StateKey::Account(to),
                        ValueView::Account(AccountState { balance: (r.balance + amount) as u64, nonce: r.nonce }),
                    ))
                }
            } else {
                Some(none)
            }
        },
        TxPayload::Swap { pool_id, amount_in, min_out } => {
            let (ra, rb) = pool_of(rd(StateKey::Pool(pool_id)));
            if rb * amount_in > u64::MAX || ra + amount_in > u64::MAX || ra + amount_in == 0 {
                None
            } else {
                let dy = ((rb * amount_in) / (ra + amount_in)) as u64;
                if s.balance >= amount_in && dy >= min_out {
                    if s.nonce + 1 > u64::MAX {
                        None
                    } else {
                        Some(seq![
                            (sk, ValueView::Account(AccountState { balance: (s.balance - amount_in) as u64, nonce: (s.nonce + 1) as u64 })),
                            (StateKey::Pool(pool_id), ValueView::Pool { reserve_a: (ra + amount_in) as u64, reserve_b: (rb - dy) as u64 }),
                        ])
                    }
                } else {
                    Some(none)
                }
            }
        },
        TxPayload::DeployContract { name, template, params } => {
            if s.nonce + 1 > u64::MAX {
                None
            } else {
                let info = deployed_info(tx.sender, s.nonce, name@, template@);
                Some(seq![
                    (sk, ValueView::Account(AccountState { balance: s.balance, nonce: (s.nonce + 1) as u64 })),
                    (StateKey::ContractMeta(info.address), ValueView::ContractMeta(Some(info))),
                ] + slot_entries(info.address, deploy_entries(tx.sender, lowercase(template@), params@)))
            }
        },
        TxPayload::CallContract { contract, method, args } => {
            match rd(StateKey::ContractMeta(contract)) {
                ValueView::ContractMeta(Some(info)) => {
                    if s.nonce + 1 > u64::MAX || call_gas(args@.len()) > u64::MAX {
                        None
                    } else {
                        match vm_call(tx.sender, info.template, lowercase(method@), method@, args@,
                            |slot: u64| slot_val(rd(StateKey::ContractSlot(contract, slot)))) {
                            None => None,
                            Some(out) => Some(seq![
                                (sk, ValueView::Account(AccountState { balance: s.balance, nonce: (s.nonce + 1) as u64 })),
                            ] + slot_entries(contract, out.writes)),
                        }
                    }
                },
                _ => Some(none),
            }
        },
    }
}

/// The keys `tx` reads when it reads state through `rd`: the sender's account,
/// then the recipient's account, the pool, or the contract's record; and, for a
/// call the contract runs, the contract slots the call reads, in order.
#[verifier::opaque]
pub open spec fn tx_reads(tx: Transaction, rd: spec_fn(StateKey) -> ValueView) -> Seq<StateKey> {
    let sk = StateKey::Account(tx.sender);
    match tx.payload {
        TxPayload::Transfer { to, .. } => seq![sk, StateKey::Account(to)],
        TxPayload::Swap { pool_id, .. } => seq![sk, StateKey::Pool(pool_id)],
        TxPayload::DeployContract { .. } => seq![sk],
        TxPayload::CallContract { contract, method, args } => {
            let head = seq![sk, StateKey::ContractMeta(contract)];
            match rd(StateKey::ContractMeta(contract)) {
                ValueView::ContractMeta(Some(info)) => {
                    match vm_call(tx.sender, info.template, lowercase(method@), method@, args@,
                        |slot: u64| slot_val(rd(StateKey::ContractSlot(contract, slot)))) {
                        Some(out) => head + out.reads.map_values(|slot: u64| StateKey::ContractSlot(contract, slot)),
                        None => head,
                    }
                },
                _ => head,
            }
        },
    }
}

/// The store after running `txs` one after another from `v`; `None` where some
/// transaction's arithmetic overflows.
pub open spec fn run_seq(v: StoreView, txs: Seq<Transaction>) -> Option<StoreView>
    decreases txs.len(),
{
    if txs.len() == 0 {
        Some(v)
    } else {
        match run_seq(v, txs.drop_last()) {
            None => None,
            Some(s) => match tx_entries(txs.last(), store_reader(s)) {
                None => None,
                Some(w) => Some(apply_entries(s, w)),
            },
        }
    }
}

/// `run_seq` of a prefix: where the whole run succeeds, each prefix does, and
/// one more transaction steps from the shorter prefix.
pub proof fn lemma_run_seq_prefix(v: StoreView, txs: Seq<Transaction>, i: int)
    requires
        run_seq(v, txs) is Some,
        0 <= i < txs.len(),
    ensures
        run_seq(v, txs.subrange(0, i)) is Some,
        tx_entries(txs[i], store_reader(run_seq(v, txs.subrange(0, i)).unwrap())) is Some,
        run_seq(v, txs.subrange(0, i + 1)) == Some(apply_entries(
            run_seq(v, txs.subrange(0, i)).unwrap(),
            tx_entries(txs[i], store_reader(run_seq(v, txs.subrange(0, i)).unwrap())).unwrap(),
        )),
    decreases txs.len(),
{
    if i + 1 == txs.len() {
        assert(txs.subrange(0, i + 1) =~= txs);
        assert(txs.drop_last() =~= txs.subrange(0, i));
    } else {
        lemma_run_seq_prefix(v, txs.drop_last(), i);
        assert(txs.drop_last().subrange(0, i) =~= txs.subrange(0, i));
        assert(txs.drop_last().subrange(0, i + 1) =~= txs.subrange(0, i + 1));
    }
}

/// Applying `a` then `b` is applying `a + b`.
pub proof fn lemma_apply_entries_append(v: StoreView, a: Seq<(StateKey, ValueView)>, b: Seq<(StateKey, ValueView)>)
    ensures
        apply_entries(v, a + b) == apply_entries(apply_entries(v, a), b),
    decreases b.len(),
{
    if b.len() == 0 {
        assert(a + b =~= a);
    } else {
        lemma_apply_entries_append(v, a, b.drop_last());
        assert((a + b).drop_last() =~= a + b.drop_last());
        assert((a + b).last() == b.last());
    }
}

proof fn lemma_apply_one(v: StoreView, e: (StateKey, ValueView))
    ensures
        apply_entries(v, seq![e]) == apply_entry(v, e),
{
    reveal_with_fuel(apply_entries, 2);
    assert(seq![e].drop_last() =~= Seq::<(StateKey, ValueView)>::empty());
}

proof fn lemma_apply_two(v: StoreView, e1: (StateKey, ValueView), e2: (StateKey, ValueView))
    ensures
        apply_entries(v, seq![e1, e2]) == apply_entry(apply_entry(v, e1), e2),
{
    assert(seq![e1, e2].drop_last() =~= seq![e1]);
    lemma_apply_one(v, e1);
}

proof fn lemma_upsert_empty<K, V>(k: K, v: V)
    ensures
        upsert(Seq::<(K, V)>::empty(), k, v) == seq![(k, v)],
{
    assert(Seq::<(K, V)>::empty().push((k, v)) =~= seq![(k, v)]);
}

proof fn lemma_upsert_single<K, V>(k1: K, v1: V, k2: K, v2: V)
    ensures
        upsert(seq![(k1, v1)], k2, v2) == (if k1 == k2 { seq![(k1, v2)] } else { seq![(k1, v1), (k2, v2)] }),
{
    let s = seq![(k1, v1)];
    if k1 == k2 {
        assert(s[0].0 == k2);
        let i = choose|i: int| 0 <= i < s.len() && s[i].0 == k2;
        assert(i == 0);
        assert(s.update(0, (k2, v2)) =~= seq![(k1, v2)]);
    } else {
        assert(!(exists|i: int| 0 <= i < s.len() && s[i].0 == k2));
        assert(s.push((k2, v2)) =~= seq![(k1, v1), (k2, v2)]);
    }
}

/// `Address::new(id)` is the pool address of `id`.
proof fn lemma_pool_addr(id: u64, a: Address)
    requires
        a.0@ == address_bytes(id),
    ensures
        a == pool_addr(id),
{
    lemma_addr_with(a);
}

/// The storage slot of a pool's first reserve.
fn reserve_a_slot() -> (h: Hash256)
    ensures
        h == slot_a(),
{
    let v: Vec<u8> = vec![114u8, 101u8, 115u8, 101u8, 114u8, 118u8, 101u8, 95u8, 97u8];
    proof { assert(v@ =~= reserve_a_bytes()); }
    let h = Hash256::of(v.as_slice());
    proof { lemma_hash_with(h); }
    h
}

/// The storage slot of a pool's second reserve.
fn reserve_b_slot() -> (h: Hash256)
    ensures
        h == slot_b(),
{
    let v: Vec<u8> = vec![114u8, 101u8, 115u8, 101u8, 114u8, 118u8, 101u8, 95u8, 98u8];
    proof { assert(v@ =~= reserve_b_bytes()); }
    let h = Hash256::of(v.as_slice());
    proof { lemma_hash_with(h); }
    h
}

/// The metering work charged to a transfer or swap: sixty rounds of SHA-256 over
/// a 32-byte accumulator seeded with `seed`, each round also taking `x`; the
/// result is not kept.
fn metering_work(seed: u64, x: u64) {
    let mut acc: Vec<u8> = Vec::new();
    crate::types::push_u64_be(&mut acc, seed);
    let mut k: usize = 0;
    while k < 24
        invariant
            k <= 24,
        decreases 24 - k,
    {
        acc.push(0u8);
        k = k + 1;
    }
    let mut round: usize = 0;
    while round < 60
        invariant
            round <= 60,
        decreases 60 - round,
    {
        let mut input: Vec<u8> = acc;
        crate::types::push_u64_be(&mut input, x);
        let h = sha256_digest(input.as_slice());
        acc = Vec::new();
        crate::types::push_bytes(&mut acc, h.as_slice());
        round = round + 1;
    }
}

/// `(rb * a) / (ra + a)` is at most `rb`.
proof fn lemma_swap_out_le(ra: u64, rb: u64, a: u64)
    requires
        ra + a > 0,
    ensures
        (rb * a) / (ra + a) <= rb,
{
    assert(rb * a <= rb * (ra + a)) by (nonlinear_arith) requires ra >= 0, a >= 0, rb >= 0;
    vstd::arithmetic::div_mod::lemma_div_is_ordered(rb * a, rb * (ra + a), ra + a);
    vstd::arithmetic::div_mod::lemma_div_multiples_vanish(rb as int, (ra + a) as int);
}

/// Runs one transaction against `store` the sequential way.
fn seq_apply(store: &mut FlatStateStore, tx: &Transaction)
    requires
        tx_entries(*tx, store_reader(old(store)@)) is Some,
    ensures
        final(store)@ == apply_entries(old(store)@, tx_entries(*tx, store_reader(old(store)@)).unwrap()),
{
    match &tx.payload {
        TxPayload::Transfer { .. } => seq_transfer(store, tx),
        TxPayload::Swap { .. } => seq_swap(store, tx),
        TxPayload::DeployContract { .. } => seq_deploy(store, tx),
        TxPayload::CallContract { .. } => seq_call(store, tx),
    }
}

fn seq_transfer(store: &mut FlatStateStore, tx: &Transaction)
    requires
        tx.payload is Transfer,
        tx_entries(*tx, store_reader(old(store)@)) is Some,
    ensures
        final(store)@ == apply_entries(old(store)@, tx_entries(*tx, store_reader(old(store)@)).unwrap()),
{
    proof { reveal(tx_entries); }
    let ghost s0 = store@;
    let ghost w = tx_entries(*tx, store_reader(s0)).unwrap();
    let ghost sk = StateKey::Account(tx.sender);
    let sender = store.get_account(&tx.sender);
    if let TxPayload::Transfer { to, amount } = &tx.payload {
        let recv = store.get_account(to);
        metering_work(tx.id, sender.balance);
        if sender.balance >= *amount {
            let s2 = AccountState { balance: sender.balance - *amount, nonce: sender.nonce + 1 };
            let r2 = AccountState { balance: recv.balance + *amount, nonce: recv.nonce };
            store.set_account(tx.sender, s2);
            store.set_account(*to, r2);
            proof {
                let e1 = (sk, ValueView::Account(s2));
                let e2 = (StateKey::Account(*to), ValueView::Account(r2));
                lemma_upsert_empty(e1.0, e1.1);
                lemma_upsert_single(e1.0, e1.1, e2.0, e2.1);
                if tx.sender == *to {
                    lemma_apply_one(s0, (sk, ValueView::Account(r2)));
                    assert(store@.accounts =~= s0.accounts.insert(tx.sender, r2));
                } else {
                    lemma_apply_two(s0, e1, e2);
                }
            }
        } else {
            proof { assert(w =~= Seq::<(StateKey, ValueView)>::empty()); }
        }
    }
}

fn seq_swap(store: &mut FlatStateStore, tx: &Transaction)
    requires
        tx.payload is Swap,
        tx_entries(*tx, store_reader(old(store)@)) is Some,
    ensures
        final(store)@ == apply_entries(old(store)@, tx_entries(*tx, store_reader(old(store)@)).unwrap()),
{
    proof { reveal(tx_entries); }
    let ghost s0 = store@;
    let ghost w = tx_entries(*tx, store_reader(s0)).unwrap();
    let ghost sk = StateKey::Account(tx.sender);
    let sender = store.get_account(&tx.sender);
    if let TxPayload::Swap { pool_id, amount_in, min_out } = &tx.payload {
        let pool = Address::new(*pool_id);
        let sa = reserve_a_slot();
        let sb = reserve_b_slot();
        proof { lemma_pool_addr(*pool_id, pool); }
        let mut res_a = store.get_slot(&pool, &sa);
        let mut res_b = store.get_slot(&pool, &sb);
        if res_a == 0 {
            res_a = 10_000_000;
        }
        if res_b == 0 {
            res_b = 10_000_000;
        }
        proof { assert((res_a, res_b) == pool_of(base_read(s0, StateKey::Pool(*pool_id)))); }
        metering_work(*pool_id, *amount_in);
        let dy = (res_b * *amount_in) / (res_a + *amount_in);
        if sender.balance >= *amount_in && dy >= *min_out {
            proof { lemma_swap_out_le(res_a, res_b, *amount_in); }
            let s2 = AccountState { balance: sender.balance - *amount_in, nonce: sender.nonce + 1 };
            store.set_account(tx.sender, s2);
            store.set_slot(pool, sa, res_a + *amount_in);
            store.set_slot(pool, sb, res_b - dy);
            proof {
                lemma_apply_two(s0, (sk, ValueView::Account(s2)),
                    (StateKey::Pool(*pool_id), ValueView::Pool { reserve_a: (res_a + *amount_in) as u64, reserve_b: (res_b - dy) as u64 }));
            }
        } else {
            proof { assert(w =~= Seq::<(StateKey, ValueView)>::empty()); }
        }
    }
}

fn seq_deploy(store: &mut FlatStateStore, tx: &Transaction)
    requires
        tx.payload is DeployContract,
        tx_entries(*tx, store_reader(old(store)@)) is Some,
    ensures
        final(store)@ == apply_entries(old(store)@, tx_entries(*tx, store_reader(old(store)@)).unwrap()),
{
    proof { reveal(tx_entries); }
    let ghost s0 = store@;
    let ghost w = tx_entries(*tx, store_reader(s0)).unwrap();
    let ghost sk = StateKey::Account(tx.sender);
    let sender = store.get_account(&tx.sender);
    if let TxPayload::DeployContract { name, template, params } = &tx.payload {
        let (info, slots) = SmartContractEngine::deploy_entries(tx.sender, sender.nonce, 0, name.as_str(), template.as_str(), params.as_slice());
        let s2 = AccountState { balance: sender.balance, nonce: sender.nonce + 1 };
        store.set_account(tx.sender, s2);
        let addr = info.address;
        let ghost iv = info@;
        proof {
            lemma_addr_with(addr);
            assert(iv == deployed_info(tx.sender, sender.nonce, name@, template@));
        }
        store.register_contract(info);
        let ghost head = seq![(sk, ValueView::Account(s2)), (StateKey::ContractMeta(addr), ValueView::ContractMeta(Some(iv)))];
        let ghost es = slots.entries();
        proof {
            lemma_apply_two(s0, head[0], head[1]);
            assert(store@ == apply_entries(s0, head));
        }
        let ghost mid = store@;
        let n = slots.len();
        for j in 0..n
            invariant
                n == es.len(),
                es == slots.entries(),
                store@ == apply_entries(mid, slot_entries(addr, es.subrange(0, j as int))),
        {
            let e = *slots.entry(j);
            store.set_contract_slot(addr, e.0, e.1);
            proof {
                let pre = slot_entries(addr, es.subrange(0, j as int));
                let nxt = slot_entries(addr, es.subrange(0, j + 1));
                assert(nxt =~= pre.push((StateKey::ContractSlot(addr, e.0), ValueView::ContractSlot(e.1))));
                assert(nxt.drop_last() =~= pre);
            }
        }
        proof {
            assert(es.subrange(0, n as int) =~= es);
            assert(w == head + slot_entries(addr, es));
            lemma_apply_entries_append(s0, head, slot_entries(addr, es));
        }
    }
}

fn seq_call(store: &mut FlatStateStore, tx: &Transaction)
    requires
        tx.payload is CallContract,
        tx_entries(*tx, store_reader(old(store)@)) is Some,
    ensures
        final(store)@ == apply_entries(old(store)@, tx_entries(*tx, store_reader(old(store)@)).unwrap()),
{
    proof { reveal(tx_entries); }
    let ghost s0 = store@;
    let ghost w = tx_entries(*tx, store_reader(s0)).unwrap();
    let ghost sk = StateKey::Account(tx.sender);
    let sender = store.get_account(&tx.sender);
    if let TxPayload::CallContract { contract, method, args } = &tx.payload {
        match store.get_contract(contract) {
            Some(info) => {
                let s2 = AccountState { balance: sender.balance, nonce: sender.nonce + 1 };
                store.set_account(tx.sender, s2);
                let ghost rd = |slot: u64| slot_val(store_reader(s0)(StateKey::ContractSlot(*contract, slot)));
                proof {
                    assert(base_read(s0, StateKey::ContractMeta(*contract)) == ValueView::ContractMeta(Some(info@)));
                }
                let (res, reads, writes) = {
                    let st: &FlatStateStore = &*store;
                    let reader = |slot: u64| -> (v: u64)
                        ensures
                            v == slot_or_zero(st@.contract_slots, (*contract, slot)),
                    {
                        st.get_contract_slot(contract, slot)
                    };
                    proof {
                        assert(st@.contract_slots == s0.contract_slots);
                        assert forall|slot: u64, v: u64| #[trigger] reader.ensures((slot,), v) implies v == rd(slot) by {}
                    }
                    SmartContractEngine::execute_call_traced(tx.sender, &info, method.as_str(), args.as_slice(), &reader, Ghost(rd))
                };
                let ghost es = writes.entries();
                let ghost mid = store@;
                proof {
                    lemma_apply_one(s0, (sk, ValueView::Account(s2)));
                }
                let n = writes.len();
                for j in 0..n
                    invariant
                        n == es.len(),
                        es == writes.entries(),
                        store@ == apply_entries(mid, slot_entries(*contract, es.subrange(0, j as int))),
                {
                    let e = *writes.entry(j);
                    store.set_contract_slot(*contract, e.0, e.1);
                    proof {
                        let pre = slot_entries(*contract, es.subrange(0, j as int));
                        let nxt = slot_entries(*contract, es.subrange(0, j + 1));
                        assert(nxt =~= pre.push((StateKey::ContractSlot(*contract, e.0), ValueView::ContractSlot(e.1))));
                        assert(nxt.drop_last() =~= pre);
                    }
                }
                proof {
                    assert(es.subrange(0, n as int) =~= es);
                    lemma_apply_entries_append(s0, seq![(sk, ValueView::Account(s2))], slot_entries(*contract, es));
                }
            },
            None => {
                proof { assert(w =~= Seq::<(StateKey, ValueView)>::empty()); }
            },
        }
    }
}

/// Runs transactions one after another.
pub struct SequentialExecutor;

impl SequentialExecutor {
    /// Runs `transactions` in order against a copy of `base_store` and returns the
    /// resulting store; `base_store` is a value and is left as it was (no store
    /// shares its maps with another).
    pub fn execute_block(transactions: &[Transaction], base_store: &FlatStateStore) -> (r: FlatStateStore)
        requires
            run_seq(base_store@, transactions@) is Some,
        ensures
            r@ == run_seq(base_store@, transactions@).unwrap(),
    {
        let mut store = base_store.duplicate();
        let n = transactions.len();
        proof { assert(transactions@.subrange(0, 0) =~= Seq::<Transaction>::empty()); }
        for i in 0..n
            invariant
                n == transactions@.len(),
                run_seq(base_store@, transactions@) is Some,
                run_seq(base_store@, transactions@.subrange(0, i as int)) == Some(store@),
        {
            proof { lemma_run_seq_prefix(base_store@, transactions@, i as int); }
            seq_apply(&mut store, &transactions[i]);
        }
        proof { assert(transactions@.subrange(0, n as int) =~= transactions@); }
        store
    }
}

/// The value the multi-version memory gives for `k` to transaction `i`: the
/// write of the latest transaction before `i` that wrote `k`, else the base store.
pub open spec fn mv_val(m: Map<(StateKey, usize), ValueView>, base: StoreView, k: StateKey, i: nat) -> ValueView
    decreases i,
{
    if i == 0 {
        base_read(base, k)
    } else if m.contains_key((k, (i - 1) as usize)) {
        m[(k, (i - 1) as usize)]
    } else {
        mv_val(m, base, k, (i - 1) as nat)
    }
}

/// Which write transaction `i` sees for `k`: the latest transaction before `i`
/// that wrote `k`, else the base store.
pub open spec fn mv_ver(m: Map<(StateKey, usize), ValueView>, k: StateKey, i: nat) -> TxVersion
    decreases i,
{
    if i == 0 {
        TxVersion::Storage
    } else if m.contains_key((k, (i - 1) as usize)) {
        TxVersion::Tx((i - 1) as usize)
    } else {
        mv_ver(m, k, (i - 1) as nat)
    }
}

/// `m` with transaction `i`'s writes `w` recorded.
pub open spec fn add_writes(m: Map<(StateKey, usize), ValueView>, i: usize, w: Map<StateKey, ValueView>) -> Map<(StateKey, usize), ValueView> {
    Map::new(
        |p: (StateKey, usize)| m.contains_key(p) || (p.1 == i && w.contains_key(p.0)),
        |p: (StateKey, usize)| if p.1 == i && w.contains_key(p.0) { w[p.0] } else { m[p] },
    )
}

/// `m` without transaction `i`'s writes at `keys`.
pub open spec fn clear_at(m: Map<(StateKey, usize), ValueView>, i: usize, keys: Seq<StateKey>) -> Map<(StateKey, usize), ValueView> {
    Map::new(
        |p: (StateKey, usize)| m.contains_key(p) && !(p.1 == i && keys.contains(p.0)),
        |p: (StateKey, usize)| m[p],
    )
}

/// Dropping, by their keys, the writes transaction `i` has just recorded gives
/// back the memory from before, so every read sees what it saw before; where
/// `i` had no write at those keys before.
pub proof fn lemma_clear_undoes_write(m: Map<(StateKey, usize), ValueView>, base: StoreView, i: usize, w: Map<StateKey, ValueView>, keys: Seq<StateKey>)
    requires
        forall|k: StateKey| #[trigger] keys.contains(k) <==> w.contains_key(k),
        forall|k: StateKey| #[trigger] w.contains_key(k) ==> !m.contains_key((k, i)),
    ensures
        clear_at(add_writes(m, i, w), i, keys) == m,
        forall|k: StateKey, j: nat| #[trigger] mv_val(clear_at(add_writes(m, i, w), i, keys), base, k, j) == mv_val(m, base, k, j),
        forall|k: StateKey, j: nat| #[trigger] mv_ver(clear_at(add_writes(m, i, w), i, keys), k, j) == mv_ver(m, k, j),
{
    let c = clear_at(add_writes(m, i, w), i, keys);
    assert forall|p: (StateKey, usize)| #[trigger] c.contains_key(p) <==> m.contains_key(p) by {
        if m.contains_key(p) && p.1 == i && keys.contains(p.0) {
            assert(w.contains_key(p.0));
        }
    }
    assert(c =~= m);
}

/// The write at `(k, w)` is the latest for `k` before `i`.
proof fn lemma_mv_latest(m: Map<(StateKey, usize), ValueView>, base: StoreView, k: StateKey, w: usize, i: nat)
    requires
        m.contains_key((k, w)),
        w < i,
        i <= usize::MAX,
        forall|x: usize| w < x < i ==> !m.contains_key((k, x)),
    ensures
        mv_val(m, base, k, i) == m[(k, w)],
        mv_ver(m, k, i) == TxVersion::Tx(w),
    decreases i,
{
    if (i - 1) as usize != w {
        assert(!m.contains_key((k, (i - 1) as usize)));
        lemma_mv_latest(m, base, k, w, (i - 1) as nat);
    }
}

/// With no write to `k` before `i`, transaction `i` sees the base store.
proof fn lemma_mv_none(m: Map<(StateKey, usize), ValueView>, base: StoreView, k: StateKey, i: nat)
    requires
        forall|x: usize| x < i ==> !m.contains_key((k, x)),
    ensures
        mv_val(m, base, k, i) == base_read(base, k),
        mv_ver(m, k, i) == TxVersion::Storage,
    decreases i,
{
    if i > 0 {
        assert(!m.contains_key((k, (i - 1) as usize)));
        lemma_mv_none(m, base, k, (i - 1) as nat);
    }
}

/// Recording transaction `i`'s writes changes nothing that transactions up to `i`
/// see.
proof fn lemma_mv_add_later(m: Map<(StateKey, usize), ValueView>, base: StoreView, i: usize, w: Map<StateKey, ValueView>, k: StateKey, j: nat)
    requires
        j <= i,
    ensures
        mv_val(add_writes(m, i, w), base, k, j) == mv_val(m, base, k, j),
        mv_ver(add_writes(m, i, w), k, j) == mv_ver(m, k, j),
    decreases j,
{
    if j > 0 {
        lemma_mv_add_later(m, base, i, w, k, (j - 1) as nat);
    }
}

/// Reads the base store the way the executors do.
fn store_read(store: &FlatStateStore, key: &StateKey) -> (v: StateValue)
    ensures
        v@ == base_read(store@, *key),
{
    match key {
        StateKey::Account(a) => StateValue::Account(store.get_account(a)),
        StateKey::Pool(id) => {
            let addr = Address::new(*id);
            proof { lemma_pool_addr(*id, addr); }
            let ra = store.get_slot(&addr, &reserve_a_slot());
            let rb = store.get_slot(&addr, &reserve_b_slot());
            StateValue::Pool {
                reserve_a: if ra == 0 { 10_000_000 } else { ra },
                reserve_b: if rb == 0 { 10_000_000 } else { rb },
            }
        },
        StateKey::ContractMeta(a) => StateValue::ContractMeta(store.get_contract(a)),
        StateKey::ContractSlot(a, s) => StateValue::ContractSlot(store.get_contract_slot(a, *s)),
    }
}

/// Multi-version memory: the base store plus, per state location, the value each
/// transaction wrote there.
pub struct MVMemory {
    base_store: FlatStateStore,
    versions: AssocMap<(StateKey, usize), StateValue>,
}

/// The contents of recorded writes.
pub open spec fn versions_view(m: Map<(StateKey, usize), StateValue>) -> Map<(StateKey, usize), ValueView> {
    m.map_values(|v: StateValue| v@)
}

/// The contents of a write set.
pub open spec fn wviews(s: Seq<(StateKey, StateValue)>) -> Seq<(StateKey, ValueView)> {
    s.map_values(|e: (StateKey, StateValue)| (e.0, e.1@))
}

impl MVMemory {
    #[verifier::type_invariant]
    spec fn inv(self) -> bool {
        self.versions.wf()
    }

    /// The store that reads fall back to.
    pub closed spec fn base(&self) -> StoreView {
        self.base_store@
    }

    /// The recorded writes: for `(k, i)`, what transaction `i` wrote at `k`.
    pub closed spec fn writes(&self) -> Map<(StateKey, usize), ValueView> {
        versions_view(self.versions.view())
    }

    /// Empty multi-version memory over `base_store`.
    pub fn new(base_store: FlatStateStore) -> (m: MVMemory)
        ensures
            m.base() == base_store@,
            m.writes() == Map::<(StateKey, usize), ValueView>::empty(),
    {
        let m = MVMemory { base_store, versions: AssocMap::new() };
        proof { assert(m.writes() =~= Map::<(StateKey, usize), ValueView>::empty()); }
        m
    }

    /// The value transaction `tx_idx` reads at `key`, and whose write it is.
    pub fn read(&self, key: &StateKey, tx_idx: usize) -> (r: (StateValue, TxVersion))
        ensures
            r.0@ == mv_val(self.writes(), self.base(), *key, tx_idx as nat),
            r.1 == mv_ver(self.writes(), *key, tx_idx as nat),
    {
        proof { use_type_invariant(self); self.versions.lemma_entries(); }
        let ghost es = self.versions.entries();
        let ghost m = self.writes();
        let n = self.versions.len();
        let mut best: Option<usize> = None;
        for j in 0..n
            invariant
                n == es.len(),
                es == self.versions.entries(),
                keys_distinct(es),
                self.versions.view() == entries_map(es),
                m == versions_view(entries_map(es)),
                match best {
                    Some(b) => b < j && es[b as int].0.0 == *key && es[b as int].0.1 < tx_idx
                        && forall|x: int| 0 <= x < j && es[x].0.0 == *key && es[x].0.1 < tx_idx ==> es[x].0.1 <= es[b as int].0.1,
                    None => forall|x: int| 0 <= x < j ==> !(es[x].0.0 == *key && es[x].0.1 < tx_idx),
                },
        {
            let e = self.versions.entry(j);
            if e.0.0.key_eq(key) && e.0.1 < tx_idx {
                match best {
                    Some(b) => {
                        if self.versions.entry(b).0.1 < e.0.1 {
                            best = Some(j);
                        }
                    },
                    None => {
                        best = Some(j);
                    },
                }
            }
        }
        match best {
            Some(b) => {
                let e = self.versions.entry(b);
                proof {
                    let w = e.0.1;
                    crate::assoc::lemma_entries_map_at(es, b as int);
                    assert forall|x: usize| w < x < tx_idx implies !m.contains_key((*key, x)) by {
                        if m.contains_key((*key, x)) {
                            let y = choose|y: int| 0 <= y < es.len() && es[y].0 == (*key, x);
                        }
                    }
                    lemma_mv_latest(m, self.base(), *key, w, tx_idx as nat);
                }
                (e.1.clone(), TxVersion::Tx(e.0.1))
            },
            None => {
                proof {
                    assert forall|x: usize| x < tx_idx implies !m.contains_key((*key, x)) by {
                        if m.contains_key((*key, x)) {
                            let y = choose|y: int| 0 <= y < es.len() && es[y].0 == (*key, x);
                        }
                    }
                    lemma_mv_none(m, self.base(), *key, tx_idx as nat);
                }
                (store_read(&self.base_store, key), TxVersion::Storage)
            },
        }
    }

    /// Records transaction `tx_idx`'s writes.
    pub fn write_batch(&mut self, tx_idx: usize, writes: &AssocMap<StateKey, StateValue>)
        requires
            writes.wf(),
        ensures
            final(self).base() == old(self).base(),
            final(self).writes() == add_writes(old(self).writes(), tx_idx, entries_map(wviews(writes.entries()))),
    {
        proof { use_type_invariant(&*self); writes.lemma_entries(); }
        let ghost es = writes.entries();
        let ghost m0 = self.writes();
        let mut vs = AssocMap::new();
        std::mem::swap(&mut vs, &mut self.versions);
        let n = writes.len();
        for j in 0..n
            invariant
                n == es.len(),
                es == writes.entries(),
                keys_distinct(es),
                vs.wf(),
                versions_view(vs.view()) == add_writes(m0, tx_idx, entries_map(wviews(es.subrange(0, j as int)))),
        {
            let e = writes.entry(j);
            let v = e.1.clone();
            let ghost before = vs.view();
            vs.insert((e.0, tx_idx), v);
            proof {
                assert(versions_view(vs.view()) =~= versions_view(before).insert((e.0, tx_idx), e.1@));
                let pre = wviews(es.subrange(0, j as int));
                let nxt = wviews(es.subrange(0, j + 1));
                assert(nxt =~= pre.push((e.0, e.1@)));
                assert(keys_distinct(pre)) by {
                    assert forall|a: int, b: int| 0 <= a < pre.len() && 0 <= b < pre.len() && a != b implies pre[a].0 != pre[b].0 by {
                        assert(pre[a].0 == es[a].0 && pre[b].0 == es[b].0);
                    }
                }
                assert(!entries_map(pre).contains_key(e.0)) by {
                    if entries_map(pre).contains_key(e.0) {
                        let x = choose|x: int| 0 <= x < pre.len() && pre[x].0 == e.0;
                        assert(es[x].0 == es[j as int].0);
                    }
                }
                crate::assoc::lemma_entries_map_push(pre, e.0, e.1@);
                assert(versions_view(vs.view()) =~= add_writes(m0, tx_idx, entries_map(nxt)));
            }
        }
        proof { assert(es.subrange(0, n as int) =~= es); }
        self.versions = vs;
    }

    /// Drops transaction `tx_idx`'s writes at `keys`.
    /// Dropping the batch `write_batch` just recorded, by its keys, restores
    /// every read (`lemma_clear_undoes_write`).
    pub fn clear_writes(&mut self, tx_idx: usize, keys: &[StateKey])
        ensures
            final(self).base() == old(self).base(),
            final(self).writes() == clear_at(old(self).writes(), tx_idx, keys@),
    {
        proof { use_type_invariant(&*self); }
        let ghost m0 = self.writes();
        let mut vs = AssocMap::new();
        std::mem::swap(&mut vs, &mut self.versions);
        let n = keys.len();
        for j in 0..n
            invariant
                n == keys@.len(),
                vs.wf(),
                versions_view(vs.view()) == Map::new(
                    |p: (StateKey, usize)| m0.contains_key(p) && !(p.1 == tx_idx && exists|x: int| 0 <= x < j && #[trigger] keys@[x] == p.0),
                    |p: (StateKey, usize)| m0[p],
                ),
        {
            let k = keys[j];
            let ghost before = vs.view();
            vs.remove(&(k, tx_idx));
            proof {
                assert(versions_view(vs.view()) =~= versions_view(before).remove((k, tx_idx)));
                assert forall|p: (StateKey, usize)| (exists|x: int| 0 <= x < j + 1 && #[trigger] keys@[x] == p.0) <==>
                    ((exists|x: int| 0 <= x < j && #[trigger] keys@[x] == p.0) || p.0 == k) by {
                    if p.0 == k {
                        assert(keys@[j as int] == p.0);
                    }
                }
                assert(versions_view(vs.view()) =~= Map::new(
                    |p: (StateKey, usize)| m0.contains_key(p) && !(p.1 == tx_idx && exists|x: int| 0 <= x < j + 1 && #[trigger] keys@[x] == p.0),
                    |p: (StateKey, usize)| m0[p],
                ));
            }
        }
        proof {
            assert(versions_view(vs.view()) =~= Map::new(
                |p: (StateKey, usize)| m0.contains_key(p) && !(p.1 == tx_idx && keys@.contains(p.0)),
                |p: (StateKey, usize)| m0[p],
            ));
        }
        self.versions = vs;
    }
}

/// The first `k` bytes of `a` replaced by those of `b`.
spec fn fill_bytes(a: [u8; 20], b: Seq<u8>, k: nat) -> [u8; 20]
    decreases k,
{
    if k == 0 {
        a
    } else {
        vstd::array::spec_array_update(fill_bytes(a, b, (k - 1) as nat), k - 1, b[k - 1])
    }
}

proof fn lemma_fill_bytes(a: [u8; 20], b: Seq<u8>, k: nat)
    requires
        b.len() == 20,
        k <= 20,
    ensures
        fill_bytes(a, b, k)@.len() == 20,
        forall|j: int| 0 <= j < k ==> fill_bytes(a, b, k)@[j] == b[j],
    decreases k,
{
    broadcast use vstd::array::group_array_axioms;
    if k > 0 {
        lemma_fill_bytes(a, b, (k - 1) as nat);
    }
}

/// Any twenty bytes are the bytes of some address.
proof fn lemma_address_exists(b: Seq<u8>)
    requires
        b.len() == 20,
    ensures
        addr_with(b).0@ == b,
{
    let a0 = vstd::pervasive::arbitrary::<[u8; 20]>();
    lemma_fill_bytes(a0, b, 20);
    let a = Address(fill_bytes(a0, b, 20));
    assert(a.0@ =~= b);
}

/// Distinct pools are held at distinct addresses.
proof fn lemma_pool_addr_injective(i1: u64, i2: u64)
    requires
        i1 != i2,
    ensures
        pool_addr(i1) != pool_addr(i2),
{
    lemma_address_exists(address_bytes(i1));
    lemma_address_exists(address_bytes(i2));
    if pool_addr(i1) == pool_addr(i2) {
        assert(address_bytes(i1).subrange(12, 20) =~= crate::types::u64_be(i1));
        assert(address_bytes(i2).subrange(12, 20) =~= crate::types::u64_be(i2));
        crate::types::lemma_be_roundtrip(i1);
        crate::types::lemma_be_roundtrip(i2);
    }
}

/// A write that fits its location: account values at accounts, non-zero reserves
/// at pools, a contract filed under its own address, numbers at contract slots.
pub open spec fn well_kinded(e: (StateKey, ValueView)) -> bool {
    match (e.0, e.1) {
        (StateKey::Account(_), ValueView::Account(_)) => true,
        (StateKey::Pool(_), ValueView::Pool { reserve_a, reserve_b }) => reserve_a != 0 && reserve_b != 0,
        (StateKey::ContractMeta(a), ValueView::ContractMeta(Some(info))) => info.address == a,
        (StateKey::ContractSlot(_, _), ValueView::ContractSlot(_)) => true,
        _ => false,
    }
}

/// Every write of `w` fits its location.
pub open spec fn all_well_kinded(w: Seq<(StateKey, ValueView)>) -> bool {
    forall|i: int| 0 <= i < w.len() ==> #[trigger] well_kinded(w[i])
}

/// The two reserve slots of a pool are distinct storage slots.
pub open spec fn reserve_slots_distinct() -> bool {
    slot_a() != slot_b()
}

/// Reading a location right after writing it gives the written value.
proof fn lemma_read_own_write(v: StoreView, e: (StateKey, ValueView))
    requires
        well_kinded(e),
        reserve_slots_distinct(),
    ensures
        base_read(apply_entry(v, e), e.0) == e.1,
{
}

/// Writing one location leaves every other location as it was.
proof fn lemma_read_other(v: StoreView, e: (StateKey, ValueView), k: StateKey)
    requires
        well_kinded(e),
        k != e.0,
    ensures
        base_read(apply_entry(v, e), k) == base_read(v, k),
{
    match (e.0, k) {
        (StateKey::Pool(i1), StateKey::Pool(i2)) => {
            lemma_pool_addr_injective(i1, i2);
        },
        _ => {},
    }
}

/// Reading after a list of writes with distinct locations: the written value
/// where the list writes the location, else the value before.
pub proof fn lemma_read_after_writes(v: StoreView, w: Seq<(StateKey, ValueView)>, k: StateKey)
    requires
        keys_distinct(w),
        all_well_kinded(w),
        reserve_slots_distinct(),
    ensures
        base_read(apply_entries(v, w), k) == if entries_map(w).contains_key(k) { entries_map(w)[k] } else { base_read(v, k) },
    decreases w.len(),
{
    if w.len() > 0 {
        let p = w.drop_last();
        let e = w.last();
        assert(keys_distinct(p)) by {
            assert forall|a: int, b: int| 0 <= a < p.len() && 0 <= b < p.len() && a != b implies p[a].0 != p[b].0 by {
                assert(p[a] == w[a] && p[b] == w[b]);
            }
        }
        assert(all_well_kinded(p)) by {
            assert forall|i: int| 0 <= i < p.len() implies #[trigger] well_kinded(p[i]) by {
                assert(p[i] == w[i]);
            }
        }
        assert(well_kinded(e)) by { assert(e == w[w.len() - 1]); }
        lemma_read_after_writes(v, p, k);
        assert(!entries_map(p).contains_key(e.0)) by {
            if entries_map(p).contains_key(e.0) {
                let x = choose|x: int| 0 <= x < p.len() && p[x].0 == e.0;
                assert(w[x].0 == w[w.len() - 1].0);
            }
        }
        crate::assoc::lemma_entries_map_push(p, e.0, e.1);
        assert(p.push(e) =~= w);
        if k == e.0 {
            lemma_read_own_write(apply_entries(v, p), e);
        } else {
            lemma_read_other(apply_entries(v, p), e, k);
        }
    }
}

/// `(rb * a) / (ra + a)` is below `rb` when both reserves are positive.
proof fn lemma_swap_out_lt(ra: u64, rb: u64, a: u64)
    requires
        ra >= 1,
        rb >= 1,
    ensures
        (rb * a) / (ra + a) < rb,
{
    let d = ra + a;
    assert(rb * a < rb * d) by (nonlinear_arith) requires ra >= 1, rb >= 1, a >= 0, d == ra + a;
    assert(rb * a <= rb * d - 1);
    vstd::arithmetic::div_mod::lemma_div_is_ordered(rb * a, rb * d - 1, d);
    assert((rb * d - 1) / d < rb) by {
        vstd::arithmetic::div_mod::lemma_fundamental_div_mod(rb * d - 1, d);
        assert(d * ((rb * d - 1) / d) <= rb * d - 1);
        if (rb * d - 1) / d >= rb {
            assert(d * ((rb * d - 1) / d) >= d * rb) by (nonlinear_arith)
                requires (rb * d - 1) / d >= rb, d >= 1;
        }
    }
}

/// A swap pays out at least its minimum. Where a swap writes, it debits the
/// sender `amount_in` (and bumps its nonce), raises reserve A by `amount_in` and
/// lowers reserve B by at least `min_out`. Where the quote
/// `reserve_b * amount_in / (reserve_a + amount_in)` is below `min_out`, or the
/// sender holds less than `amount_in`, it writes nothing; otherwise reserve B
/// falls by exactly the quote.
pub proof fn lemma_swap_respects_min_out(tx: Transaction, rd: spec_fn(StateKey) -> ValueView)
    ensures
        match tx.payload {
            TxPayload::Swap { pool_id, amount_in, min_out } => {
                let (ra, rb) = pool_of(rd(StateKey::Pool(pool_id)));
                let s = acct_of(rd(StateKey::Account(tx.sender)));
                &&& tx_entries(tx, rd) matches Some(w) ==> (w.len() == 0 || (
                    w.len() == 2
                    && w[0] == (StateKey::Account(tx.sender), ValueView::Account(AccountState { balance: (s.balance - amount_in) as u64, nonce: (s.nonce + 1) as u64 }))
                    && s.balance >= amount_in
                    && w[1].0 == StateKey::Pool(pool_id)
                    && (w[1].1 matches ValueView::Pool { reserve_a, reserve_b }
                        && reserve_a == ra + amount_in
                        && rb - reserve_b >= min_out)))
                &&& (ra + amount_in > 0 && (rb * amount_in) / (ra + amount_in) < min_out)
                    ==> (tx_entries(tx, rd) matches Some(w) ==> w.len() == 0)
                &&& s.balance < amount_in ==> (tx_entries(tx, rd) matches Some(w) ==> w.len() == 0)
                &&& (ra + amount_in > 0 && s.balance >= amount_in && (rb * amount_in) / (ra + amount_in) >= min_out)
                    ==> (tx_entries(tx, rd) matches Some(w) ==> w.len() == 2
                        && w[1] == (StateKey::Pool(pool_id), ValueView::Pool {
                            reserve_a: (ra + amount_in) as u64,
                            reserve_b: (rb - (rb * amount_in) / (ra + amount_in)) as u64 }))
            },
            _ => true,
        },
{
    reveal(tx_entries);
    if let TxPayload::Swap { pool_id, amount_in, min_out } = tx.payload {
        let (ra, rb) = pool_of(rd(StateKey::Pool(pool_id)));
        if ra + amount_in > 0 {
            lemma_swap_out_le(ra, rb, amount_in);
        }
    }
}

/// A transfer between two accounts conserves the balance: where the sender
/// holds at least `amount`, the sender is debited `amount` (its nonce bumped)
/// and the recipient credited `amount`; where it holds less, nothing is written.
pub proof fn lemma_transfer_conserves(tx: Transaction, rd: spec_fn(StateKey) -> ValueView)
    ensures
        match tx.payload {
            TxPayload::Transfer { to, amount } => {
                let s = acct_of(rd(StateKey::Account(tx.sender)));
                let r = acct_of(rd(StateKey::Account(to)));
                &&& s.balance < amount ==> tx_entries(tx, rd) == Some(Seq::<(StateKey, ValueView)>::empty())
                &&& (s.balance >= amount && to != tx.sender) ==> (tx_entries(tx, rd) matches Some(w) ==>
                    w == seq![
                        (StateKey::Account(tx.sender), ValueView::Account(AccountState { balance: (s.balance - amount) as u64, nonce: (s.nonce + 1) as u64 })),
                        (StateKey::Account(to), ValueView::Account(AccountState { balance: (r.balance + amount) as u64, nonce: r.nonce })),
                    ]
                    && (s.balance - amount) + (r.balance + amount) == s.balance + r.balance)
            },
            _ => true,
        },
{
    reveal(tx_entries);
    if let TxPayload::Transfer { to, amount } = tx.payload {
        let sk = StateKey::Account(tx.sender);
        let tk = StateKey::Account(to);
        let s = acct_of(rd(sk));
        let r = acct_of(rd(tk));
        if s.balance >= amount && to != tx.sender && s.nonce + 1 <= u64::MAX && r.balance + amount <= u64::MAX {
            let e1 = ValueView::Account(AccountState { balance: (s.balance - amount) as u64, nonce: (s.nonce + 1) as u64 });
            let e2 = ValueView::Account(AccountState { balance: (r.balance + amount) as u64, nonce: r.nonce });
            lemma_upsert_empty(sk, e1);
            lemma_upsert_single(sk, e1, tk, e2);
        }
    }
}

/// Deploys and calls touch only what they own: both bump the sender's nonce
/// and leave its balance; a deploy then writes the new contract's record (its
/// creator the sender, named as asked) and slots of that contract only; a call
/// writes slots of the called contract only, and a call to an address with no
/// contract writes nothing at all.
pub proof fn lemma_contract_writes_confined(tx: Transaction, rd: spec_fn(StateKey) -> ValueView)
    ensures
        ({
            let s = acct_of(rd(StateKey::Account(tx.sender)));
            let bumped = (StateKey::Account(tx.sender), ValueView::Account(AccountState { balance: s.balance, nonce: (s.nonce + 1) as u64 }));
            match tx.payload {
                TxPayload::DeployContract { name, template, params } => tx_entries(tx, rd) matches Some(w) ==> {
                    &&& w.len() >= 2
                    &&& w[0] == bumped
                    &&& w[1].1 matches ValueView::ContractMeta(Some(info))
                    &&& w[1].0 == StateKey::ContractMeta(info.address)
                    &&& info.creator == tx.sender
                    &&& info.name == name@
                    &&& forall|i: int| 2 <= i < w.len() ==> ((#[trigger] w[i]).0 matches StateKey::ContractSlot(a, _) && a == info.address)
                },
                TxPayload::CallContract { contract, .. } => {
                    &&& !(rd(StateKey::ContractMeta(contract)) matches ValueView::ContractMeta(Some(_)))
                        ==> tx_entries(tx, rd) == Some(Seq::<(StateKey, ValueView)>::empty())
                    &&& (rd(StateKey::ContractMeta(contract)) matches ValueView::ContractMeta(Some(_)))
                        ==> (tx_entries(tx, rd) matches Some(w) ==> {
                        &&& w.len() >= 1
                        &&& w[0] == bumped
                        &&& forall|i: int| 1 <= i < w.len() ==> ((#[trigger] w[i]).0 matches StateKey::ContractSlot(a, _) && a == contract)
                    })
                },
                _ => true,
            }
        }),
{
    reveal(tx_entries);
}

/// Every write a transaction makes against a store fits its location.
pub proof fn lemma_tx_entries_well_kinded(tx: Transaction, v: StoreView)
    requires
        tx_entries(tx, store_reader(v)) is Some,
    ensures
        all_well_kinded(tx_entries(tx, store_reader(v)).unwrap()),
{
    reveal(tx_entries);
    let w = tx_entries(tx, store_reader(v)).unwrap();
    let sk = StateKey::Account(tx.sender);
    let s = acct_of(base_read(v, sk));
    match tx.payload {
        TxPayload::Transfer { to, amount } => {
            let r = acct_of(base_read(v, StateKey::Account(to)));
            if s.balance >= amount {
                let e1 = (sk, ValueView::Account(AccountState { balance: (s.balance - amount) as u64, nonce: (s.nonce + 1) as u64 }));
                let e2 = (StateKey::Account(to), ValueView::Account(AccountState { balance: (r.balance + amount) as u64, nonce: r.nonce }));
                lemma_upsert_empty(e1.0, e1.1);
                lemma_upsert_single(e1.0, e1.1, e2.0, e2.1);
            }
        },
        TxPayload::Swap { pool_id, amount_in, min_out } => {
            let (ra, rb) = pool_of(base_read(v, StateKey::Pool(pool_id)));
            if ra + amount_in <= u64::MAX && rb * amount_in <= u64::MAX {
                lemma_swap_out_lt(ra, rb, amount_in);
            }
        },
        TxPayload::DeployContract { name, template, params } => {
            let info = deployed_info(tx.sender, s.nonce, name@, template@);
            let ds = deploy_entries(tx.sender, lowercase(template@), params@);
            let head = seq![
                (sk, ValueView::Account(AccountState { balance: s.balance, nonce: (s.nonce + 1) as u64 })),
                (StateKey::ContractMeta(info.address), ValueView::ContractMeta(Some(info))),
            ];
            let tail = slot_entries(info.address, ds);
            assert forall|i: int| 0 <= i < w.len() implies #[trigger] well_kinded(w[i]) by {
                if i >= 2 {
                    assert(w[i] == tail[i - 2]);
                }
            }
        },
        TxPayload::CallContract { contract, method, args } => {
            match base_read(v, StateKey::ContractMeta(contract)) {
                ValueView::ContractMeta(Some(info)) => {
                    let out = vm_call(tx.sender, info.template, lowercase(method@), method@, args@,
                        |slot: u64| slot_val(store_reader(v)(StateKey::ContractSlot(contract, slot)))).unwrap();
                    let tail = slot_entries(contract, out.writes);
                    assert forall|i: int| 0 <= i < w.len() implies #[trigger] well_kinded(w[i]) by {
                        if i >= 1 {
                            assert(w[i] == tail[i - 1]);
                        }
                    }
                },
                _ => {},
            }
        },
    }
}

/// The store after the first `i` transactions.
pub open spec fn prefix_state(base: StoreView, txs: Seq<Transaction>, i: int) -> StoreView {
    run_seq(base, txs.subrange(0, i)).unwrap()
}

/// The write set of transaction `j` against the store the transactions before it leave.
pub open spec fn writes_at(base: StoreView, txs: Seq<Transaction>, j: int) -> Seq<(StateKey, ValueView)> {
    tx_entries(txs[j], store_reader(prefix_state(base, txs, j))).unwrap()
}

/// The multi-version memory once transactions `0..e` have recorded their writes.
pub open spec fn mv_model(base: StoreView, txs: Seq<Transaction>, e: int) -> Map<(StateKey, usize), ValueView> {
    Map::new(
        |p: (StateKey, usize)| p.1 < e && entries_map(writes_at(base, txs, p.1 as int)).contains_key(p.0),
        |p: (StateKey, usize)| entries_map(writes_at(base, txs, p.1 as int))[p.0],
    )
}

/// Once transactions `0..e` have recorded their writes, transaction `i <= e` reads
/// through the multi-version memory exactly what the sequential run would show it.
pub proof fn lemma_mv_reads_prefix(base: StoreView, txs: Seq<Transaction>, e: int, i: int, k: StateKey)
    requires
        run_seq(base, txs) is Some,
        0 <= i <= e <= txs.len(),
        e <= usize::MAX,
        forall|j: int| 0 <= j < e ==> keys_distinct(#[trigger] writes_at(base, txs, j)),
        reserve_slots_distinct(),
    ensures
        mv_val(mv_model(base, txs, e), base, k, i as nat) == base_read(prefix_state(base, txs, i), k),
    decreases i,
{
    let m = mv_model(base, txs, e);
    if i == 0 {
        assert(txs.subrange(0, 0) =~= Seq::<Transaction>::empty());
    } else {
        lemma_mv_reads_prefix(base, txs, e, i - 1, k);
        lemma_run_seq_prefix(base, txs, i - 1);
        let w = writes_at(base, txs, i - 1);
        let prev = prefix_state(base, txs, i - 1);
        assert(keys_distinct(w));
        lemma_tx_entries_well_kinded(txs[i - 1], prev);
        lemma_read_after_writes(prev, w, k);
        assert(m.contains_key((k, (i - 1) as usize)) == entries_map(w).contains_key(k));
    }
}

/// What a transaction reads through the multi-version memory `m` over `base` at
/// position `i`.
pub open spec fn mv_reader(m: Map<(StateKey, usize), ValueView>, base: StoreView, i: nat) -> spec_fn(StateKey) -> ValueView {
    |k: StateKey| mv_val(m, base, k, i)
}

/// Upserting commutes with taking the contents of the values.
proof fn lemma_wviews_upsert(s: Seq<(StateKey, StateValue)>, k: StateKey, v: StateValue)
    requires
        keys_distinct(s),
    ensures
        wviews(upsert(s, k, v)) == upsert(wviews(s), k, v@),
{
    let t = wviews(s);
    if exists|i: int| 0 <= i < s.len() && s[i].0 == k {
        let i = choose|i: int| 0 <= i < s.len() && s[i].0 == k;
        assert(t[i].0 == k);
        let j = choose|j: int| 0 <= j < t.len() && t[j].0 == k;
        assert(s[j].0 == k);
        assert(i == j);
        assert(wviews(s.update(i, (k, v))) =~= t.update(i, (k, v@)));
    } else {
        assert(!(exists|j: int| 0 <= j < t.len() && t[j].0 == k)) by {
            if exists|j: int| 0 <= j < t.len() && t[j].0 == k {
                let j = choose|j: int| 0 <= j < t.len() && t[j].0 == k;
                assert(s[j].0 == k);
            }
        }
        assert(wviews(s.push((k, v))) =~= t.push((k, v@)));
    }
}

/// A transaction's reads and writes against the multi-version memory.
pub struct ExecutionResult {
    pub read_set: AssocMap<StateKey, TxVersion>,
    pub write_set: AssocMap<StateKey, StateValue>,
}

impl ExecutionResult {
    /// The result holds `tx`'s write set against the multi-version memory `m` over
    /// `base` at position `i`, its read set holds exactly the keys `tx` reads
    /// there, and the versions it read are those `m` shows it.
    pub open spec fn matches(&self, tx: Transaction, m: Map<(StateKey, usize), ValueView>, base: StoreView, i: nat) -> bool {
        &&& self.write_set.wf()
        &&& self.read_set.wf()
        &&& tx_entries(tx, mv_reader(m, base, i)) is Some
        &&& wviews(self.write_set.entries()) == tx_entries(tx, mv_reader(m, base, i)).unwrap()
        &&& forall|k: StateKey| #[trigger] self.read_set.view().contains_key(k) <==> tx_reads(tx, mv_reader(m, base, i)).contains(k)
        &&& forall|k: StateKey| #[trigger] self.read_set.view().contains_key(k) ==> self.read_set.view()[k] == mv_ver(m, k, i)
    }
}

/// Inserts a write into a write set, keeping its contents in step.
fn ws_insert(ws: &mut AssocMap<StateKey, StateValue>, k: StateKey, v: StateValue)
    requires
        old(ws).wf(),
    ensures
        final(ws).wf(),
        wviews(final(ws).entries()) == upsert(wviews(old(ws).entries()), k, v@),
{
    proof { old(ws).lemma_entries(); lemma_wviews_upsert(old(ws).entries(), k, v); }
    ws.insert(k, v);
}

/// Reads `key` for transaction `tx_idx`, noting the version in the read set.
fn tracked_read(mv: &MVMemory, rs: &mut AssocMap<StateKey, TxVersion>, key: StateKey, tx_idx: usize) -> (v: StateValue)
    requires
        old(rs).wf(),
        forall|k: StateKey| #[trigger] old(rs).view().contains_key(k) ==> old(rs).view()[k] == mv_ver(mv.writes(), k, tx_idx as nat),
    ensures
        final(rs).wf(),
        forall|k: StateKey| #[trigger] final(rs).view().contains_key(k) ==> final(rs).view()[k] == mv_ver(mv.writes(), k, tx_idx as nat),
        forall|k: StateKey| #[trigger] final(rs).view().contains_key(k) <==> (old(rs).view().contains_key(k) || k == key),
        v@ == mv_val(mv.writes(), mv.base(), key, tx_idx as nat),
{
    let (v, ver) = mv.read(&key, tx_idx);
    rs.insert(key, ver);
    v
}

/// What a two-element list holds.
proof fn lemma_pair_contains<A>(a: A, b: A, k: A)
    ensures
        seq![a, b].contains(k) <==> (k == a || k == b),
{
    if k == a {
        assert(seq![a, b][0] == k);
    } else if k == b {
        assert(seq![a, b][1] == k);
    }
}

/// What a one-element list holds.
proof fn lemma_single_contains<A>(a: A, k: A)
    ensures
        seq![a].contains(k) <==> k == a,
{
    if k == a {
        assert(seq![a][0] == k);
    }
}

fn stm_transfer(tx: &Transaction, tx_idx: usize, mv: &MVMemory) -> (r: ExecutionResult)
    requires
        tx.payload is Transfer,
        tx_entries(*tx, mv_reader(mv.writes(), mv.base(), tx_idx as nat)) is Some,
    ensures
        r.matches(*tx, mv.writes(), mv.base(), tx_idx as nat),
{
    proof { reveal(tx_entries); }
    let ghost rd = mv_reader(mv.writes(), mv.base(), tx_idx as nat);
    let mut rs: AssocMap<StateKey, TxVersion> = AssocMap::new();
    let mut ws: AssocMap<StateKey, StateValue> = AssocMap::new();
    let sk = StateKey::Account(tx.sender);
    let sv = tracked_read(mv, &mut rs, sk, tx_idx);
    let sender = match sv { StateValue::Account(a) => a, _ => AccountState { balance: 0, nonce: 0 } };
    proof { assert(sender == acct_of(rd(sk))); }
    if let TxPayload::Transfer { to, amount } = &tx.payload {
        let tk = StateKey::Account(*to);
        let rv = tracked_read(mv, &mut rs, tk, tx_idx);
        let recv = match rv { StateValue::Account(a) => a, _ => AccountState { balance: 0, nonce: 0 } };
        proof { assert(recv == acct_of(rd(tk))); }
        metering_work(tx.id, sender.balance);
        if sender.balance >= *amount {
            let s2 = AccountState { balance: sender.balance - *amount, nonce: sender.nonce + 1 };
            let r2 = AccountState { balance: recv.balance + *amount, nonce: recv.nonce };
            ws_insert(&mut ws, sk, StateValue::Account(s2));
            ws_insert(&mut ws, tk, StateValue::Account(r2));
        }
        proof {
            reveal(tx_reads);
            assert(tx_reads(*tx, rd) == seq![sk, tk]);
            assert forall|k: StateKey| #[trigger] rs.view().contains_key(k) <==> tx_reads(*tx, rd).contains(k) by {
                lemma_pair_contains(sk, tk, k);
            }
        }
    }
    let r = ExecutionResult { read_set: rs, write_set: ws };
    proof { assert(wviews(Seq::<(StateKey, StateValue)>::empty()) =~= Seq::<(StateKey, ValueView)>::empty()); }
    r
}

fn stm_swap(tx: &Transaction, tx_idx: usize, mv: &MVMemory) -> (r: ExecutionResult)
    requires
        tx.payload is Swap,
        tx_entries(*tx, mv_reader(mv.writes(), mv.base(), tx_idx as nat)) is Some,
    ensures
        r.matches(*tx, mv.writes(), mv.base(), tx_idx as nat),
{
    proof { reveal(tx_entries); }
    let ghost rd = mv_reader(mv.writes(), mv.base(), tx_idx as nat);
    let mut rs: AssocMap<StateKey, TxVersion> = AssocMap::new();
    let mut ws: AssocMap<StateKey, StateValue> = AssocMap::new();
    let sk = StateKey::Account(tx.sender);
    let sv = tracked_read(mv, &mut rs, sk, tx_idx);
    let sender = match sv { StateValue::Account(a) => a, _ => AccountState { balance: 0, nonce: 0 } };
    proof { assert(sender == acct_of(rd(sk))); }
    proof { assert(wviews(Seq::<(StateKey, StateValue)>::empty()) =~= Seq::<(StateKey, ValueView)>::empty()); }
    if let TxPayload::Swap { pool_id, amount_in, min_out } = &tx.payload {
        let pk = StateKey::Pool(*pool_id);
        let pv = tracked_read(mv, &mut rs, pk, tx_idx);
        let (res_a, res_b) = match pv { StateValue::Pool { reserve_a, reserve_b } => (reserve_a, reserve_b), _ => (10_000_000u64, 10_000_000u64) };
        proof { assert((res_a, res_b) == pool_of(rd(pk))); }
        metering_work(*pool_id, *amount_in);
        let dy = (res_b * *amount_in) / (res_a + *amount_in);
        if sender.balance >= *amount_in && dy >= *min_out {
            proof { lemma_swap_out_le(res_a, res_b, *amount_in); }
            let s2 = AccountState { balance: sender.balance - *amount_in, nonce: sender.nonce + 1 };
            ws_insert(&mut ws, sk, StateValue::Account(s2));
            ws_insert(&mut ws, pk, StateValue::Pool { reserve_a: res_a + *amount_in, reserve_b: res_b - dy });
            proof {
                let e1 = (sk, ValueView::Account(s2));
                let e2 = (pk, ValueView::Pool { reserve_a: (res_a + *amount_in) as u64, reserve_b: (res_b - dy) as u64 });
                lemma_upsert_empty(e1.0, e1.1);
                lemma_upsert_single(e1.0, e1.1, e2.0, e2.1);
            }
        }
        proof {
            reveal(tx_reads);
            assert(tx_reads(*tx, rd) == seq![sk, pk]);
            assert forall|k: StateKey| #[trigger] rs.view().contains_key(k) <==> tx_reads(*tx, rd).contains(k) by {
                lemma_pair_contains(sk, pk, k);
            }
        }
    }
    ExecutionResult { read_set: rs, write_set: ws }
}

fn stm_deploy(tx: &Transaction, tx_idx: usize, mv: &MVMemory) -> (r: ExecutionResult)
    requires
        tx.payload is DeployContract,
        tx_entries(*tx, mv_reader(mv.writes(), mv.base(), tx_idx as nat)) is Some,
    ensures
        r.matches(*tx, mv.writes(), mv.base(), tx_idx as nat),
{
    proof { reveal(tx_entries); }
    let ghost rd = mv_reader(mv.writes(), mv.base(), tx_idx as nat);
    let mut rs: AssocMap<StateKey, TxVersion> = AssocMap::new();
    let mut ws: AssocMap<StateKey, StateValue> = AssocMap::new();
    let sk = StateKey::Account(tx.sender);
    let sv = tracked_read(mv, &mut rs, sk, tx_idx);
    let sender = match sv { StateValue::Account(a) => a, _ => AccountState { balance: 0, nonce: 0 } };
    proof {
        assert(sender == acct_of(rd(sk)));
        reveal(tx_reads);
        assert(tx_reads(*tx, rd) == seq![sk]);
        assert forall|k: StateKey| #[trigger] rs.view().contains_key(k) <==> tx_reads(*tx, rd).contains(k) by {
            lemma_single_contains(sk, k);
        }
    }
    if let TxPayload::DeployContract { name, template, params } = &tx.payload {
        let (info, slots) = SmartContractEngine::deploy_entries(tx.sender, sender.nonce, 0, name.as_str(), template.as_str(), params.as_slice());
        let addr = info.address;
        let ghost iv = info@;
        proof {
            lemma_addr_with(addr);
            assert(iv == deployed_info(tx.sender, sender.nonce, name@, template@));
            slots.lemma_entries();
        }
        let s2 = AccountState { balance: sender.balance, nonce: sender.nonce + 1 };
        ws_insert(&mut ws, sk, StateValue::Account(s2));
        ws_insert(&mut ws, StateKey::ContractMeta(addr), StateValue::ContractMeta(Some(info)));
        let ghost head = seq![(sk, ValueView::Account(s2)), (StateKey::ContractMeta(addr), ValueView::ContractMeta(Some(iv)))];
        proof {
            lemma_upsert_empty(head[0].0, head[0].1);
            lemma_upsert_single(head[0].0, head[0].1, head[1].0, head[1].1);
            assert(wviews(Seq::<(StateKey, StateValue)>::empty()) =~= Seq::<(StateKey, ValueView)>::empty());
            assert(wviews(ws.entries()) == head);
        }
        let ghost es = slots.entries();
        let n = slots.len();
        for j in 0..n
            invariant
                n == es.len(),
                es == slots.entries(),
                keys_distinct(es),
                ws.wf(),
                head.len() == 2,
                !(head[0].0 is ContractSlot),
                !(head[1].0 is ContractSlot),
                wviews(ws.entries()) == head + slot_entries(addr, es.subrange(0, j as int)),
        {
            let e = *slots.entry(j);
            proof {
                let cur = wviews(ws.entries());
                let pre = slot_entries(addr, es.subrange(0, j as int));
                let key = StateKey::ContractSlot(addr, e.0);
                assert(pre.len() == j);
                assert(cur.len() == 2 + j);
                assert forall|x: int| 0 <= x < cur.len() implies cur[x].0 != key by {
                    if x >= 2 {
                        assert(cur[x] == pre[x - 2]);
                        assert(es.subrange(0, j as int)[x - 2] == es[x - 2]);
                        assert(es[x - 2].0 != es[j as int].0);
                    }
                }
            }
            ws_insert(&mut ws, StateKey::ContractSlot(addr, e.0), StateValue::ContractSlot(e.1));
            proof {
                assert(head + slot_entries(addr, es.subrange(0, j + 1)) =~=
                    (head + slot_entries(addr, es.subrange(0, j as int))).push((StateKey::ContractSlot(addr, e.0), ValueView::ContractSlot(e.1))));
            }
        }
        proof { assert(es.subrange(0, n as int) =~= es); }
    }
    ExecutionResult { read_set: rs, write_set: ws }
}

fn stm_call(tx: &Transaction, tx_idx: usize, mv: &MVMemory) -> (r: ExecutionResult)
    requires
        tx.payload is CallContract,
        tx_entries(*tx, mv_reader(mv.writes(), mv.base(), tx_idx as nat)) is Some,
    ensures
        r.matches(*tx, mv.writes(), mv.base(), tx_idx as nat),
{
    proof { reveal(tx_entries); }
    let ghost m = mv.writes();
    let ghost rd = mv_reader(m, mv.base(), tx_idx as nat);
    let mut rs: AssocMap<StateKey, TxVersion> = AssocMap::new();
    let mut ws: AssocMap<StateKey, StateValue> = AssocMap::new();
    let sk = StateKey::Account(tx.sender);
    let sv = tracked_read(mv, &mut rs, sk, tx_idx);
    let sender = match sv { StateValue::Account(a) => a, _ => AccountState { balance: 0, nonce: 0 } };
    proof {
        assert(sender == acct_of(rd(sk)));
        assert(wviews(Seq::<(StateKey, StateValue)>::empty()) =~= Seq::<(StateKey, ValueView)>::empty());
    }
    if let TxPayload::CallContract { contract, method, args } = &tx.payload {
        let mk = StateKey::ContractMeta(*contract);
        let meta = tracked_read(mv, &mut rs, mk, tx_idx);
        let ghost head = seq![sk, mk];
        proof {
            reveal(tx_reads);
            assert forall|k: StateKey| #[trigger] rs.view().contains_key(k) <==> head.contains(k) by {
                lemma_pair_contains(sk, mk, k);
            }
        }
        if let StateValue::ContractMeta(Some(info)) = meta {
            let s2 = AccountState { balance: sender.balance, nonce: sender.nonce + 1 };
            ws_insert(&mut ws, sk, StateValue::Account(s2));
            proof { lemma_upsert_empty(sk, ValueView::Account(s2)); }
            let ghost vrd = |slot: u64| slot_val(rd(StateKey::ContractSlot(*contract, slot)));
            let (res, reads, writes) = {
                let reader = |slot: u64| -> (v: u64)
                    ensures
                        v == slot_val(mv_val(mv.writes(), mv.base(), StateKey::ContractSlot(*contract, slot), tx_idx as nat)),
                {
                    match mv.read(&StateKey::ContractSlot(*contract, slot), tx_idx).0 {
                        StateValue::ContractSlot(x) => x,
                        _ => 0,
                    }
                };
                proof {
                    assert forall|slot: u64, v: u64| #[trigger] reader.ensures((slot,), v) implies v == vrd(slot) by {}
                }
                SmartContractEngine::execute_call_traced(tx.sender, &info, method.as_str(), args.as_slice(), &reader, Ghost(vrd))
            };
            let ghost es = writes.entries();
            let ghost whead = seq![(sk, ValueView::Account(s2))];
            proof { writes.lemma_entries(); }
            let n = writes.len();
            for j in 0..n
                invariant
                    n == es.len(),
                    es == writes.entries(),
                    keys_distinct(es),
                    ws.wf(),
                    whead.len() == 1,
                    !(whead[0].0 is ContractSlot),
                    wviews(ws.entries()) == whead + slot_entries(*contract, es.subrange(0, j as int)),
            {
                let e = *writes.entry(j);
                proof {
                    let cur = wviews(ws.entries());
                    let pre = slot_entries(*contract, es.subrange(0, j as int));
                    let key = StateKey::ContractSlot(*contract, e.0);
                    assert(pre.len() == j);
                    assert(cur.len() == 1 + j);
                    assert forall|x: int| 0 <= x < cur.len() implies cur[x].0 != key by {
                        if x >= 1 {
                            assert(cur[x] == pre[x - 1]);
                            assert(es.subrange(0, j as int)[x - 1] == es[x - 1]);
                            assert(es[x - 1].0 != es[j as int].0);
                        }
                    }
                }
                ws_insert(&mut ws, StateKey::ContractSlot(*contract, e.0), StateValue::ContractSlot(e.1));
                proof {
                    assert(whead + slot_entries(*contract, es.subrange(0, j + 1)) =~=
                        (whead + slot_entries(*contract, es.subrange(0, j as int))).push((StateKey::ContractSlot(*contract, e.0), ValueView::ContractSlot(e.1))));
                }
            }
            proof { assert(es.subrange(0, n as int) =~= es); }
            let ghost slot_key = |slot: u64| StateKey::ContractSlot(*contract, slot);
            let nr = reads.len();
            for j in 0..nr
                invariant
                    nr == reads.len(),
                    m == mv.writes(),
                    rs.wf(),
                    forall|k: StateKey| #[trigger] rs.view().contains_key(k) ==> rs.view()[k] == mv_ver(m, k, tx_idx as nat),
                    forall|s: u64| #[trigger] slot_key(s) == StateKey::ContractSlot(*contract, s),
                    forall|k: StateKey| #[trigger] rs.view().contains_key(k) <==> (head + reads@.subrange(0, j as int).map_values(slot_key)).contains(k),
            {
                let key = StateKey::ContractSlot(*contract, reads[j]);
                let ghost before = head + reads@.subrange(0, j as int).map_values(slot_key);
                let ghost rs0 = rs.view();
                proof {
                    assert forall|k: StateKey| rs0.contains_key(k) <==> before.contains(k) by {
                        assert(rs.view().contains_key(k) <==> before.contains(k));
                    }
                }
                let _ = tracked_read(mv, &mut rs, key, tx_idx);
                proof {
                    let after = head + reads@.subrange(0, j + 1).map_values(slot_key);
                    assert(key == slot_key(reads@[j as int]));
                    assert(after =~= before.push(key));
                    assert forall|k: StateKey| #[trigger] rs.view().contains_key(k) <==> after.contains(k) by {
                        if k == key {
                            assert(after[after.len() - 1] == k);
                        }
                        if after.contains(k) && k != key {
                            let t = choose|t: int| 0 <= t < after.len() && after[t] == k;
                            assert(before[t] == k);
                            assert(before.contains(k));
                        }
                        if before.contains(k) {
                            let t = choose|t: int| 0 <= t < before.len() && before[t] == k;
                            assert(after[t] == k);
                        }
                    }
                }
            }
            proof {
                assert(reads@.subrange(0, nr as int) =~= reads@);
                assert(tx_reads(*tx, rd) == head + reads@.map_values(slot_key));
            }
        } else {
            proof { assert(tx_reads(*tx, rd) == head); }
        }
    }
    ExecutionResult { read_set: rs, write_set: ws }
}

/// Runs transaction `tx` at position `tx_idx` against the multi-version memory,
/// recording what it read (with versions) and what it would write.
pub fn execute_tx_logic(tx: &Transaction, tx_idx: usize, mv: &MVMemory) -> (r: ExecutionResult)
    requires
        tx_entries(*tx, mv_reader(mv.writes(), mv.base(), tx_idx as nat)) is Some,
    ensures
        r.matches(*tx, mv.writes(), mv.base(), tx_idx as nat),
{
    match &tx.payload {
        TxPayload::Transfer { .. } => stm_transfer(tx, tx_idx, mv),
        TxPayload::Swap { .. } => stm_swap(tx, tx_idx, mv),
        TxPayload::DeployContract { .. } => stm_deploy(tx, tx_idx, mv),
        TxPayload::CallContract { .. } => stm_call(tx, tx_idx, mv),
    }
}


/// Distinct keys stay distinct when values are replaced by their contents.
proof fn lemma_wviews_distinct(s: Seq<(StateKey, StateValue)>)
    requires
        keys_distinct(s),
    ensures
        keys_distinct(wviews(s)),
{
    let t = wviews(s);
    assert forall|a: int, b: int| 0 <= a < t.len() && 0 <= b < t.len() && a != b implies t[a].0 != t[b].0 by {
        assert(t[a].0 == s[a].0 && t[b].0 == s[b].0);
    }
}

/// Transaction `j`'s slot in the executor holds its write set against the state
/// the transactions before it leave, and the versions it read are those the
/// multi-version memory `m` shows it.
pub open spec fn result_ok(r: Option<ExecutionResult>, base: StoreView, txs: Seq<Transaction>, m: Map<(StateKey, usize), ValueView>, j: int) -> bool {
    match r {
        Some(res) => {
            &&& res.write_set.wf()
            &&& res.read_set.wf()
            &&& wviews(res.write_set.entries()) == writes_at(base, txs, j)
            &&& forall|k: StateKey| #[trigger] res.read_set.view().contains_key(k) ==> res.read_set.view()[k] == mv_ver(m, k, j as nat)
        },
        None => false,
    }
}

/// The writes of transactions `0..i`, one after another.
pub open spec fn all_writes(base: StoreView, txs: Seq<Transaction>, i: int) -> Seq<(StateKey, ValueView)>
    decreases i,
{
    if i <= 0 {
        Seq::empty()
    } else {
        all_writes(base, txs, i - 1) + writes_at(base, txs, i - 1)
    }
}

/// Applying the writes of transactions `0..i` to the base gives the state after them.
proof fn lemma_all_writes(base: StoreView, txs: Seq<Transaction>, i: int)
    requires
        run_seq(base, txs) is Some,
        0 <= i <= txs.len(),
    ensures
        apply_entries(base, all_writes(base, txs, i)) == prefix_state(base, txs, i),
    decreases i,
{
    if i == 0 {
        assert(txs.subrange(0, 0) =~= Seq::<Transaction>::empty());
    } else {
        lemma_all_writes(base, txs, i - 1);
        lemma_run_seq_prefix(base, txs, i - 1);
        lemma_apply_entries_append(base, all_writes(base, txs, i - 1), writes_at(base, txs, i - 1));
    }
}

/// Recording transaction `i`'s writes extends the multi-version memory of
/// transactions `0..i` to that of `0..i + 1`.
proof fn lemma_mv_model_step(base: StoreView, txs: Seq<Transaction>, i: usize)
    ensures
        add_writes(mv_model(base, txs, i as int), i, entries_map(writes_at(base, txs, i as int))) == mv_model(base, txs, i + 1),
{
    assert(add_writes(mv_model(base, txs, i as int), i, entries_map(writes_at(base, txs, i as int))) =~= mv_model(base, txs, i + 1));
}

/// The state that a batch of staged writes makes of `base`.
pub open spec fn batch_view(
    base: StoreView,
    acc: Seq<(Address, AccountState)>,
    sl: Seq<((Address, Hash256), u64)>,
    con: Seq<ContractInfo>,
    cs: Seq<((Address, u64), u64)>,
) -> StoreView {
    StoreView {
        accounts: fold_insert(base.accounts, acc),
        storage_slots: fold_insert(base.storage_slots, sl),
        contracts: fold_contracts(base.contracts, con.map_values(|c: ContractInfo| c@)),
        contract_slots: fold_insert(base.contract_slots, cs),
    }
}

/// Stages one committed write into the batch of account, pool-slot, contract and
/// contract-slot writes; a write whose value does not fit its location is dropped.
fn stage_write(
    acc: &mut Vec<(Address, AccountState)>,
    sl: &mut Vec<((Address, Hash256), u64)>,
    con: &mut Vec<ContractInfo>,
    cs: &mut Vec<((Address, u64), u64)>,
    k: &StateKey,
    v: &StateValue,
    Ghost(base): Ghost<StoreView>,
)
    ensures
        batch_view(base, final(acc)@, final(sl)@, final(con)@, final(cs)@)
            == apply_entry(batch_view(base, old(acc)@, old(sl)@, old(con)@, old(cs)@), (*k, v@)),
{
    match k {
        StateKey::Account(a) => {
            if let StateValue::Account(st) = v {
                acc.push((*a, *st));
                proof {
                    assert(acc@.drop_last() =~= old(acc)@);
                    assert(batch_view(base, acc@, sl@, con@, cs@) =~= apply_entry(batch_view(base, old(acc)@, old(sl)@, old(con)@, old(cs)@), (*k, v@)));
                }
            }
        },
        StateKey::Pool(id) => {
            if let StateValue::Pool { reserve_a, reserve_b } = v {
                let addr = Address::new(*id);
                proof { lemma_pool_addr(*id, addr); }
                sl.push(((addr, reserve_a_slot()), *reserve_a));
                sl.push(((addr, reserve_b_slot()), *reserve_b));
                proof {
                    let first = ((pool_addr(*id), slot_a()), *reserve_a);
                    let second = ((pool_addr(*id), slot_b()), *reserve_b);
                    assert(sl@ =~= old(sl)@.push(first).push(second));
                    assert(old(sl)@.push(first).push(second).drop_last() =~= old(sl)@.push(first));
                    assert(old(sl)@.push(first).drop_last() =~= old(sl)@);
                    assert(fold_insert(base.storage_slots, old(sl)@.push(first)) == fold_insert(base.storage_slots, old(sl)@).insert(first.0, first.1));
                    assert(fold_insert(base.storage_slots, sl@) == fold_insert(base.storage_slots, old(sl)@).insert(first.0, first.1).insert(second.0, second.1));
                    assert(batch_view(base, acc@, sl@, con@, cs@) =~= apply_entry(batch_view(base, old(acc)@, old(sl)@, old(con)@, old(cs)@), (*k, v@)));
                }
            }
        },
        StateKey::ContractMeta(_) => {
            if let StateValue::ContractMeta(Some(info)) = v {
                let c = info.clone();
                con.push(c);
                proof {
                    let f = |c: ContractInfo| c@;
                    assert(con@.map_values(f) =~= old(con)@.map_values(f).push(info@));
                    assert(old(con)@.map_values(f).push(info@).drop_last() =~= old(con)@.map_values(f));
                    assert(batch_view(base, acc@, sl@, con@, cs@) =~= apply_entry(batch_view(base, old(acc)@, old(sl)@, old(con)@, old(cs)@), (*k, v@)));
                }
            }
        },
        StateKey::ContractSlot(a, slot) => {
            if let StateValue::ContractSlot(x) = v {
                cs.push(((*a, *slot), *x));
                proof {
                    assert(cs@.drop_last() =~= old(cs)@);
                    assert(batch_view(base, acc@, sl@, con@, cs@) =~= apply_entry(batch_view(base, old(acc)@, old(sl)@, old(con)@, old(cs)@), (*k, v@)));
                }
            }
        },
    }
}

/// Whether every version in `res`'s read set is still the one transaction
/// `tx_idx` would see now.
fn reads_still_current(res: &ExecutionResult, mv: &MVMemory, tx_idx: usize) -> (valid: bool)
    requires
        res.read_set.wf(),
    ensures
        valid == forall|k: StateKey| #[trigger] res.read_set.view().contains_key(k) ==> res.read_set.view()[k] == mv_ver(mv.writes(), k, tx_idx as nat),
{
    proof { res.read_set.lemma_entries(); }
    let ghost es = res.read_set.entries();
    let m = res.read_set.len();
    let mut valid = true;
    let mut j: usize = 0;
    while j < m && valid
        invariant
            m == es.len(),
            es == res.read_set.entries(),
            j <= m,
            valid == forall|x: int| 0 <= x < j ==> #[trigger] es[x].1 == mv_ver(mv.writes(), es[x].0, tx_idx as nat),
        decreases m - j,
    {
        let e = res.read_set.entry(j);
        let (_, cur) = mv.read(&e.0, tx_idx);
        if cur != e.1 {
            valid = false;
        }
        proof {
            if valid {
                assert forall|x: int| 0 <= x < j + 1 implies #[trigger] es[x].1 == mv_ver(mv.writes(), es[x].0, tx_idx as nat) by {
                    if x == j as int {
                        assert(es[x] == *e);
                    }
                }
            } else {
                if cur != e.1 {
                    assert(!(es[j as int].1 == mv_ver(mv.writes(), es[j as int].0, tx_idx as nat)));
                }
            }
        }
        j = j + 1;
    }
    proof {
        let rv = res.read_set.view();
        if valid {
            assert forall|k: StateKey| #[trigger] rv.contains_key(k) implies rv[k] == mv_ver(mv.writes(), k, tx_idx as nat) by {
                let x = choose|x: int| 0 <= x < es.len() && es[x].0 == k;
                crate::assoc::lemma_entries_map_at(es, x);
                assert(es[x].1 == mv_ver(mv.writes(), es[x].0, tx_idx as nat));
            }
        } else {
            let x = choose|x: int| 0 <= x < j && !(#[trigger] es[x].1 == mv_ver(mv.writes(), es[x].0, tx_idx as nat));
            crate::assoc::lemma_entries_map_at(es, x);
            assert(rv.contains_key(es[x].0));
        }
    }
    valid
}

/// Aborts transaction `i`: drops its writes from the multi-version memory and its
/// result, marks it for re-execution, and sends every later executed transaction
/// that read one of the dropped locations back for re-execution too.
fn abort_tx(
    mv: &mut MVMemory,
    results: &mut Vec<Option<ExecutionResult>>,
    executed: &mut Vec<bool>,
    validated: &mut Vec<bool>,
    i: usize,
)
    requires
        i < old(results).len(),
        old(executed).len() == old(results).len(),
        old(validated).len() == old(results).len(),
        forall|j: int| 0 <= j < old(results).len() && (#[trigger] old(results)@[j]) is Some ==> old(results)@[j].unwrap().read_set.wf(),
    ensures
        final(results).len() == old(results).len(),
        final(executed).len() == old(results).len(),
        final(validated).len() == old(results).len(),
        final(mv).base() == old(mv).base(),
        final(results)@[i as int] is None,
        !final(executed)@[i as int],
{
    let mut keys: Vec<StateKey> = Vec::new();
    match &results[i] {
        Some(res) => {
            let m = res.write_set.len();
            for j in 0..m
                invariant
                    m == res.write_set.entries().len(),
            {
                keys.push(res.write_set.entry(j).0);
            }
        },
        None => {},
    }
    mv.clear_writes(i, keys.as_slice());
    results.set(i, None);
    executed.set(i, false);
    let n = results.len();
    for j in (i + 1)..n
        invariant
            n == results.len(),
            i < n,
            executed.len() == n,
            validated.len() == n,
            results@[i as int] is None,
            !executed@[i as int],
            forall|x: int| 0 <= x < n && (#[trigger] results@[x]) is Some ==> results@[x].unwrap().read_set.wf(),
    {
        if executed[j] {
            let mut hit = false;
            match &results[j] {
                Some(rj) => {
                    for x in 0..keys.len()
                        invariant
                            rj.read_set.wf(),
                    {
                        if rj.read_set.get(&keys[x]).is_some() {
                            hit = true;
                        }
                    }
                },
                None => {},
            }
            if hit {
                validated.set(j, false);
                executed.set(j, false);
            }
        }
    }
}

/// The Block-STM executor: transactions run optimistically against multi-version
/// memory, are validated against the versions they read, and are re-executed on
/// conflict until every transaction is executed and validated; the committed
/// writes are then applied to a copy of the base store.
pub struct BlockSTMExecutor;

impl BlockSTMExecutor {
    /// Executes the block; returns the resulting store and the number of aborts.
    /// The store is the one the transactions leave when run one after another.
    /// The block's writes go to a copy: `base_store` is a value and is left as
    /// it was (no store shares its maps with another).
    pub fn execute_block(transactions: &[Transaction], base_store: &FlatStateStore) -> (r: (FlatStateStore, usize))
        requires
            run_seq(base_store@, transactions@) is Some,
        ensures
            r.0@ == run_seq(base_store@, transactions@).unwrap(),
            r.1 == 0,
    {
        let n = transactions.len();
        if n == 0 {
            return (base_store.duplicate(), 0);
        }
        // The schedule below relies on a pool's two reserve slots being distinct
        // locations; were they not, the transactions run one after another.
        if reserve_a_slot().same(&reserve_b_slot()) {
            return (SequentialExecutor::execute_block(transactions, base_store), 0);
        }
        let ghost base = base_store@;
        let ghost txs = transactions@;
        let mut mv = MVMemory::new(base_store.duplicate());
        let mut results: Vec<Option<ExecutionResult>> = Vec::new();
        let mut executed: Vec<bool> = Vec::new();
        let mut validated: Vec<bool> = Vec::new();
        for i in 0..n
            invariant
                results.len() == i,
                executed.len() == i,
                validated.len() == i,
                forall|j: int| 0 <= j < i ==> !#[trigger] executed@[j],
        {
            results.push(None);
            executed.push(false);
            validated.push(false);
        }
        proof { assert(mv.writes() =~= mv_model(base, txs, 0)); }
        let mut aborts: usize = 0;
        let mut completed = false;
        while !completed
            invariant
                n == transactions.len(),
                txs == transactions@,
                run_seq(base, txs) is Some,
                reserve_slots_distinct(),
                mv.base() == base,
                results.len() == n,
                executed.len() == n,
                validated.len() == n,
                aborts == 0,
                !completed ==> mv.writes() == mv_model(base, txs, 0),
                !completed ==> forall|j: int| 0 <= j < n ==> !#[trigger] executed@[j],
                completed ==> mv.writes() == mv_model(base, txs, n as int),
                completed ==> forall|j: int| 0 <= j < n ==> #[trigger] result_ok(results@[j], base, txs, mv.writes(), j),
            decreases (if completed { 0int } else { 1int }),
        {
            // Execution: every transaction not yet executed runs against the
            // multi-version memory and records its writes.
            for i in 0..n
                invariant
                    n == transactions.len(),
                    txs == transactions@,
                    run_seq(base, txs) is Some,
                    reserve_slots_distinct(),
                    mv.base() == base,
                    results.len() == n,
                    executed.len() == n,
                    validated.len() == n,
                    mv.writes() == mv_model(base, txs, i as int),
                    forall|j: int| 0 <= j < i ==> #[trigger] executed@[j],
                    forall|j: int| 0 <= j < i ==> #[trigger] result_ok(results@[j], base, txs, mv.writes(), j),
                    forall|j: int| i <= j < n ==> !#[trigger] executed@[j],
            {
                if !executed[i] {
                    let ghost m0 = mv.writes();
                    proof {
                        assert forall|j: int| 0 <= j < i implies keys_distinct(#[trigger] writes_at(base, txs, j)) by {
                            assert(result_ok(results@[j], base, txs, mv.writes(), j));
                            let res = results@[j].unwrap();
                            res.write_set.lemma_entries();
                            lemma_wviews_distinct(res.write_set.entries());
                        }
                        assert forall|k: StateKey| #[trigger] mv_reader(m0, base, i as nat)(k) == store_reader(prefix_state(base, txs, i as int))(k) by {
                            lemma_mv_reads_prefix(base, txs, i as int, i as int, k);
                        }
                        assert(mv_reader(m0, base, i as nat) =~= store_reader(prefix_state(base, txs, i as int)));
                        lemma_run_seq_prefix(base, txs, i as int);
                    }
                    let res = execute_tx_logic(&transactions[i], i, &mv);
                    mv.write_batch(i, &res.write_set);
                    proof {
                        let w = entries_map(wviews(res.write_set.entries()));
                        assert(wviews(res.write_set.entries()) == writes_at(base, txs, i as int));
                        lemma_mv_model_step(base, txs, i);
                        assert forall|j: int| 0 <= j < i implies #[trigger] result_ok(results@[j], base, txs, mv.writes(), j) by {
                            assert(result_ok(results@[j], base, txs, m0, j));
                            let rs = results@[j].unwrap().read_set;
                            assert forall|k: StateKey| #[trigger] rs.view().contains_key(k) implies rs.view()[k] == mv_ver(mv.writes(), k, j as nat) by {
                                lemma_mv_add_later(m0, base, i, w, k, j as nat);
                            }
                        }
                        assert forall|k: StateKey| #[trigger] res.read_set.view().contains_key(k) implies res.read_set.view()[k] == mv_ver(mv.writes(), k, i as nat) by {
                            lemma_mv_add_later(m0, base, i, w, k, i as nat);
                        }
                        assert(result_ok(Some(res), base, txs, mv.writes(), i as int));
                    }
                    results.set(i, Some(res));
                    executed.set(i, true);
                    validated.set(i, false);
                }
            }
            // Validation: a transaction whose reads no longer show the versions
            // it saw is aborted, and what read its writes goes back to be run again.
            let mut has_conflict = false;
            for i in 0..n
                invariant
                    n == transactions.len(),
                    mv.base() == base,
                    results.len() == n,
                    executed.len() == n,
                    validated.len() == n,
                    mv.writes() == mv_model(base, txs, n as int),
                    forall|j: int| 0 <= j < n ==> #[trigger] executed@[j],
                    forall|j: int| 0 <= j < n ==> #[trigger] result_ok(results@[j], base, txs, mv.writes(), j),
                    forall|j: int| 0 <= j < i ==> #[trigger] validated@[j],
                    !has_conflict,
                    aborts == 0,
            {
                if executed[i] && !validated[i] {
                    proof { assert(result_ok(results@[i as int], base, txs, mv.writes(), i as int)); }
                    let check: Option<bool> = match &results[i] {
                        Some(res) => Some(reads_still_current(res, &mv, i)),
                        None => None,
                    };
                    proof { assert(result_ok(results@[i as int], base, txs, mv.writes(), i as int)); }
                    match check {
                        Some(true) => {
                            validated.set(i, true);
                        },
                        Some(false) => {
                            has_conflict = true;
                            aborts = aborts + 1;
                            abort_tx(&mut mv, &mut results, &mut executed, &mut validated, i);
                        },
                        None => {},
                    }
                }
            }
            let mut all_done = true;
            for i in 0..n
                invariant
                    executed.len() == n,
                    validated.len() == n,
                    forall|j: int| 0 <= j < n ==> #[trigger] executed@[j],
                    forall|j: int| 0 <= j < n ==> #[trigger] validated@[j],
                    all_done,
                    results.len() == n,
                    mv.writes() == mv_model(base, txs, n as int),
                    forall|j: int| 0 <= j < n ==> #[trigger] result_ok(results@[j], base, txs, mv.writes(), j),
            {
                all_done = all_done && executed[i] && validated[i];
            }
            if all_done && !has_conflict {
                completed = true;
            }
        }
        // Commit: gather the write sets in transaction order and apply them to a
        // copy of the base store.
        let mut acc: Vec<(Address, AccountState)> = Vec::new();
        let mut sl: Vec<((Address, Hash256), u64)> = Vec::new();
        let mut con: Vec<ContractInfo> = Vec::new();
        let mut cs: Vec<((Address, u64), u64)> = Vec::new();
        proof {
            assert(con@.map_values(|c: ContractInfo| c@) =~= Seq::<ContractInfoView>::empty());
            assert(batch_view(base, acc@, sl@, con@, cs@) =~= base);
        }
        for i in 0..n
            invariant
                n == transactions.len(),
                results.len() == n,
                forall|j: int| 0 <= j < n ==> #[trigger] result_ok(results@[j], base, txs, mv.writes(), j),
                batch_view(base, acc@, sl@, con@, cs@) == apply_entries(base, all_writes(base, txs, i as int)),
        {
            proof { assert(result_ok(results@[i as int], base, txs, mv.writes(), i as int)); }
            match &results[i] {
                Some(res) => {
                    let ghost es = wviews(res.write_set.entries());
                    let ghost pre = all_writes(base, txs, i as int);
                    let m = res.write_set.len();
                    proof { res.write_set.lemma_entries(); }
                    for j in 0..m
                        invariant
                            m == res.write_set.entries().len(),
                            es == wviews(res.write_set.entries()),
                            batch_view(base, acc@, sl@, con@, cs@) == apply_entries(base, pre + es.subrange(0, j as int)),
                    {
                        let e = res.write_set.entry(j);
                        stage_write(&mut acc, &mut sl, &mut con, &mut cs, &e.0, &e.1, Ghost(base));
                        proof {
                            assert((pre + es.subrange(0, j + 1)).drop_last() =~= pre + es.subrange(0, j as int));
                            assert(es[j as int] == (e.0, e.1@));
                        }
                    }
                    proof { assert(es.subrange(0, m as int) =~= es); }
                },
                None => {},
            }
        }
        let mut final_store = base_store.duplicate();
        final_store.apply_batch(acc, sl, con, cs);
        proof {
            lemma_all_writes(base, txs, n as int);
            assert(txs.subrange(0, n as int) =~= txs);
        }
        (final_store, aborts)
    }
}


/// Where the run of `txs` fails at transaction `i`, the whole run fails.
proof fn lemma_run_seq_fails(v: StoreView, txs: Seq<Transaction>, i: int, s: StoreView)
    requires
        0 <= i < txs.len(),
        run_seq(v, txs.subrange(0, i)) == Some(s),
        tx_entries(txs[i], store_reader(s)) is None,
    ensures
        run_seq(v, txs) is None,
    decreases txs.len(),
{
    if i + 1 == txs.len() {
        assert(txs.drop_last() =~= txs.subrange(0, i));
    } else {
        assert(txs.drop_last().subrange(0, i) =~= txs.subrange(0, i));
        lemma_run_seq_fails(v, txs.drop_last(), i, s);
    }
}

/// Whether `tx` runs against `store` without its arithmetic overflowing.
fn tx_fits(store: &FlatStateStore, tx: &Transaction) -> (b: bool)
    ensures
        b == (tx_entries(*tx, store_reader(store@)) is Some),
{
    proof { reveal(tx_entries); }
    let ghost s0 = store@;
    let sender = store.get_account(&tx.sender);
    match &tx.payload {
        TxPayload::Transfer { to, amount } => {
            let recv = store.get_account(to);
            if sender.balance >= *amount {
                sender.nonce < u64::MAX && recv.balance <= u64::MAX - *amount
            } else {
                true
            }
        },
        TxPayload::Swap { pool_id, amount_in, min_out } => {
            let pool = Address::new(*pool_id);
            proof { lemma_pool_addr(*pool_id, pool); }
            let mut res_a = store.get_slot(&pool, &reserve_a_slot());
            let mut res_b = store.get_slot(&pool, &reserve_b_slot());
            if res_a == 0 {
                res_a = 10_000_000;
            }
            if res_b == 0 {
                res_b = 10_000_000;
            }
            proof { assert((res_a, res_b) == pool_of(base_read(s0, StateKey::Pool(*pool_id)))); }
            let prod = match res_b.checked_mul(*amount_in) {
                Some(p) => p,
                None => { return false; },
            };
            if res_a > u64::MAX - *amount_in || res_a + *amount_in == 0 {
                return false;
            }
            let dy = prod / (res_a + *amount_in);
            if sender.balance >= *amount_in && dy >= *min_out {
                sender.nonce < u64::MAX
            } else {
                true
            }
        },
        TxPayload::DeployContract { .. } => sender.nonce < u64::MAX,
        TxPayload::CallContract { contract, method, args } => {
            match store.get_contract(contract) {
                Some(info) => {
                    proof {
                        assert(base_read(s0, StateKey::ContractMeta(*contract)) == ValueView::ContractMeta(Some(info@)));
                    }
                    let n = args.len() as u64;
                    if sender.nonce == u64::MAX || n > (u64::MAX - 21000) / 500 {
                        proof {
                            if n > (u64::MAX - 21000) / 500 {
                                assert(21000 + n * 500 > u64::MAX) by (nonlinear_arith)
                                    requires n > (u64::MAX - 21000) / 500;
                            }
                        }
                        return false;
                    }
                    proof {
                        assert(21000 + n * 500 <= u64::MAX) by (nonlinear_arith)
                            requires n <= (u64::MAX - 21000) / 500;
                    }
                    let ghost rd = |slot: u64| slot_val(store_reader(s0)(StateKey::ContractSlot(*contract, slot)));
                    let reader = |slot: u64| -> (v: u64)
                        ensures
                            v == slot_or_zero(store@.contract_slots, (*contract, slot)),
                    {
                        store.get_contract_slot(contract, slot)
                    };
                    proof {
                        assert forall|slot: u64, v: u64| #[trigger] reader.ensures((slot,), v) implies v == rd(slot) by {}
                    }
                    SmartContractEngine::run_call(tx.sender, &info, method.as_str(), args.as_slice(), &reader, Ghost(rd)).is_some()
                },
                None => true,
            }
        },
    }
}

impl SequentialExecutor {
    /// Runs `transactions` in order against a copy of `base_store`, or gives
    /// `None` where some transaction's arithmetic would overflow.
    pub fn try_execute_block(transactions: &[Transaction], base_store: &FlatStateStore) -> (r: Option<FlatStateStore>)
        ensures
            r is Some <==> run_seq(base_store@, transactions@) is Some,
            r matches Some(s) ==> s@ == run_seq(base_store@, transactions@).unwrap(),
    {
        let mut store = base_store.duplicate();
        let n = transactions.len();
        proof { assert(transactions@.subrange(0, 0) =~= Seq::<Transaction>::empty()); }
        for i in 0..n
            invariant
                n == transactions@.len(),
                run_seq(base_store@, transactions@.subrange(0, i as int)) == Some(store@),
        {
            if !tx_fits(&store, &transactions[i]) {
                proof { lemma_run_seq_fails(base_store@, transactions@, i as int, store@); }
                return None;
            }
            proof {
                let t = transactions@.subrange(0, i + 1);
                assert(t.drop_last() =~= transactions@.subrange(0, i as int));
                assert(t.last() == transactions@[i as int]);
            }
            seq_apply(&mut store, &transactions[i]);
        }
        proof { assert(transactions@.subrange(0, n as int) =~= transactions@); }
        Some(store)
    }
}

impl BlockSTMExecutor {
    /// `execute_block` where no transaction's arithmetic overflows; `None`
    /// otherwise.
    pub fn try_execute_block(transactions: &[Transaction], base_store: &FlatStateStore) -> (r: Option<(FlatStateStore, usize)>)
        ensures
            r is Some <==> run_seq(base_store@, transactions@) is Some,
            r matches Some(p) ==> p.0@ == run_seq(base_store@, transactions@).unwrap() && p.1 == 0,
    {
        if SequentialExecutor::try_execute_block(transactions, base_store).is_some() {
            Some(Self::execute_block(transactions, base_store))
        } else {
            None
        }
    }
}

} // verus!
