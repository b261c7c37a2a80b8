//! The flat state store: accounts, pool storage slots, deployed contracts and
//! contract storage slots.
use vstd::prelude::*;
use std::collections::HashMap;

use crate::assoc::{AssocMap, keys_distinct, entries_map, lemma_entries_map_at, fold_insert};
use crate::types::{AccountState, Address, ContractInfo, ContractInfoView, Hash256, sha256, u64_be, push_bytes, push_u64_be};
use crate::order::{sort_entries, sorted_entries};

verus! {

broadcast use vstd::std_specs::hash::group_hash_axioms;

/// The contents of a state store.
#[verifier::ext_equal]
pub struct StoreView {
    pub accounts: Map<Address, AccountState>,
    pub storage_slots: Map<(Address, Hash256), u64>,
    pub contracts: Map<Address, ContractInfoView>,
    pub contract_slots: Map<(Address, u64), u64>,
}

/// An account as the store reports it: its state, or zero balance and nonce.
pub open spec fn account_or_default(m: Map<Address, AccountState>, a: Address) -> AccountState {
    if m.contains_key(a) { m[a] } else { AccountState { balance: 0, nonce: 0 } }
}

/// A slot value as the store reports it: the stored value, or zero.
pub open spec fn slot_or_zero<K>(m: Map<K, u64>, k: K) -> u64 {
    if m.contains_key(k) { m[k] } else { 0 }
}

/// `m` with each contract of `s` filed under its address in order.
pub open spec fn fold_contracts(m: Map<Address, ContractInfoView>, s: Seq<ContractInfoView>) -> Map<Address, ContractInfoView>
    decreases s.len(),
{
    if s.len() == 0 {
        m
    } else {
        fold_contracts(m, s.drop_last()).insert(s.last().address, s.last())
    }
}

/// The ledger state: accounts, pool slots, contracts and contract slots.
pub struct FlatStateStore {
    accounts: AssocMap<Address, AccountState>,
    storage_slots: AssocMap<(Address, Hash256), u64>,
    contracts: AssocMap<Address, ContractInfo>,
    contract_slots: AssocMap<(Address, u64), u64>,
}

impl View for FlatStateStore {
    type V = StoreView;

    closed spec fn view(&self) -> StoreView {
        StoreView {
            accounts: self.accounts.view(),
            storage_slots: self.storage_slots.view(),
            contracts: self.contracts.view().map_values(|c: ContractInfo| c@),
            contract_slots: self.contract_slots.view(),
        }
    }
}

/// Every contract is filed under its own address.
pub open spec fn contracts_keyed(m: Map<Address, ContractInfo>) -> bool {
    forall|a: Address| #[trigger] m.contains_key(a) ==> m[a].address == a
}

impl FlatStateStore {
    #[verifier::type_invariant]
    spec fn inv(self) -> bool {
        &&& self.accounts.wf()
        &&& self.storage_slots.wf()
        &&& self.contracts.wf()
        &&& self.contract_slots.wf()
        &&& contracts_keyed(self.contracts.view())
    }

    /// Every contract in the store is filed under its own address.
    pub fn contracts_are_keyed(&self)
        ensures
            forall|a: Address| #[trigger] self@.contracts.contains_key(a) ==> self@.contracts[a].address == a,
    {
        proof { use_type_invariant(self); }
    }

    /// An empty store.
    pub fn new() -> (s: FlatStateStore)
        ensures
            s@.accounts == Map::<Address, AccountState>::empty(),
            s@.storage_slots == Map::<(Address, Hash256), u64>::empty(),
            s@.contracts == Map::<Address, ContractInfoView>::empty(),
            s@.contract_slots == Map::<(Address, u64), u64>::empty(),
    {
        let s = FlatStateStore {
            accounts: AssocMap::new(),
            storage_slots: AssocMap::new(),
            contracts: AssocMap::new(),
            contract_slots: AssocMap::new(),
        };
        proof { assert(s@.contracts =~= Map::<Address, ContractInfoView>::empty()); }
        s
    }

    /// A separate copy of the store.
    pub fn duplicate(&self) -> (r: FlatStateStore)
        ensures
            r@ == self@,
    {
        proof { use_type_invariant(self); }
        let mut contracts: AssocMap<Address, ContractInfo> = AssocMap::new();
        let n = self.contracts.len();
        let ghost src = self.contracts.entries();
        proof { self.contracts.lemma_entries(); }
        for i in 0..n
            invariant
                n == src.len(),
                src == self.contracts.entries(),
                keys_distinct(src),
                contracts.wf(),
                contracts.view() == entries_map(src.subrange(0, i as int)),
        {
            let e = self.contracts.entry(i);
            let info = e.1.clone();
            proof {
                let pre = src.subrange(0, i as int);
                assert forall|k: int| 0 <= k < pre.len() implies pre[k].0 != e.0 by {
                    assert(pre[k] == src[k]);
                }
                assert(!entries_map(pre).contains_key(e.0)) by {
                    if entries_map(pre).contains_key(e.0) {
                        let x = choose|x: int| 0 <= x < pre.len() && pre[x].0 == e.0;
                    }
                }
                crate::assoc::lemma_entries_map_push(pre, e.0, e.1);
                assert(src.subrange(0, i + 1) =~= pre.push((e.0, e.1)));
            }
            contracts.insert(e.0, info);
        }
        proof { assert(src.subrange(0, n as int) =~= src); }
        FlatStateStore {
            accounts: self.accounts.copy(),
            storage_slots: self.storage_slots.copy(),
            contracts,
            contract_slots: self.contract_slots.copy(),
        }
    }

    /// The account at `addr`, or zero balance and nonce.
    pub fn get_account(&self, addr: &Address) -> (a: AccountState)
        ensures
            a == account_or_default(self@.accounts, *addr),
    {
        proof { use_type_invariant(self); }
        match self.accounts.get(addr) {
            Some(a) => *a,
            None => AccountState { balance: 0, nonce: 0 },
        }
    }

    /// The balance at `addr`, zero where there is no account.
    pub fn get_balance(&self, addr: &Address) -> (b: u64)
        ensures
            b == account_or_default(self@.accounts, *addr).balance,
    {
        self.get_account(addr).balance
    }

    /// Stores `state` as the account at `addr`.
    pub fn set_account(&mut self, addr: Address, state: AccountState)
        ensures
            final(self)@.accounts == old(self)@.accounts.insert(addr, state),
            final(self)@.storage_slots == old(self)@.storage_slots,
            final(self)@.contracts == old(self)@.contracts,
            final(self)@.contract_slots == old(self)@.contract_slots,
    {
        proof { use_type_invariant(&*self); }
        let mut m = AssocMap::new();
        std::mem::swap(&mut m, &mut self.accounts);
        m.insert(addr, state);
        self.accounts = m;
    }

    /// Adds `amount` to the balance at `addr`, opening the account if needed.
    pub fn deposit(&mut self, addr: Address, amount: u64)
        requires
            account_or_default(old(self)@.accounts, addr).balance + amount <= u64::MAX,
        ensures
            final(self)@.accounts == old(self)@.accounts.insert(addr, AccountState {
                balance: (account_or_default(old(self)@.accounts, addr).balance + amount) as u64,
                nonce: account_or_default(old(self)@.accounts, addr).nonce,
            }),
            final(self)@.storage_slots == old(self)@.storage_slots,
            final(self)@.contracts == old(self)@.contracts,
            final(self)@.contract_slots == old(self)@.contract_slots,
    {
        let a = self.get_account(&addr);
        self.set_account(addr, AccountState { balance: a.balance + amount, nonce: a.nonce });
    }

    /// Moves `amount` from `from` to `to`; `false`, moving nothing, where `from`
    /// holds less. Either way `from` gets an account if it had none.
    pub fn transfer(&mut self, from: Address, to: Address, amount: u64) -> (ok: bool)
        requires
            ({
                let f = account_or_default(old(self)@.accounts, from);
                f.balance >= amount && from != to ==>
                    account_or_default(old(self)@.accounts, to).balance + amount <= u64::MAX
            }),
        ensures
            ({
                let f = account_or_default(old(self)@.accounts, from);
                let opened = old(self)@.accounts.insert(from, f);
                &&& ok == (f.balance >= amount)
                &&& !ok ==> final(self)@.accounts == opened
                &&& ok && from == to ==> final(self)@.accounts == opened
                &&& ok && from != to ==> final(self)@.accounts == opened
                    .insert(from, AccountState { balance: (f.balance - amount) as u64, nonce: f.nonce })
                    .insert(to, AccountState {
                        balance: (account_or_default(old(self)@.accounts, to).balance + amount) as u64,
                        nonce: account_or_default(old(self)@.accounts, to).nonce,
                    })
            }),
            final(self)@.storage_slots == old(self)@.storage_slots,
            final(self)@.contracts == old(self)@.contracts,
            final(self)@.contract_slots == old(self)@.contract_slots,
    {
        let f = self.get_account(&from);
        self.set_account(from, f);
        if f.balance < amount {
            return false;
        }
        self.set_account(from, AccountState { balance: f.balance - amount, nonce: f.nonce });
        let t = self.get_account(&to);
        self.set_account(to, AccountState { balance: t.balance + amount, nonce: t.nonce });
        proof {
            if from == to {
                assert(final(self)@.accounts =~= old(self)@.accounts.insert(from, f));
            }
        }
        true
    }

    /// The pool storage slot `slot` of `addr`, zero where unset.
    pub fn get_slot(&self, addr: &Address, slot: &Hash256) -> (v: u64)
        ensures
            v == slot_or_zero(self@.storage_slots, (*addr, *slot)),
    {
        proof { use_type_invariant(self); }
        match self.storage_slots.get(&(*addr, *slot)) {
            Some(v) => *v,
            None => 0,
        }
    }

    /// Sets the pool storage slot `slot` of `addr`.
    pub fn set_slot(&mut self, addr: Address, slot: Hash256, val: u64)
        ensures
            final(self)@.storage_slots == old(self)@.storage_slots.insert((addr, slot), val),
            final(self)@.accounts == old(self)@.accounts,
            final(self)@.contracts == old(self)@.contracts,
            final(self)@.contract_slots == old(self)@.contract_slots,
    {
        proof { use_type_invariant(&*self); }
        let mut m = AssocMap::new();
        std::mem::swap(&mut m, &mut self.storage_slots);
        m.insert((addr, slot), val);
        self.storage_slots = m;
    }

    /// Files a contract under its address, replacing any contract there.
    pub fn register_contract(&mut self, info: ContractInfo)
        ensures
            final(self)@.contracts == old(self)@.contracts.insert(info.address, info@),
            final(self)@.accounts == old(self)@.accounts,
            final(self)@.storage_slots == old(self)@.storage_slots,
            final(self)@.contract_slots == old(self)@.contract_slots,
    {
        proof { use_type_invariant(&*self); }
        let a = info.address;
        let mut m = AssocMap::new();
        std::mem::swap(&mut m, &mut self.contracts);
        m.insert(a, info);
        self.contracts = m;
        proof {
            assert(final(self)@.contracts =~= old(self)@.contracts.insert(info.address, info@));
        }
    }

    /// The contract at `addr`, if any.
    pub fn get_contract(&self, addr: &Address) -> (c: Option<ContractInfo>)
        ensures
            c is Some == self@.contracts.contains_key(*addr),
            c is Some ==> c.unwrap()@ == self@.contracts[*addr],
    {
        proof { use_type_invariant(self); }
        match self.contracts.get(addr) {
            Some(c) => Some(c.clone()),
            None => None,
        }
    }

    /// All deployed contracts, each once.
    pub fn list_contracts(&self) -> (v: Vec<ContractInfo>)
        ensures
            v@.len() == self@.contracts.dom().len(),
            forall|i: int| 0 <= i < v@.len() ==> self@.contracts.contains_key(#[trigger] v@[i].address)
                && self@.contracts[v@[i].address] == v@[i]@,
            forall|a: Address| #[trigger] self@.contracts.contains_key(a) ==>
                exists|i: int| 0 <= i < v@.len() && v@[i].address == a,
            forall|i: int, j: int| 0 <= i < v@.len() && 0 <= j < v@.len() && i != j ==> v@[i].address != v@[j].address,
    {
        proof { use_type_invariant(self); self.contracts.lemma_entries(); }
        let ghost src = self.contracts.entries();
        let n = self.contracts.len();
        let mut v: Vec<ContractInfo> = Vec::new();
        for i in 0..n
            invariant
                n == src.len(),
                src == self.contracts.entries(),
                keys_distinct(src),
                self.contracts.view() == entries_map(src),
                contracts_keyed(self.contracts.view()),
                v@.len() == i,
                forall|k: int| 0 <= k < i ==> #[trigger] v@[k] == src[k].1,
        {
            let e = self.contracts.entry(i);
            v.push(e.1.clone());
        }
        proof {
            assert forall|i: int| 0 <= i < v@.len() implies self@.contracts.contains_key(#[trigger] v@[i].address)
                && self@.contracts[v@[i].address] == v@[i]@ by {
                lemma_entries_map_at(src, i);
            }
            assert forall|a: Address| #[trigger] self@.contracts.contains_key(a) implies
                exists|i: int| 0 <= i < v@.len() && v@[i].address == a by {
                let x = choose|x: int| 0 <= x < src.len() && src[x].0 == a;
                lemma_entries_map_at(src, x);
                assert(v@[x].address == a);
            }
            assert forall|i: int, j: int| 0 <= i < v@.len() && 0 <= j < v@.len() && i != j implies v@[i].address != v@[j].address by {
                lemma_entries_map_at(src, i);
                lemma_entries_map_at(src, j);
            }
            crate::assoc::lemma_entries_map_len(src);
            assert(self@.contracts.dom() =~= self.contracts.view().dom());
        }
        v
    }

    /// Contract storage slot `slot` of `addr`, zero where unset.
    pub fn get_contract_slot(&self, addr: &Address, slot: u64) -> (v: u64)
        ensures
            v == slot_or_zero(self@.contract_slots, (*addr, slot)),
    {
        proof { use_type_invariant(self); }
        match self.contract_slots.get(&(*addr, slot)) {
            Some(v) => *v,
            None => 0,
        }
    }

    /// Sets contract storage slot `slot` of `addr`.
    pub fn set_contract_slot(&mut self, addr: Address, slot: u64, val: u64)
        ensures
            final(self)@.contract_slots == old(self)@.contract_slots.insert((addr, slot), val),
            final(self)@.accounts == old(self)@.accounts,
            final(self)@.storage_slots == old(self)@.storage_slots,
            final(self)@.contracts == old(self)@.contracts,
    {
        proof { use_type_invariant(&*self); }
        let mut m = AssocMap::new();
        std::mem::swap(&mut m, &mut self.contract_slots);
        m.insert((addr, slot), val);
        self.contract_slots = m;
    }

    /// All storage slots of the contract at `addr`.
    pub fn get_all_contract_slots(&self, addr: &Address) -> (m: HashMap<u64, u64>)
        ensures
            m@ == Map::new(|s: u64| self@.contract_slots.contains_key((*addr, s)), |s: u64| self@.contract_slots[(*addr, s)]),
    {
        proof { use_type_invariant(self); self.contract_slots.lemma_entries(); }
        let ghost src = self.contract_slots.entries();
        let n = self.contract_slots.len();
        let mut m: HashMap<u64, u64> = HashMap::new();
        for i in 0..n
            invariant
                n == src.len(),
                src == self.contract_slots.entries(),
                keys_distinct(src),
                self.contract_slots.view() == entries_map(src),
                m@ == Map::new(|s: u64| exists|k: int| 0 <= k < i && src[k].0 == (*addr, s),
                    |s: u64| self@.contract_slots[(*addr, s)]),
        {
            let e = self.contract_slots.entry(i);
            if e.0.0.same(addr) {
                m.insert(e.0.1, e.1);
                proof { lemma_entries_map_at(src, i as int); }
            }
            proof {
                assert(m@ =~= Map::new(|s: u64| exists|k: int| 0 <= k < i + 1 && src[k].0 == (*addr, s),
                    |s: u64| self@.contract_slots[(*addr, s)]));
            }
        }
        proof {
            assert(m@ =~= Map::new(|s: u64| self@.contract_slots.contains_key((*addr, s)), |s: u64| self@.contract_slots[(*addr, s)]));
        }
        m
    }

    /// Every contract storage slot as `(contract, slot, value)`, each once.
    pub fn export_all_contract_slots(&self) -> (v: Vec<(Address, u64, u64)>)
        ensures
            v@.len() == self@.contract_slots.dom().len(),
            forall|i: int| 0 <= i < v@.len() ==> self@.contract_slots.contains_key((#[trigger] v@[i].0, v@[i].1))
                && self@.contract_slots[(v@[i].0, v@[i].1)] == v@[i].2,
            forall|k: (Address, u64)| #[trigger] self@.contract_slots.contains_key(k) ==>
                exists|i: int| 0 <= i < v@.len() && (v@[i].0, v@[i].1) == k,
            forall|i: int, j: int| 0 <= i < v@.len() && 0 <= j < v@.len() && i != j ==> (v@[i].0, v@[i].1) != (v@[j].0, v@[j].1),
    {
        proof { use_type_invariant(self); self.contract_slots.lemma_entries(); }
        let ghost src = self.contract_slots.entries();
        let n = self.contract_slots.len();
        let mut v: Vec<(Address, u64, u64)> = Vec::new();
        for i in 0..n
            invariant
                n == src.len(),
                src == self.contract_slots.entries(),
                v@.len() == i,
                forall|k: int| 0 <= k < i ==> #[trigger] v@[k] == (src[k].0.0, src[k].0.1, src[k].1),
        {
            let e = self.contract_slots.entry(i);
            v.push((e.0.0, e.0.1, e.1));
        }
        proof {
            assert forall|i: int| 0 <= i < v@.len() implies self@.contract_slots.contains_key((#[trigger] v@[i].0, v@[i].1))
                && self@.contract_slots[(v@[i].0, v@[i].1)] == v@[i].2 by {
                lemma_entries_map_at(src, i);
            }
            assert forall|k: (Address, u64)| #[trigger] self@.contract_slots.contains_key(k) implies
                exists|i: int| 0 <= i < v@.len() && (v@[i].0, v@[i].1) == k by {
                let x = choose|x: int| 0 <= x < src.len() && src[x].0 == k;
                assert((v@[x].0, v@[x].1) == k);
            }
            crate::assoc::lemma_entries_map_len(src);
        }
        v
    }
    /// Applies a batch of writes: account states, pool slots, contracts and
    /// contract slots, each list in order (a later write to the same key wins).
    pub fn apply_batch(
        &mut self,
        account_writes: Vec<(Address, AccountState)>,
        slot_writes: Vec<((Address, Hash256), u64)>,
        new_contracts: Vec<ContractInfo>,
        contract_slot_writes: Vec<((Address, u64), u64)>,
    )
        ensures
            final(self)@.accounts == fold_insert(old(self)@.accounts, account_writes@),
            final(self)@.storage_slots == fold_insert(old(self)@.storage_slots, slot_writes@),
            final(self)@.contracts == fold_contracts(old(self)@.contracts, new_contracts@.map_values(|c: ContractInfo| c@)),
            final(self)@.contract_slots == fold_insert(old(self)@.contract_slots, contract_slot_writes@),
    {
        let ghost s0 = self@;
        let n1 = account_writes.len();
        for i in 0..n1
            invariant
                n1 == account_writes@.len(),
                self@ == (StoreView { accounts: fold_insert(s0.accounts, account_writes@.subrange(0, i as int)), ..s0 }),
        {
            let (a, st) = account_writes[i];
            self.set_account(a, st);
            proof { assert(account_writes@.subrange(0, i + 1).drop_last() =~= account_writes@.subrange(0, i as int)); }
        }
        proof { assert(account_writes@.subrange(0, n1 as int) =~= account_writes@); }
        let ghost s1 = self@;
        let n2 = slot_writes.len();
        for i in 0..n2
            invariant
                n2 == slot_writes@.len(),
                self@ == (StoreView { storage_slots: fold_insert(s1.storage_slots, slot_writes@.subrange(0, i as int)), ..s1 }),
        {
            let (k, v) = slot_writes[i];
            self.set_slot(k.0, k.1, v);
            proof { assert(slot_writes@.subrange(0, i + 1).drop_last() =~= slot_writes@.subrange(0, i as int)); }
        }
        proof { assert(slot_writes@.subrange(0, n2 as int) =~= slot_writes@); }
        let ghost s2 = self@;
        let ghost cv = new_contracts@.map_values(|c: ContractInfo| c@);
        let n3 = new_contracts.len();
        for i in 0..n3
            invariant
                n3 == new_contracts@.len(),
                cv == new_contracts@.map_values(|c: ContractInfo| c@),
                self@ == (StoreView { contracts: fold_contracts(s2.contracts, cv.subrange(0, i as int)), ..s2 }),
        {
            let c = new_contracts[i].clone();
            self.register_contract(c);
            proof { assert(cv.subrange(0, i + 1).drop_last() =~= cv.subrange(0, i as int)); }
        }
        proof { assert(cv.subrange(0, n3 as int) =~= cv); }
        let ghost s3 = self@;
        let n4 = contract_slot_writes.len();
        for i in 0..n4
            invariant
                n4 == contract_slot_writes@.len(),
                self@ == (StoreView { contract_slots: fold_insert(s3.contract_slots, contract_slot_writes@.subrange(0, i as int)), ..s3 }),
        {
            let (k, v) = contract_slot_writes[i];
            self.set_contract_slot(k.0, k.1, v);
            proof { assert(contract_slot_writes@.subrange(0, i + 1).drop_last() =~= contract_slot_writes@.subrange(0, i as int)); }
        }
        proof { assert(contract_slot_writes@.subrange(0, n4 as int) =~= contract_slot_writes@); }
    }
}


/// Each account in turn: its address bytes, balance and nonce, big-endian.
pub open spec fn account_records(s: Seq<(Address, AccountState)>) -> Seq<u8>
    decreases s.len(),
{
    if s.len() == 0 {
        Seq::empty()
    } else {
        account_records(s.drop_last()) + s.last().0.0@ + u64_be(s.last().1.balance) + u64_be(s.last().1.nonce)
    }
}

/// Each contract slot in turn: the contract's address bytes, the slot and the
/// value, big-endian.
pub open spec fn slot_records(s: Seq<((Address, u64), u64)>) -> Seq<u8>
    decreases s.len(),
{
    if s.len() == 0 {
        Seq::empty()
    } else {
        slot_records(s.drop_last()) + s.last().0.0.0@ + u64_be(s.last().0.1) + u64_be(s.last().1)
    }
}

/// The bytes the state root is taken over: the accounts in address order, then
/// the contract slots in (address, slot) order.
pub open spec fn state_root_bytes(v: StoreView) -> Seq<u8> {
    account_records(sorted_entries(v.accounts)) + slot_records(sorted_entries(v.contract_slots))
}

impl FlatStateStore {
    /// The state root: SHA-256 over the accounts in address order and the
    /// contract slots in (address, slot) order.
    pub fn state_root(&self) -> (h: Hash256)
        ensures
            h.0@ == sha256(state_root_bytes(self@)),
    {
        proof { use_type_invariant(self); }
        let accts = sort_entries(&self.accounts);
        let mut bytes: Vec<u8> = Vec::new();
        let n = accts.len();
        for i in 0..n
            invariant
                n == accts@.len(),
                bytes@ == account_records(accts@.subrange(0, i as int)),
        {
            let (a, st) = accts[i];
            push_bytes(&mut bytes, &a.0);
            push_u64_be(&mut bytes, st.balance);
            push_u64_be(&mut bytes, st.nonce);
            proof {
                assert(accts@.subrange(0, i + 1).drop_last() =~= accts@.subrange(0, i as int));
                assert(bytes@ =~= account_records(accts@.subrange(0, i + 1)));
            }
        }
        proof { assert(accts@.subrange(0, n as int) =~= accts@); }
        let ghost head = bytes@;
        let slots = sort_entries(&self.contract_slots);
        let m = slots.len();
        for i in 0..m
            invariant
                m == slots@.len(),
                bytes@ == head + slot_records(slots@.subrange(0, i as int)),
        {
            let (k, v) = slots[i];
            push_bytes(&mut bytes, &k.0.0);
            push_u64_be(&mut bytes, k.1);
            push_u64_be(&mut bytes, v);
            proof {
                assert(slots@.subrange(0, i + 1).drop_last() =~= slots@.subrange(0, i as int));
                assert(bytes@ =~= head + slot_records(slots@.subrange(0, i + 1)));
            }
        }
        proof { assert(slots@.subrange(0, m as int) =~= slots@); }
        Hash256::of(bytes.as_slice())
    }
}

} // verus!
