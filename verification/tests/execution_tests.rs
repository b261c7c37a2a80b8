use aether_core::assoc::AssocMap;
use aether_core::execution::{execute_tx_logic, BlockSTMExecutor, MVMemory, SequentialExecutor, StateKey, StateValue, TxVersion};
use aether_core::storage::FlatStateStore;
use aether_core::types::{AccountState, Address, Transaction, TxPayload};
use aether_core::vm::SmartContractEngine;

#[test]
fn test_block_stm_contract_execution() {
    let mut base_store = FlatStateStore::new();
    let creator = Address::new(1);
    base_store.deposit(creator, 1_000_000);

    let contract_addr = SmartContractEngine::derive_contract_address(&creator, 0, "CounterTest");

    let txs = vec![
        Transaction {
            id: 1,
            sender: creator,
            nonce: 0,
            payload: TxPayload::DeployContract { name: "CounterTest".to_string(), template: "counter".to_string(), params: vec![100] },
            gas_limit: 50000,
        },
        Transaction {
            id: 2,
            sender: creator,
            nonce: 1,
            payload: TxPayload::CallContract { contract: contract_addr, method: "increment".to_string(), args: vec![25] },
            gas_limit: 30000,
        },
        Transaction {
            id: 3,
            sender: creator,
            nonce: 2,
            payload: TxPayload::CallContract { contract: contract_addr, method: "decrement".to_string(), args: vec![10] },
            gas_limit: 30000,
        },
    ];

    let (new_store, aborts) = BlockSTMExecutor::execute_block(&txs, &base_store);
    let contract = new_store.get_contract(&contract_addr);
    assert!(contract.is_some(), "Contract should be deployed");
    let slot0 = new_store.get_contract_slot(&contract_addr, 0);
    assert_eq!(slot0, 115, "Slot 0 should reflect incremental updates in serial dependency");
    println!("Contract execution passed! Aborts: {}", aborts);
}

fn transfer(id: u64, from: u64, to: u64, amount: u64) -> Transaction {
    Transaction { id, sender: Address::new(from), nonce: 0, payload: TxPayload::Transfer { to: Address::new(to), amount }, gas_limit: 21000 }
}

fn swap(id: u64, from: u64, pool_id: u64, amount_in: u64, min_out: u64) -> Transaction {
    Transaction { id, sender: Address::new(from), nonce: 0, payload: TxPayload::Swap { pool_id, amount_in, min_out }, gas_limit: 21000 }
}

#[test]
fn parallel_and_sequential_executors_agree() {
    let mut base = FlatStateStore::new();
    for i in 0..8u64 {
        base.deposit(Address::new(i), 1_000);
    }
    let txs = vec![
        transfer(1, 0, 1, 300),
        transfer(2, 1, 2, 1_200),
        swap(3, 2, 1, 500, 5),
        transfer(4, 3, 0, 50),
        swap(5, 4, 1, 100, 1),
        transfer(6, 5, 9, 2_000),
        swap(7, 6, 2, 10, 1_000_000),
    ];
    let seq = SequentialExecutor::execute_block(&txs, &base);
    let (par, aborts) = BlockSTMExecutor::execute_block(&txs, &base);
    assert_eq!(aborts, 0);
    assert_eq!(seq.state_root(), par.state_root());
    for i in 0..10u64 {
        assert_eq!(seq.get_account(&Address::new(i)), par.get_account(&Address::new(i)));
    }
    // the base store is left as it was
    assert_eq!(base.get_balance(&Address::new(0)), 1_000);
}

#[test]
fn transfer_moves_balance_and_bumps_nonce() {
    let mut base = FlatStateStore::new();
    base.deposit(Address::new(1), 500);
    let out = SequentialExecutor::execute_block(&[transfer(1, 1, 2, 200)], &base);
    assert_eq!(out.get_account(&Address::new(1)).balance, 300);
    assert_eq!(out.get_account(&Address::new(1)).nonce, 1);
    assert_eq!(out.get_account(&Address::new(2)).balance, 200);
    // an unfunded transfer changes nothing
    let out2 = SequentialExecutor::execute_block(&[transfer(2, 3, 2, 1)], &base);
    assert_eq!(out2.get_account(&Address::new(3)).nonce, 0);
    assert_eq!(out2.get_balance(&Address::new(2)), 0);
}

#[test]
fn swap_uses_default_reserves() {
    let mut base = FlatStateStore::new();
    base.deposit(Address::new(1), 1_000);
    let (out, _) = BlockSTMExecutor::execute_block(&[swap(1, 1, 3, 1_000, 1)], &base);
    // dy = 10_000_000 * 1000 / (10_000_000 + 1000) = 999
    let pool = Address::new(3);
    let slot_a = aether_core::types::Hash256::of(b"reserve_a");
    let slot_b = aether_core::types::Hash256::of(b"reserve_b");
    assert_eq!(out.get_slot(&pool, &slot_a), 10_001_000);
    assert_eq!(out.get_slot(&pool, &slot_b), 10_000_000 - 999);
    assert_eq!(out.get_balance(&Address::new(1)), 0);
}

#[test]
fn empty_block_keeps_state() {
    let mut base = FlatStateStore::new();
    base.deposit(Address::new(4), 44);
    let (out, aborts) = BlockSTMExecutor::execute_block(&[], &base);
    assert_eq!(aborts, 0);
    assert_eq!(out.state_root(), base.state_root());
}

#[test]
fn try_execute_refuses_an_overflowing_block() {
    let mut base = FlatStateStore::new();
    base.deposit(Address::new(1), 100);
    base.deposit(Address::new(2), u64::MAX - 5);
    let bad = vec![transfer(1, 1, 2, 10)];
    assert!(SequentialExecutor::try_execute_block(&bad, &base).is_none());
    assert!(BlockSTMExecutor::try_execute_block(&bad, &base).is_none());
    let good = vec![transfer(1, 1, 3, 10)];
    let s = SequentialExecutor::try_execute_block(&good, &base).unwrap();
    let (p, aborts) = BlockSTMExecutor::try_execute_block(&good, &base).unwrap();
    assert_eq!(aborts, 0);
    assert_eq!(s.get_balance(&Address::new(3)), 10);
    assert_eq!(p.get_balance(&Address::new(3)), 10);
    assert_eq!(base.get_balance(&Address::new(3)), 0);
}

#[test]
fn transfer_reads_sender_and_recipient_at_their_versions() {
    let mut base = FlatStateStore::new();
    base.deposit(Address::new(1), 100);
    let mut mv = MVMemory::new(base);
    let mut earlier = AssocMap::new();
    earlier.insert(StateKey::Account(Address::new(2)), StateValue::Account(AccountState { balance: 5, nonce: 0 }));
    mv.write_batch(0, &earlier);

    let res = execute_tx_logic(&transfer(7, 1, 2, 10), 1, &mv);
    assert_eq!(res.read_set.len(), 2);
    assert_eq!(res.read_set.get(&StateKey::Account(Address::new(1))), Some(&TxVersion::Storage));
    assert_eq!(res.read_set.get(&StateKey::Account(Address::new(2))), Some(&TxVersion::Tx(0)));
    assert_eq!(res.write_set.len(), 2);
    assert_eq!(
        res.write_set.get(&StateKey::Account(Address::new(1))),
        Some(&StateValue::Account(AccountState { balance: 90, nonce: 1 }))
    );
    assert_eq!(
        res.write_set.get(&StateKey::Account(Address::new(2))),
        Some(&StateValue::Account(AccountState { balance: 15, nonce: 0 }))
    );
}

#[test]
fn clearing_a_batch_restores_every_read() {
    let mut base = FlatStateStore::new();
    base.deposit(Address::new(1), 100);
    let mut mv = MVMemory::new(base);
    let mut first = AssocMap::new();
    first.insert(StateKey::Account(Address::new(2)), StateValue::Account(AccountState { balance: 5, nonce: 0 }));
    mv.write_batch(0, &first);
    let keys = [StateKey::Account(Address::new(1)), StateKey::Account(Address::new(2)), StateKey::Pool(3)];
    let before: Vec<_> = keys.iter().flat_map(|k| (0..4).map(move |j| (*k, j))).map(|(k, j)| mv.read(&k, j)).collect();

    let mut batch = AssocMap::new();
    batch.insert(StateKey::Account(Address::new(1)), StateValue::Account(AccountState { balance: 1, nonce: 9 }));
    batch.insert(StateKey::Pool(3), StateValue::Pool { reserve_a: 4, reserve_b: 4 });
    mv.write_batch(2, &batch);
    assert_eq!(mv.read(&StateKey::Pool(3), 3), (StateValue::Pool { reserve_a: 4, reserve_b: 4 }, TxVersion::Tx(2)));
    mv.clear_writes(2, &[StateKey::Account(Address::new(1)), StateKey::Pool(3)]);

    let after: Vec<_> = keys.iter().flat_map(|k| (0..4).map(move |j| (*k, j))).map(|(k, j)| mv.read(&k, j)).collect();
    assert_eq!(before, after);
}
