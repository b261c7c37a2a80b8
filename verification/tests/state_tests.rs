use aether_core::node::genesis_store;
use aether_core::p2p::PeerManager;
use aether_core::state::NodeState;
use aether_core::types::{Address, ContractInfo, EncryptedTx, NodeIdentity, Transaction, TxPayload, Vertex};

fn node(id: u64) -> NodeState {
    let identity = NodeIdentity { node_id: "0xabc".to_string(), address: Address::new(id), name: "n".to_string(), created_at: 0 };
    let pm = PeerManager::new(identity.clone(), 8080);
    NodeState::genesis(identity, pm, "127.0.0.1".to_string(), 8080)
}

fn plaintext(tx: &Transaction) -> Vec<u8> {
    format!("tx-{}", tx.id).into_bytes()
}

#[test]
fn genesis_state() {
    let s = node(777);
    assert_eq!(s.round, 0);
    assert_eq!(s.validators.len(), 5);
    assert_eq!(s.store.get_balance(&Address::new(777)), 1_000_000);
    assert_eq!(s.last_tps, 134_959);
    assert!(s.mempool.is_empty());
    assert_eq!(s.dag.get_current_round(), 0);
}

#[test]
fn a_round_fills_batches_builds_vertices_and_decrypts() {
    let mut s = node(777);
    let draws = s.open_round();
    assert_eq!(s.round, 1);
    assert_eq!(draws.len(), 5);
    for (idx, d) in draws.iter().enumerate() {
        assert!(d.pulled.is_empty());
        assert_eq!(d.made.len(), 50);
        assert_eq!(d.made[3].id, 1000 + idx as u64 * 50 + 3);
    }
    let mut batches: Vec<Vec<EncryptedTx>> = Vec::new();
    let mut plain: Vec<Vec<u8>> = Vec::new();
    for d in &draws {
        let mut b = Vec::new();
        for tx in &d.made {
            let p = plaintext(tx);
            b.push(s.scheme.encrypt(tx, &p));
            plain.push(p);
        }
        batches.push(b);
    }
    let (round_txs, mine) = s.close_round(batches);
    assert_eq!(round_txs.len(), 250);
    assert_eq!(s.round_parents.len(), 5);
    assert_eq!(s.vertices_cache.len(), 5);
    assert!(s.vertices_cache.iter().all(|d| !d.is_anchor));
    assert_eq!(s.dag.get_all_vertices().len(), 5);
    let mine = mine.unwrap();
    assert_eq!(mine.author, Address::new(777));
    assert_eq!(mine.round, 1);
    let decrypted = s.decrypt_round(&round_txs).unwrap();
    assert_eq!(decrypted, plain);
}

#[test]
fn second_round_links_parents_and_marks_the_anchor() {
    let mut s = node(777);
    for _ in 0..2 {
        let draws = s.open_round();
        let batches: Vec<Vec<EncryptedTx>> = draws
            .iter()
            .map(|d| d.made.iter().map(|tx| s.scheme.encrypt(tx, &plaintext(tx))).collect())
            .collect();
        s.close_round(batches);
    }
    assert_eq!(s.round, 2);
    let cache = &s.vertices_cache;
    assert_eq!(cache.len(), 10);
    let anchors: Vec<_> = cache.iter().filter(|d| d.is_anchor).collect();
    assert_eq!(anchors.len(), 1);
    assert_eq!(anchors[0].round, 2);
    assert_eq!(anchors[0].author, Address::new(102).to_hex());
    assert_eq!(cache[5].parents.len(), 5);
}

#[test]
fn mempool_transactions_go_first() {
    let mut s = node(101);
    let tx = Transaction { id: 9, sender: Address::new(101), nonce: 0, payload: TxPayload::Transfer { to: Address::new(5), amount: 1 }, gas_limit: 21000 };
    let enc = s.scheme.encrypt(&tx, b"x");
    s.mempool.submit(enc);
    let draws = s.open_round();
    assert_eq!(draws.len(), 4);
    assert_eq!(draws[0].pulled.len(), 1);
    assert_eq!(draws[0].pulled[0].id, 9);
    assert_eq!(draws[0].made.len(), 49);
    assert_eq!(draws[0].made[0].id, 1001);
    assert_eq!(draws[1].made.len(), 50);
    assert!(s.mempool.is_empty());
}

#[test]
fn apply_round_executes_and_counts() {
    let mut s = node(777);
    let txs = vec![Transaction { id: 1, sender: Address::new(101), nonce: 0, payload: TxPayload::Transfer { to: Address::new(900), amount: 25 }, gas_limit: 21000 }];
    assert!(s.apply_round(&txs));
    assert_eq!(s.total_txs, 1);
    assert_eq!(s.store.get_balance(&Address::new(900)), 25);
    assert_eq!(s.store.get_balance(&Address::new(101)), 1_000_000 - 25);
}

#[test]
fn apply_round_refuses_an_overflowing_block() {
    let mut s = node(777);
    s.store.deposit(Address::new(900), u64::MAX - 5);
    let txs = vec![Transaction { id: 1, sender: Address::new(101), nonce: 0, payload: TxPayload::Transfer { to: Address::new(900), amount: 10 }, gas_limit: 21000 }];
    assert!(!s.apply_round(&txs));
    assert_eq!(s.total_txs, 0);
    assert_eq!(s.store.get_balance(&Address::new(101)), 1_000_000);
}

#[test]
fn gossip_deploy_call_transfer() {
    let mut s = node(777);
    s.round = 4;
    let deploy = Transaction {
        id: 1,
        sender: Address::new(300),
        nonce: 2,
        payload: TxPayload::DeployContract { name: "C".to_string(), template: "Counter".to_string(), params: vec![5] },
        gas_limit: 100_000,
    };
    assert!(s.apply_gossip_tx(&deploy));
    let c = s.store.list_contracts().into_iter().find(|c| c.name == "C").unwrap();
    assert_eq!(c.created_at_round, 4);
    assert_eq!(c.template, "counter");
    assert_eq!(s.store.get_contract_slot(&c.address, 0), 5);
    let call = Transaction {
        id: 2,
        sender: Address::new(300),
        nonce: 3,
        payload: TxPayload::CallContract { contract: c.address, method: "increment".to_string(), args: vec![2] },
        gas_limit: 50_000,
    };
    assert!(s.apply_gossip_tx(&call));
    assert_eq!(s.store.get_contract_slot(&c.address, 0), 7);
    let pay = Transaction { id: 3, sender: Address::new(102), nonce: 0, payload: TxPayload::Transfer { to: Address::new(301), amount: 100 }, gas_limit: 21000 };
    assert!(s.apply_gossip_tx(&pay));
    assert_eq!(s.store.get_balance(&Address::new(301)), 100);
    assert_eq!(s.store.get_balance(&Address::new(102)), 500_000 - 100);
    let swap = Transaction { id: 4, sender: Address::new(102), nonce: 0, payload: TxPayload::Swap { pool_id: 1, amount_in: 5, min_out: 0 }, gas_limit: 21000 };
    assert!(s.apply_gossip_tx(&swap));
    assert_eq!(s.total_txs, 4);
}

#[test]
fn gossip_call_that_overflows_changes_nothing() {
    let mut s = node(777);
    let token = s.store.list_contracts().into_iter().find(|c| c.name == "AetherCommunityToken").unwrap();
    s.store.set_contract_slot(token.address, 0, u64::MAX - 1);
    let call = Transaction {
        id: 2,
        sender: Address::new(300),
        nonce: 0,
        payload: TxPayload::CallContract { contract: token.address, method: "mint".to_string(), args: vec![20, 500] },
        gas_limit: 50_000,
    };
    assert!(!s.apply_gossip_tx(&call));
    assert_eq!(s.total_txs, 0);
    assert_eq!(s.store.get_contract_slot(&token.address, 0), u64::MAX - 1);
}

#[test]
fn sync_takes_missing_contracts_slots_vertices_and_round() {
    let mut s = node(777);
    let existing = s.store.list_contracts()[0].clone();
    let renamed = ContractInfo { name: "Other".to_string(), ..existing.clone() };
    let fresh = ContractInfo {
        address: Address::new(4242),
        name: "Fresh".to_string(),
        template: "counter".to_string(),
        creator: Address::new(1),
        created_at_round: 9,
    };
    let v = Vertex::new(Address::new(103), 7, Vec::new(), Vec::new());
    s.apply_sync(vec![renamed, fresh.clone()], vec![(Address::new(4242), 0, 11)], vec![v.clone(), v], 12);
    assert_eq!(s.store.get_contract(&existing.address).unwrap().name, existing.name);
    assert_eq!(s.store.get_contract(&Address::new(4242)).unwrap(), fresh);
    assert_eq!(s.store.get_contract_slot(&Address::new(4242), 0), 11);
    assert_eq!(s.dag.get_all_vertices().len(), 1);
    assert_eq!(s.round, 12);
    s.apply_sync(Vec::new(), Vec::new(), Vec::new(), 3);
    assert_eq!(s.round, 12);
}

#[test]
fn reward_and_requests() {
    let mut s = node(777);
    s.collect_reward();
    assert_eq!(s.total_rewards, 10);
    assert_eq!(s.store.get_balance(&Address::new(777)), 1_000_010);
    s.total_txs = 5;
    let (addr, tx) = s.deploy_request("Mine".to_string(), "token".to_string(), vec![1]);
    assert_eq!(tx.id, 1005);
    assert_eq!(tx.gas_limit, 100_000);
    assert_eq!(addr, aether_core::vm::SmartContractEngine::derive_contract_address(&Address::new(777), 0, "Mine"));
    let call = s.call_request(addr, "mint".to_string(), vec![1, 2]);
    assert_eq!(call.id, 1005);
    assert_eq!(call.gas_limit, 50_000);
    let t = s.user_request(5, true);
    assert_eq!(t.id, 1004);
    assert_eq!(t.payload, TxPayload::Swap { pool_id: 1, amount_in: 5, min_out: 0 });
    let u = s.user_request(100, false);
    assert_eq!(u.payload, TxPayload::Transfer { to: Address::new(102), amount: 100 });
    let _ = genesis_store(Address::new(1));
}
