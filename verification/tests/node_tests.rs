use aether_core::http::{content_length, header_end, request_line, route, Route};
use aether_core::node::{genesis_store, genesis_validators, keep_last, leader_for_round, simulated_transfer, VertexDTO};
use aether_core::types::{Address, Hash256, TxPayload, Vertex};

#[test]
fn genesis_validators_add_the_node_once() {
    let base = genesis_validators(Address::new(102));
    assert_eq!(base, vec![Address::new(101), Address::new(102), Address::new(103), Address::new(104)]);
    let with_me = genesis_validators(Address::new(555));
    assert_eq!(with_me.len(), 5);
    assert_eq!(with_me[4], Address::new(555));
}

#[test]
fn genesis_ledger_funds_accounts_and_deploys_contracts() {
    let me = Address::new(777);
    let store = genesis_store(me);
    assert_eq!(store.get_balance(&me), 1_000_000);
    assert_eq!(store.get_balance(&Address::new(101)), 1_000_000);
    assert_eq!(store.get_account(&Address::new(101)).nonce, 7);
    assert_eq!(store.get_balance(&Address::new(102)), 500_000);
    let contracts = store.list_contracts();
    assert_eq!(contracts.len(), 7);
    let counter = contracts.iter().find(|c| c.name == "GenesisCounter").unwrap();
    assert_eq!(counter.template, "counter");
    assert_eq!(counter.created_at_round, 0);
    assert_eq!(store.get_contract_slot(&counter.address, 0), 42);
    let token = contracts.iter().find(|c| c.name == "AetherCommunityToken").unwrap();
    assert_eq!(store.get_contract_slot(&token.address, 0), 1_000_000);
    assert_eq!(store.get_contract_slot(&token.address, 100 + 101 % 1000), 1_000_000);
    let pool = contracts.iter().find(|c| c.name == "UniswapV2_ETH_USDC").unwrap();
    assert_eq!(store.get_contract_slot(&pool.address, 0), 10_000);
    assert_eq!(store.get_contract_slot(&pool.address, 1), 20_000_000);
}

#[test]
fn leader_rotates_with_the_round() {
    let vals = vec![Address::new(1), Address::new(2), Address::new(3), Address::new(4)];
    assert_eq!(leader_for_round(&vals, 1), Address::new(1));
    assert_eq!(leader_for_round(&vals, 4), Address::new(4));
    assert_eq!(leader_for_round(&vals, 6), Address::new(2));
}

#[test]
fn simulated_transfer_fields() {
    let tx = simulated_transfer(2, 1, 5);
    assert_eq!(tx.id, 2 * 1000 + 50 + 5);
    assert_eq!(tx.sender, Address::new(101));
    assert_eq!(tx.nonce, 0);
    assert_eq!(tx.gas_limit, 21000);
    assert_eq!(tx.payload, TxPayload::Transfer { to: Address::new(205), amount: 10 });
}

#[test]
fn describe_shows_short_digests() {
    let mut p = [0u8; 32];
    p[0] = 0xab;
    p[1] = 0xcd;
    p[2] = 0x01;
    p[3] = 0x23;
    let v = Vertex::new(Address::new(101), 3, vec![Hash256(p)], Vec::new());
    let d = VertexDTO::describe(&v, true);
    assert_eq!(d.author, "0x0000000000000000000000000000000000000065");
    assert_eq!(d.round, 3);
    assert_eq!(d.parents, vec!["abcd0123".to_string()]);
    assert_eq!(d.hash.len(), 8);
    assert!(d.is_anchor);
}

#[test]
fn keep_last_drops_the_oldest() {
    let mut v: Vec<u32> = (0..70).collect();
    keep_last(&mut v, 60);
    assert_eq!(v.len(), 60);
    assert_eq!(v[0], 10);
    let mut w = vec![1, 2, 3];
    keep_last(&mut w, 60);
    assert_eq!(w, vec![1, 2, 3]);
}

#[test]
fn request_line_reads_method_and_path() {
    let r = request_line("GET /api/status HTTP/1.1\r\nHost: x\r\n\r\n");
    assert_eq!(r, Some(("GET".to_string(), "/api/status".to_string())));
    assert_eq!(request_line("  POST   /api/tx\r\n"), Some(("POST".to_string(), "/api/tx".to_string())));
    assert_eq!(request_line("GARBAGE\r\nx y\r\n"), None);
    assert_eq!(request_line(""), None);
}

#[test]
fn routes_by_method_and_path() {
    assert_eq!(route("GET", "/"), Route::Dashboard);
    assert_eq!(route("POST", "/api/tx"), Route::SubmitTx);
    assert_eq!(route("GET", "/api/tx"), Route::NotFound);
    assert_eq!(route("POST", "/api/p2p/gossip"), Route::Gossip);
    assert_eq!(route("GET", "/api/dag"), Route::Dag);
    assert_eq!(route("DELETE", "/"), Route::NotFound);
}

#[test]
fn header_end_is_past_the_blank_line() {
    let req = b"POST / HTTP/1.1\r\nA: b\r\n\r\nbody";
    assert_eq!(header_end(req), Some(req.len() - 4));
    assert_eq!(header_end(b"GET / HTTP/1.1\r\n"), None);
}

#[test]
fn content_length_takes_the_last_announcement() {
    assert_eq!(content_length("POST / HTTP/1.1\r\nContent-Length: 42\r\nHost: a"), 42);
    assert_eq!(content_length("POST / HTTP/1.1\r\ncontent-length:  +7 "), 7);
    assert_eq!(content_length("CONTENT-LENGTH: 3\r\nContent-Length: 9"), 9);
    assert_eq!(content_length("Content-Length: abc"), 0);
    assert_eq!(content_length("Content-Length: 5:6"), 5);
    assert_eq!(content_length("X-Content-Length: 9"), 0);
    assert_eq!(content_length("Content-Length: 99999999999999999999999"), 0);
    assert_eq!(content_length("GET / HTTP/1.1"), 0);
}

#[test]
fn address_hex_round_trip() {
    let a = Address::new(0x0123_4567_89ab_cdef);
    assert_eq!(Address::from_hex(&a.to_hex()), Some(a));
    assert_eq!(Address::from_hex("0000000000000000000000000123456789ABCDEF"), Some(a));
    assert_eq!(Address::from_hex("0x1234"), None);
    assert_eq!(Address::from_hex("0x000000000000000000000000012345678zabcdef"), None);
}
