use aether_core::storage::FlatStateStore;
use aether_core::types::{AccountState, Address, Hash256};

#[test]
fn state_root_ignores_insertion_order() {
    let mut a = FlatStateStore::new();
    let mut b = FlatStateStore::new();
    a.set_account(Address::new(2), AccountState { balance: 5, nonce: 1 });
    a.set_account(Address::new(1), AccountState { balance: 7, nonce: 0 });
    a.set_contract_slot(Address::new(9), 3, 30);
    a.set_contract_slot(Address::new(9), 1, 10);
    b.set_contract_slot(Address::new(9), 1, 10);
    b.set_contract_slot(Address::new(9), 3, 30);
    b.set_account(Address::new(1), AccountState { balance: 7, nonce: 0 });
    b.set_account(Address::new(2), AccountState { balance: 5, nonce: 1 });
    assert_eq!(a.state_root(), b.state_root());
    b.set_contract_slot(Address::new(9), 3, 31);
    assert_ne!(a.state_root(), b.state_root());
}

#[test]
fn state_root_bytes_layout() {
    let mut s = FlatStateStore::new();
    s.set_account(Address::new(2), AccountState { balance: 5, nonce: 1 });
    s.set_account(Address::new(1), AccountState { balance: 7, nonce: 0 });
    s.set_contract_slot(Address::new(3), 4, 6);
    let mut bytes = Vec::new();
    for (id, bal, nonce) in [(1u64, 7u64, 0u64), (2, 5, 1)] {
        bytes.extend_from_slice(&Address::new(id).0);
        bytes.extend_from_slice(&bal.to_be_bytes());
        bytes.extend_from_slice(&nonce.to_be_bytes());
    }
    bytes.extend_from_slice(&Address::new(3).0);
    bytes.extend_from_slice(&4u64.to_be_bytes());
    bytes.extend_from_slice(&6u64.to_be_bytes());
    assert_eq!(s.state_root(), Hash256::of(&bytes));
    assert_eq!(FlatStateStore::new().state_root(), Hash256::of(&[]));
}

#[test]
fn transfer_and_deposit() {
    let mut s = FlatStateStore::new();
    s.deposit(Address::new(1), 100);
    assert!(s.transfer(Address::new(1), Address::new(2), 60));
    assert_eq!(s.get_balance(&Address::new(1)), 40);
    assert_eq!(s.get_balance(&Address::new(2)), 60);
    assert!(!s.transfer(Address::new(1), Address::new(2), 41));
    assert_eq!(s.get_balance(&Address::new(1)), 40);
}

#[test]
fn addresses_render() {
    let a = Address::new(0x0102);
    assert_eq!(a.to_hex(), format!("0x{}0102", "0".repeat(36)));
    assert_eq!(a.display_string(), "0x00000102");
    assert_eq!(aether_core::types::hex::encode(&[0xab, 0x01]), "ab01");
}

#[test]
fn digest_is_sha256() {
    let h = Hash256::of(b"abc");
    let expected = [
        0xba, 0x78, 0x16, 0xbf, 0x8f, 0x01, 0xcf, 0xea, 0x41, 0x41, 0x40, 0xde, 0x5d, 0xae, 0x22, 0x23, 0xb0, 0x03, 0x61, 0xa3,
        0x96, 0x17, 0x7a, 0x9c, 0xb4, 0x10, 0xff, 0x61, 0xf2, 0x00, 0x15, 0xad,
    ];
    assert_eq!(h.0, expected);
    assert_eq!(h.display_string(), "ba7816bf");
}
