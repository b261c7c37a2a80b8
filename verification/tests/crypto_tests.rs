use aether_core::crypto::{mod_inverse, ThresholdScheme};
use aether_core::mempool::EncryptedMempool;
use aether_core::types::{Address, Transaction, TxPayload};

fn sample_tx() -> Transaction {
    Transaction { id: 1, sender: Address::new(42), nonce: 0, payload: TxPayload::Transfer { to: Address::new(99), amount: 1000 }, gas_limit: 21000 }
}

// The serialized form of `sample_tx`, as the node serializes transactions.
const SAMPLE_JSON: &[u8] = br#"{"id":1,"sender":[0,0,0,0,0,0,0,0,0,0,0,0,0,0,0,0,0,0,0,42],"nonce":0,"payload":{"Transfer":{"to":[0,0,0,0,0,0,0,0,0,0,0,0,0,0,0,0,0,0,0,99],"amount":1000}},"gas_limit":21000}"#;

#[test]
fn test_threshold_crypto() {
    let scheme = ThresholdScheme::new(3, 5, 1337);
    let tx = sample_tx();

    let enc_tx = scheme.encrypt(&tx, SAMPLE_JSON);
    assert_ne!(enc_tx.ciphertext, SAMPLE_JSON.to_vec());

    // 3 shares are enough
    let shares = vec![scheme.get_share(0), scheme.get_share(2), scheme.get_share(4)];
    let decrypted = ThresholdScheme::decrypt_with_shares(&shares, &enc_tx).unwrap();
    assert_eq!(decrypted, SAMPLE_JSON.to_vec());
}

#[test]
fn scheme_draws_secret_from_seed() {
    let s = ThresholdScheme::new(3, 4, 9999);
    assert_eq!(s.secret, 10_000);
    assert_eq!(s.polynomial.len(), 3);
    assert_eq!(s.polynomial[0], 10_000);
    // coefficient i: (seed * (31 i + 7)) mod (p - 1) + 1
    assert_eq!(s.polynomial[1], (9999i128 * 38) % 2_147_483_646 + 1);
    assert_eq!(s.polynomial[2], (9999i128 * 69) % 2_147_483_646 + 1);
    let zero = ThresholdScheme::new(0, 0, 5);
    assert_eq!(zero.polynomial, vec![6]);
}

#[test]
fn shares_evaluate_the_polynomial() {
    let s = ThresholdScheme::new(3, 4, 9999);
    let p: i128 = 2_147_483_647;
    let (x, y) = s.get_share(1);
    assert_eq!(x, 2);
    let expect = (s.polynomial[0] + s.polynomial[1] * 2 + s.polynomial[2] * 4) % p;
    assert_eq!(y, expect);
    assert_eq!(s.eval_polynomial(0), s.secret);
}

#[test]
fn reconstruction_recovers_secret_from_any_threshold_shares() {
    let s = ThresholdScheme::new(3, 5, 1337);
    for (a, b, c) in [(0, 1, 2), (0, 2, 4), (1, 3, 4), (2, 3, 4)] {
        let shares = vec![s.get_share(a), s.get_share(b), s.get_share(c)];
        assert_eq!(ThresholdScheme::reconstruct_secret(&shares), Ok(s.secret));
    }
    let more = vec![s.get_share(0), s.get_share(1), s.get_share(2), s.get_share(3)];
    assert_eq!(ThresholdScheme::reconstruct_secret(&more), Ok(s.secret));
}

#[test]
fn reconstruction_without_shares_fails() {
    assert_eq!(ThresholdScheme::reconstruct_secret(&[]), Err("no shares"));
    let s = ThresholdScheme::new(2, 3, 7);
    let enc = s.encrypt(&sample_tx(), b"abc");
    assert_eq!(ThresholdScheme::decrypt_with_shares(&[], &enc), Err("no shares"));
}

#[test]
fn too_few_shares_give_the_wrong_key() {
    let s = ThresholdScheme::new(3, 5, 1337);
    let enc = s.encrypt(&sample_tx(), SAMPLE_JSON);
    let shares = vec![s.get_share(0), s.get_share(1)];
    let out = ThresholdScheme::decrypt_with_shares(&shares, &enc).unwrap();
    assert_ne!(out, SAMPLE_JSON.to_vec());
}

#[test]
fn encryption_frames_the_transaction() {
    let s = ThresholdScheme::new(2, 3, 7);
    let mut tx = sample_tx();
    tx.id = 0x0102030405060708;
    let enc = s.encrypt(&tx, b"hello");
    assert_eq!(enc.id, tx.id);
    assert_eq!(enc.sender, tx.sender);
    assert_eq!(enc.ciphertext.len(), 5);
    assert_eq!(&enc.ephemeral_key[..8], &[1, 2, 3, 4, 5, 6, 7, 8]);
    assert!(enc.ephemeral_key[8..].iter().all(|b| *b == 0));
    let key = ThresholdScheme::derive_key(s.secret);
    assert_eq!(enc.ciphertext[0], b'h' ^ key[0]);
}

#[test]
fn modular_inverse() {
    let p: i128 = 2_147_483_647;
    assert_eq!(mod_inverse(3, 7), 5);
    assert_eq!(mod_inverse(0, p), 0);
    let inv = mod_inverse(123_456, p);
    assert_eq!((123_456 * inv) % p, 1);
    assert!(inv >= 0 && inv < p);
}

#[test]
fn mempool_is_first_in_first_out() {
    let s = ThresholdScheme::new(2, 3, 7);
    let mut pool = EncryptedMempool::new();
    assert!(pool.is_empty());
    for i in 0..5u64 {
        let mut tx = sample_tx();
        tx.id = i;
        pool.submit(s.encrypt(&tx, b"x"));
    }
    assert_eq!(pool.len(), 5);
    let batch = pool.drain_batch(3);
    assert_eq!(batch.iter().map(|e| e.id).collect::<Vec<_>>(), vec![0, 1, 2]);
    assert_eq!(pool.len(), 2);
    let rest = pool.drain_batch(10);
    assert_eq!(rest.iter().map(|e| e.id).collect::<Vec<_>>(), vec![3, 4]);
    assert!(pool.is_empty());
}

#[test]
fn ordered_batch_decrypts_in_order() {
    let s = ThresholdScheme::new(2, 3, 7);
    let a = s.encrypt(&sample_tx(), b"first");
    let b = s.encrypt(&sample_tx(), b"second");
    let shares = vec![s.get_share(0), s.get_share(1)];
    let out = EncryptedMempool::decrypt_ordered_batch(&[a, b], &shares).unwrap();
    assert_eq!(out, vec![b"first".to_vec(), b"second".to_vec()]);
    assert_eq!(EncryptedMempool::decrypt_ordered_batch(&[], &[]), Ok(vec![]));
    let c = s.encrypt(&sample_tx(), b"z");
    assert_eq!(EncryptedMempool::decrypt_ordered_batch(&[c], &[]), Err("no shares"));
}

#[test]
fn reconstruction_with_a_higher_threshold() {
    let s = ThresholdScheme::new(4, 6, 1234);
    let four = vec![s.get_share(0), s.get_share(2), s.get_share(3), s.get_share(5)];
    assert_eq!(ThresholdScheme::reconstruct_secret(&four), Ok(s.secret));
    let five = vec![s.get_share(5), s.get_share(1), s.get_share(4), s.get_share(0), s.get_share(2)];
    assert_eq!(ThresholdScheme::reconstruct_secret(&five), Ok(s.secret));
}

#[test]
fn evaluation_accepts_points_far_beyond_u64() {
    let prime: i128 = 2_147_483_647;
    let s = ThresholdScheme::new(3, 5, 77);
    let x: i128 = 3 + (1i128 << 64) * prime; // about 2^95, the same point modulo the prime
    assert_eq!(s.eval_polynomial(x), s.eval_polynomial(3));
    assert_eq!(s.eval_polynomial(-x), s.eval_polynomial(-3));
}

#[test]
fn reconstruction_accepts_large_share_points() {
    let prime: i128 = 2_147_483_647;
    let s = ThresholdScheme::new(3, 5, 4242);
    let shift = (1i128 << 62) * prime; // about 2^93
    let shares: Vec<(i128, i128)> = (0..3).map(|i| {
        let (x, y) = s.get_share(i);
        (x + shift, y + (1i128 << 63) * prime)
    }).collect();
    assert_eq!(ThresholdScheme::reconstruct_secret(&shares), Ok(s.secret));
}
