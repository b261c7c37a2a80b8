use aether_core::consensus::DagEngine;
use aether_core::crypto::ThresholdScheme;
use aether_core::types::{Address, EncryptedTx, Hash256, Transaction, TxPayload, Vertex};

fn validators() -> Vec<Address> {
    vec![Address::new(101), Address::new(102), Address::new(103), Address::new(104)]
}

fn enc(id: u64) -> EncryptedTx {
    let s = ThresholdScheme::new(2, 3, 7);
    let tx = Transaction { id, sender: Address::new(1), nonce: 0, payload: TxPayload::Transfer { to: Address::new(2), amount: 1 }, gas_limit: 21000 };
    s.encrypt(&tx, b"t")
}

fn build_round(dag: &mut DagEngine, round: u64, parents: &[Hash256], tx_base: u64) -> Vec<Hash256> {
    let mut hashes = Vec::new();
    for (i, v) in validators().iter().enumerate() {
        let vx = Vertex::new(*v, round, parents.to_vec(), vec![enc(tx_base + i as u64)]);
        hashes.push(vx.hash);
        assert!(dag.insert_vertex(vx));
    }
    hashes
}

#[test]
fn engine_starts_empty_with_quorum() {
    let dag = DagEngine::new(validators());
    assert_eq!(dag.quorum(), 3);
    assert_eq!(dag.get_current_round(), 0);
    assert!(dag.get_all_vertices().is_empty());
    assert!(dag.get_parents_for_round(0).is_empty());
    let single = DagEngine::new(vec![Address::new(1)]);
    assert_eq!(single.quorum(), 1);
}

#[test]
fn inserting_twice_is_refused() {
    let mut dag = DagEngine::new(validators());
    let v = Vertex::new(Address::new(101), 1, vec![], vec![]);
    assert!(dag.insert_vertex(v.clone()));
    assert!(!dag.insert_vertex(v));
    assert_eq!(dag.get_all_vertices().len(), 1);
    assert_eq!(dag.get_current_round(), 1);
}

#[test]
fn parents_and_anchor_follow_rounds() {
    let mut dag = DagEngine::new(validators());
    let r1 = build_round(&mut dag, 1, &[], 0);
    assert_eq!(dag.get_parents_for_round(2), r1);
    assert!(dag.get_parents_for_round(1).is_empty());
    // round 1's leader is validator 1 % 4 = 102
    assert_eq!(dag.get_anchor_for_round(1), Some(r1[1]));
    assert_eq!(dag.get_anchor_for_round(0), None);
    assert_eq!(dag.get_anchor_for_round(5), None);
}

#[test]
fn anchor_commits_once_with_quorum() {
    let mut dag = DagEngine::new(validators());
    let r1 = build_round(&mut dag, 1, &[], 0);
    let anchor = dag.get_anchor_for_round(1).unwrap();
    // no next round yet
    assert_eq!(dag.try_commit_anchor(anchor, 1), None);
    let _r2 = build_round(&mut dag, 2, &r1, 10);
    let txs = dag.try_commit_anchor(anchor, 1).expect("quorum of links");
    // the anchor's history is itself only (round 1 has no parents)
    assert_eq!(txs.iter().map(|t| t.id).collect::<Vec<_>>(), vec![1]);
    // committing again gives nothing
    assert_eq!(dag.try_commit_anchor(anchor, 1), None);
}

#[test]
fn commit_orders_history_ancestors_first() {
    let mut dag = DagEngine::new(validators());
    let r1 = build_round(&mut dag, 1, &[], 0);
    let r2 = build_round(&mut dag, 2, &r1, 10);
    let _r3 = build_round(&mut dag, 3, &r2, 20);
    let anchor = dag.get_anchor_for_round(2).unwrap();
    assert_eq!(anchor, r2[2]);
    let txs = dag.try_commit_anchor(anchor, 2).unwrap();
    // the anchor's parents (round 1, none linking to another) in list order, then the anchor
    let ids: Vec<u64> = txs.iter().map(|t| t.id).collect();
    assert_eq!(ids, vec![0, 1, 2, 3, 12]);
    // round 1 is now committed: a later anchor only brings new vertices
    let r1_anchor = dag.get_anchor_for_round(1).unwrap();
    assert_eq!(dag.try_commit_anchor(r1_anchor, 1), None);
}

#[test]
fn too_few_links_do_not_commit() {
    let mut dag = DagEngine::new(validators());
    let r1 = build_round(&mut dag, 1, &[], 0);
    let anchor = r1[1];
    // next round links only to vertex 0
    for (i, v) in validators().iter().enumerate() {
        let vx = Vertex::new(*v, 2, vec![r1[0]], vec![enc(50 + i as u64)]);
        dag.insert_vertex(vx);
    }
    assert_eq!(dag.try_commit_anchor(anchor, 1), None);
}

#[test]
fn commit_puts_an_ancestor_before_its_descendant() {
    let mut dag = DagEngine::new(validators());
    let u = Vertex::new(Address::new(101), 1, vec![], vec![enc(1)]);
    let w = Vertex::new(Address::new(102), 2, vec![u.hash], vec![enc(2)]);
    let anchor = Vertex::new(Address::new(103), 3, vec![u.hash, w.hash], vec![enc(3)]);
    let ah = anchor.hash;
    assert!(dag.insert_vertex(u));
    assert!(dag.insert_vertex(w));
    assert!(dag.insert_vertex(anchor));
    for (i, v) in [101u64, 102, 104].iter().enumerate() {
        assert!(dag.insert_vertex(Vertex::new(Address::new(*v), 4, vec![ah], vec![enc(40 + i as u64)])));
    }
    let txs = dag.try_commit_anchor(ah, 3).expect("quorum of links");
    // u is w's parent, so u's transactions come first, whatever the anchor's list order
    assert_eq!(txs.iter().map(|t| t.id).collect::<Vec<_>>(), vec![1, 2, 3]);
}

#[test]
fn round_zero_has_no_anchor_even_without_validators() {
    let dag = DagEngine::new(vec![]);
    assert_eq!(dag.get_anchor_for_round(0), None);
}
