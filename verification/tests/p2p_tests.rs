use aether_core::p2p::{beacon_accepted, build_get_request, build_post_request, make_peer_info, normalize_endpoint, response_body, BeaconPayload, PeerManager};
use aether_core::types::{Address, NodeIdentity, PeerInfo};

fn ident(id: &str) -> NodeIdentity {
    NodeIdentity { node_id: id.to_string(), address: Address::new(7), name: "n".to_string(), created_at: 0 }
}

fn peer(ep: &str, latency: u64) -> PeerInfo {
    PeerInfo { node_id: "p".to_string(), address: Address::new(1), endpoint: ep.to_string(), last_seen_ms: 0, latency_ms: latency, round: 0 }
}

#[test]
fn peer_table_keeps_one_entry_per_endpoint() {
    let mut m = PeerManager::new(ident("me"), 9000);
    assert_eq!(m.count(), 0);
    assert_eq!(m.my_port(), 9000);
    assert_eq!(m.get_my_identity().node_id, "me");
    m.add_or_update_at(peer("a:1", 5), 100);
    m.add_or_update_at(peer("b:2", 6), 200);
    m.add_or_update_at(peer("a:1", 7), 300);
    assert_eq!(m.count(), 2);
    assert!(m.contains_endpoint("a:1"));
    assert!(!m.contains_endpoint("c:3"));
    let list = m.list();
    assert_eq!(list[0].latency_ms, 7);
    assert_eq!(list[0].last_seen_ms, 300);
    m.remove("a:1");
    assert_eq!(m.count(), 1);
    assert!(!m.contains_endpoint("a:1"));
    m.remove("zzz");
    assert_eq!(m.count(), 1);
    m.add_or_update(peer("d:4", 1));
    assert!(m.list().iter().any(|p| p.endpoint == "d:4" && p.last_seen_ms > 0));
}

#[test]
fn endpoints_are_normalized() {
    assert_eq!(normalize_endpoint("  127.0.0.1:8080 "), Ok("127.0.0.1:8080".to_string()));
    assert_eq!(normalize_endpoint("aether://node123@10.0.0.1:9000"), Ok("10.0.0.1:9000".to_string()));
    assert_eq!(normalize_endpoint("aether://a@b@host:1"), Ok("host:1".to_string()));
    assert_eq!(normalize_endpoint("aether://host:2"), Ok("host:2".to_string()));
    assert_eq!(normalize_endpoint("http://http://x:3"), Ok("x:3".to_string()));
    assert_eq!(normalize_endpoint("\u{3000}x:4\t"), Ok("x:4".to_string()));
    assert_eq!(normalize_endpoint("   "), Err("빈 피어 주소입니다".to_string()));
    assert_eq!(normalize_endpoint("aether://id@"), Err("빈 피어 주소입니다".to_string()));
}

#[test]
fn http_framing() {
    assert_eq!(
        build_post_request("/api/p2p/gossip", "1.2.3.4:5", "{}"),
        "POST /api/p2p/gossip HTTP/1.1\r\nHost: 1.2.3.4:5\r\nContent-Type: application/json\r\nContent-Length: 2\r\nConnection: close\r\n\r\n{}"
    );
    assert_eq!(build_get_request("/api/p2p/sync", "h:1"), "GET /api/p2p/sync HTTP/1.1\r\nHost: h:1\r\nConnection: close\r\n\r\n");
    assert_eq!(response_body("HTTP/1.1 200 OK\r\nA: b\r\n\r\n{\"x\":1}"), "{\"x\":1}");
    assert_eq!(response_body("no header end"), "no header end");
    assert_eq!(build_post_request("/p", "h", "é").contains("Content-Length: 2"), true);
}

#[test]
fn beacons_from_others_are_accepted() {
    let b = BeaconPayload { magic: "AETHER_BEACON".to_string(), node_id: "x".to_string(), address: Address::new(1), port: 1 };
    assert!(beacon_accepted(&b, &"me".to_string()));
    assert!(!beacon_accepted(&b, &"x".to_string()));
    let other = BeaconPayload { magic: "OTHER".to_string(), node_id: "x".to_string(), address: Address::new(1), port: 1 };
    assert!(!beacon_accepted(&other, &"me".to_string()));
}

#[test]
fn peer_info_from_handshake() {
    let p = make_peer_info(ident("remote"), "h:1".to_string(), 55, 0);
    assert_eq!(p.latency_ms, 1);
    assert_eq!(p.node_id, "remote");
    assert_eq!(p.last_seen_ms, 55);
    assert_eq!(make_peer_info(ident("r"), "h".to_string(), 1, 30).latency_ms, 30);
}
