use aether_core::dht::{extract_nodes, extract_token, extract_values, generate_node_id, stamp_node_id, get_aether_info_hash, make_announce_msg, make_get_peers_msg, merge_peers};

#[test]
fn get_peers_query_layout() {
    let id = [1u8; 20];
    let ih = [2u8; 20];
    let msg = make_get_peers_msg(&id, &ih);
    let mut expect = b"d1:ad2:id20:".to_vec();
    expect.extend_from_slice(&id);
    expect.extend_from_slice(b"9:info_hash20:");
    expect.extend_from_slice(&ih);
    expect.extend_from_slice(b"e1:q9:get_peers1:t2:aa1:y1:qe");
    assert_eq!(msg, expect);
}

#[test]
fn announce_query_layout() {
    let id = [3u8; 20];
    let ih = [4u8; 20];
    let msg = make_announce_msg(&id, &ih, 8080, b"tok12");
    let mut expect = b"d1:ad2:id20:".to_vec();
    expect.extend_from_slice(&id);
    expect.extend_from_slice(b"9:info_hash20:");
    expect.extend_from_slice(&ih);
    expect.extend_from_slice(b"4:porti8080e5:token5:tok12");
    expect.extend_from_slice(b"e1:q13:announce_peer1:t2:ab1:y1:qe");
    assert_eq!(msg, expect);
    let zero = make_announce_msg(&id, &ih, 0, b"");
    assert!(zero.windows(8).any(|w| w == b"porti0e5"));
}

#[test]
fn token_extraction() {
    assert_eq!(extract_token(b"d1:rd2:id20:xxxxxxxxxxxxxxxxxxxx5:token8:abcdefghe"), Some(b"abcdefgh".to_vec()));
    assert_eq!(extract_token(b"5:token+3:xyz"), Some(b"xyz".to_vec()));
    assert_eq!(extract_token(b"5:token0:"), Some(vec![]));
    assert_eq!(extract_token(b"no token here"), None);
    assert_eq!(extract_token(b"5:token9:short"), None);
    assert_eq!(extract_token(b"5:tokenx:abc"), None);
    assert_eq!(extract_token(b"5:token:abc"), None);
    assert_eq!(extract_token(b"5:token3"), None);
}

#[test]
fn values_extraction() {
    let mut buf = b"d1:rd6:valuesl".to_vec();
    buf.extend_from_slice(b"6:");
    buf.extend_from_slice(&[192, 168, 0, 1, 0x1f, 0x90]);
    buf.extend_from_slice(b"6:");
    buf.extend_from_slice(&[10, 0, 0, 7, 0, 80]);
    buf.extend_from_slice(b"ee");
    assert_eq!(extract_values(&buf), vec!["192.168.0.1:8080".to_string(), "10.0.0.7:80".to_string()]);
    assert!(extract_values(b"nothing").is_empty());
}

#[test]
fn nodes_extraction() {
    let mut entry = vec![0u8; 20];
    entry.extend_from_slice(&[1, 2, 3, 4, 0x1a, 0xe1]);
    let mut buf = b"5:nodes52:".to_vec();
    buf.extend_from_slice(&entry);
    let mut second = vec![9u8; 20];
    second.extend_from_slice(&[5, 6, 7, 8, 0, 1]);
    buf.extend_from_slice(&second);
    let nodes = extract_nodes(&buf);
    assert_eq!(nodes, vec![([1, 2, 3, 4], 6881), ([5, 6, 7, 8], 1)]);
    assert!(extract_nodes(b"5:nodes99:abc").is_empty());
}

#[test]
fn node_id_and_info_hash() {
    let id = generate_node_id();
    assert_eq!(&id[..4], b"AETH");
    let a = get_aether_info_hash();
    let b = get_aether_info_hash();
    assert_eq!(a, b);
    assert_ne!(a, [0u8; 20]);
}

#[test]
fn merging_skips_known_peers() {
    let mut found = vec!["1.1.1.1:1".to_string()];
    merge_peers(&mut found, vec!["2.2.2.2:2".to_string(), "1.1.1.1:1".to_string(), "2.2.2.2:2".to_string()]);
    assert_eq!(found, vec!["1.1.1.1:1".to_string(), "2.2.2.2:2".to_string()]);
}

#[test]
fn info_hash_is_sha1_of_the_swarm_name() {
    let h = get_aether_info_hash();
    let expected = [
        0xb0, 0x66, 0x43, 0xde, 0xbf, 0xe0, 0xbd, 0x89, 0xfd, 0x3d, 0x2e, 0x2e, 0xf0, 0xa2, 0x2e, 0x3f, 0x75, 0x74, 0x1b, 0xa2,
    ];
    assert_eq!(h, expected);
}

#[test]
fn announce_token_reads_back() {
    let id = [7u8; 20];
    let ih = get_aether_info_hash();
    for (port, token) in [(6881u16, b"a1b2".to_vec()), (5, b"5:token".to_vec()), (65535, vec![]), (55, vec![58u8; 12])] {
        let msg = make_announce_msg(&id, &ih, port, &token);
        assert_eq!(extract_token(&msg), Some(token));
    }
}

#[test]
fn stamping_keeps_the_drawn_tail() {
    let mut drawn = [0u8; 20];
    for (i, b) in drawn.iter_mut().enumerate() {
        *b = 200 + i as u8;
    }
    let id = stamp_node_id(drawn);
    assert_eq!(&id[..4], b"AETH");
    assert_eq!(&id[4..], &drawn[4..]);
}
