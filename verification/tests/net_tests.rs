use twec::net::{
    build_header, close, connect_session, fnv1a, handle_packet, hash_value, hello_packet, host,
    is_connected, local_peer_id, local_state_hash, parse_header, parse_hello_ack, peer_count,
    poll, send_input, send_state_hash, session_ready, split_csv, take_inputs, tick_ready, Net,
    MAX_PEERS, MSG_BYE, MSG_HASH, MSG_HELLO, MSG_INPUT,
};

#[test]
fn header_round_trips() {
    let h = build_header(MSG_INPUT, 0xdead_beef, 2, 1234);
    let p = parse_header(&h).expect("parse");
    assert_eq!(p.msg_type, MSG_INPUT);
    assert_eq!(p.session_id, 0xdead_beef);
    assert_eq!(p.peer_id, 2);
    assert_eq!(p.tick, 1234);
}

#[test]
fn header_rejects_bad_magic() {
    let mut h = build_header(MSG_INPUT, 1, 0, 0);
    h[0] = b'X';
    assert!(parse_header(&h).is_none());
}

// The state hash is FNV-1a over the value's canonical JSON (object
// fields in sorted order), so equivalent objects encode — and hash —
// identically whatever order their fields were inserted in.
#[test]
fn hash_value_is_deterministic_for_equivalent_objects() {
    let a = "{\"ball_x\":123.5,\"ball_y\":45.0,\"score\":7}";
    let b = "{\"ball_x\":123.5,\"ball_y\":45.0,\"score\":7}";
    assert_eq!(hash_value(a), hash_value(b));
}

#[test]
fn hash_value_differs_for_different_state() {
    assert_ne!(hash_value("5"), hash_value("6"));
}

#[test]
fn fnv1a_known_vectors() {
    assert_eq!(fnv1a(b""), 0xcbf29ce484222325);
    assert_eq!(fnv1a(b"a"), 0xaf63dc4c8601ec8c);
    assert_eq!(fnv1a(b"foobar"), 0x85944171f73967e8);
}

#[test]
fn header_bytes_layout() {
    let h = build_header(MSG_HASH, 0x01020304, 9, 0x0a0b0c0d);
    assert_eq!(h, vec![b'T', b'W', 1, 2, 4, 3, 2, 1, 9, 0, 0, 0, 0x0d, 0x0c, 0x0b, 0x0a]);
    assert!(parse_header(&h[..15]).is_none());
}

#[test]
fn host_rejects_bad_peer_count() {
    let mut net = Net::new();
    assert!(host(&mut net, 1, 7).is_err());
    assert!(host(&mut net, (MAX_PEERS as u8) + 1, 7).is_err());
    assert!(host(&mut net, 1, 7).unwrap_err().contains("2..=4 (got 1)"));
    assert!(!is_connected(&net));
}

#[test]
fn host_then_close_is_idempotent() {
    let mut net = Net::new();
    host(&mut net, 2, 7).unwrap();
    assert!(is_connected(&net));
    assert!(close(&mut net).is_empty());
    assert!(!is_connected(&net));
    assert!(close(&mut net).is_empty());
    assert!(!is_connected(&net));
}

#[test]
fn local_peer_id_is_zero_for_host() {
    let mut net = Net::new();
    host(&mut net, 2, 7).unwrap();
    assert_eq!(local_peer_id(&net), 0);
    assert_eq!(peer_count(&net), 2);
    close(&mut net);
}

#[test]
fn two_peers_exchange_inputs_in_lockstep() {
    let mut hostn = Net::new();
    host(&mut hostn, 2, 99).unwrap();
    assert!(!session_ready(&hostn));
    // Client hello.
    let r = handle_packet(&mut hostn, "10.0.0.2:5000", &hello_packet(), true);
    assert!(r.processed);
    assert_eq!(r.replies.len(), 1);
    assert!(session_ready(&hostn));
    let (peer_id, expected, sid) = parse_hello_ack(&r.replies[0].bytes).expect("ack");
    assert_eq!((peer_id, expected, sid), (1, 2, 99));
    // A third hello is dropped: the session is full.
    assert!(!handle_packet(&mut hostn, "10.0.0.3:5000", &hello_packet(), true).processed);

    let mut client = Net::new();
    connect_session(&mut client, "10.0.0.1:7777".to_string(), peer_id, expected, sid);
    assert!(session_ready(&client));

    // Both send tick 0.
    let to_host = send_input(&mut client, 0, b"left||0|0||".to_vec());
    assert_eq!(to_host.len(), 1);
    let to_client = send_input(&mut hostn, 0, b"||1|1||".to_vec());
    assert_eq!(to_client.len(), 1);
    // Write-once: a second frame for tick 0 is not stored.
    send_input(&mut hostn, 0, b"changed".to_vec());
    assert!(!tick_ready(&hostn, 0));
    let (n, _) = poll(&mut hostn, vec![("10.0.0.2:5000".to_string(), to_host[0].bytes.clone(), true)]);
    assert_eq!(n, 1);
    assert!(tick_ready(&hostn, 0));
    let inputs = take_inputs(&mut hostn, 0).expect("ready");
    assert_eq!(inputs, vec![(0, b"||1|1||".to_vec()), (1, b"left||0|0||".to_vec())]);
    assert!(take_inputs(&mut hostn, 1).is_none());

    let r = handle_packet(&mut client, "10.0.0.1:7777", &to_client[0].bytes, true);
    assert!(r.processed);
    let inputs = take_inputs(&mut client, 0).expect("ready");
    assert_eq!(inputs[0].0, 0);
    assert_eq!(inputs[1].0, 1);
}

#[test]
fn packets_from_other_sessions_are_dropped() {
    let mut n = Net::new();
    host(&mut n, 2, 5).unwrap();
    handle_packet(&mut n, "a", &hello_packet(), true);
    let mut pkt = build_header(MSG_INPUT, 6, 1, 0);
    pkt.extend_from_slice(b"||0|0||");
    assert!(!handle_packet(&mut n, "a", &pkt, true).processed);
    let bye = build_header(MSG_BYE, 5, 1, 0);
    assert!(handle_packet(&mut n, "a", &bye, true).processed);
    assert!(!session_ready(&n));
}

#[test]
fn desync_is_reported_once() {
    let mut n = Net::new();
    host(&mut n, 2, 5).unwrap();
    handle_packet(&mut n, "a", &hello_packet(), true);
    let (outs, d) = send_state_hash(&mut n, 60, 111);
    assert_eq!(outs.len(), 1);
    assert!(d.is_none());
    assert_eq!(local_state_hash(&n), 111);
    let mut pkt = build_header(MSG_HASH, 5, 1, 60);
    pkt.extend_from_slice(&222u64.to_le_bytes());
    let r = handle_packet(&mut n, "a", &pkt, true);
    let d = r.desync.expect("desync");
    assert_eq!(d.tick, 60);
    assert_eq!(d.hashes, vec![111, 222]);
    let r = handle_packet(&mut n, "a", &pkt, true);
    assert!(r.desync.is_none());
}

#[test]
fn split_csv_fields() {
    assert!(split_csv("").is_empty());
    assert_eq!(split_csv("left,space"), vec!["left", "space"]);
    assert_eq!(split_csv("a,"), vec!["a", ""]);
}

#[test]
fn hello_ack_needs_payload() {
    let h = build_header(MSG_HELLO, 1, 2, 0);
    assert!(parse_hello_ack(&h).is_none());
    let mut h2 = h.clone();
    h2.extend_from_slice(&[3, 0, 0, 0]);
    assert_eq!(parse_hello_ack(&h2), Some((2, 3, 1)));
}

#[test]
fn state_hash_report_from_a_peer_is_recorded() {
    let mut hostn = Net::new();
    host(&mut hostn, 2, 42).unwrap();
    let r = handle_packet(&mut hostn, "10.0.0.2:1", &hello_packet(), true);
    let (peer_id, expected, sid) = parse_hello_ack(&r.replies[0].bytes).unwrap();
    let mut client = Net::new();
    connect_session(&mut client, "10.0.0.1:1".to_string(), peer_id, expected, sid);

    // Matching hashes for tick 30: no desync on either side.
    let (outs, d) = send_state_hash(&mut client, 30, 0xfeed);
    assert!(d.is_none());
    assert_eq!(outs.len(), 1);
    let r = handle_packet(&mut hostn, "10.0.0.2:1", &outs[0].bytes, true);
    assert!(r.processed);
    assert!(r.desync.is_none());
    let (_, d) = send_state_hash(&mut hostn, 30, 0xfeed);
    assert!(d.is_none());

    // Diverging hashes for tick 31: the host reports it once it has both.
    let (outs, _) = send_state_hash(&mut client, 31, 1);
    let (_, d) = send_state_hash(&mut hostn, 31, 2);
    assert!(d.is_none());
    let r = handle_packet(&mut hostn, "10.0.0.2:1", &outs[0].bytes, true);
    let d = r.desync.expect("desync at 31");
    assert_eq!(d.tick, 31);
    assert_eq!(d.hashes.len(), 2);
    assert!(d.hashes.contains(&1) && d.hashes.contains(&2));
}

#[test]
fn client_is_ready_once_acknowledged_in_a_three_peer_session() {
    let mut client = Net::new();
    assert!(!session_ready(&client));
    connect_session(&mut client, "10.0.0.1:7777".to_string(), 2, 3, 9);
    assert!(session_ready(&client));
    let mut h = Net::new();
    host(&mut h, 3, 9).unwrap();
    handle_packet(&mut h, "a", &hello_packet(), true);
    assert!(!session_ready(&h));
    handle_packet(&mut h, "b", &hello_packet(), true);
    assert!(session_ready(&h));
}
