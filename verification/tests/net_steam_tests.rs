use twec::net_steam::{
    accepted_peer_count, close, connect_p2p, host_p2p, install_peer, is_active, is_available,
    lobby_id, local_steam_id, next_incoming, poll, send_to_internal, session_state, SteamNet,
    CHANNEL_INPUT,
};

#[test]
fn default_build_reports_steam_unavailable() {
    let mut st = SteamNet::new();
    assert!(!is_available(&st), "no-feature build must not advertise Steam P2P");
    let err = host_p2p(&mut st, 2).expect_err("host_p2p must reject when Steam is unavailable");
    assert!(
        err.contains("--features steam-net") || err.contains("Steam client not running"),
        "error must guide the operator: got {err:?}"
    );
}

#[test]
fn close_is_idempotent() {
    let mut st = SteamNet::new();
    close(&mut st);
    close(&mut st);
    assert!(!is_active(&st));
}

#[test]
fn session_state_is_none_when_no_session() {
    let mut st = SteamNet::new();
    close(&mut st);
    assert_eq!(session_state(&st), None);
    assert_eq!(accepted_peer_count(&st), 0);
    assert_eq!(local_steam_id(&st), 0);
    assert_eq!(lobby_id(&st), 0);
}

#[test]
fn host_with_client_installs_session() {
    let mut st = SteamNet::with_client(77);
    assert_eq!(local_steam_id(&st), 77);
    assert!(host_p2p(&mut st, 5).unwrap_err().contains("2..=4 (got 5)"));
    host_p2p(&mut st, 3).unwrap();
    assert!(is_active(&st));
    assert_eq!(session_state(&st), Some((0, 3)));
}

#[test]
fn queued_packet_flushes_when_peer_installed() {
    let mut st = SteamNet::with_client(1);
    host_p2p(&mut st, 2).unwrap();
    // Peer 1 unknown yet: the packet is queued.
    assert!(send_to_internal(&mut st, 1, &[9, 8], CHANNEL_INPUT).unwrap().is_none());
    let sends = install_peer(&mut st, 1, 555);
    assert_eq!(sends.len(), 1);
    assert_eq!(sends[0].steam_id_raw, 555);
    assert_eq!(sends[0].payload, vec![9, 8]);
    assert_eq!(accepted_peer_count(&st), 1);
    // Now addressable directly.
    let m = send_to_internal(&mut st, 1, &[1], 1).unwrap().unwrap();
    assert_eq!((m.steam_id_raw, m.channel), (555, 1));
}

#[test]
fn poll_maps_senders_to_internal_ids() {
    let mut st = SteamNet::with_client(1);
    connect_p2p(&mut st, 42).unwrap();
    assert_eq!(session_state(&st), Some((255, 0)));
    let n = poll(&mut st, vec![(42, 0, vec![1]), (99, 1, vec![2])]);
    assert_eq!(n, 2);
    assert_eq!(next_incoming(&mut st), Some((0, vec![1], 0)));
    assert_eq!(next_incoming(&mut st), Some((255, vec![2], 1)));
    assert_eq!(next_incoming(&mut st), None);
}

#[test]
fn reinstalling_a_peer_keeps_one_entry() {
    let mut st = SteamNet::with_client(7);
    host_p2p(&mut st, 3).unwrap();
    install_peer(&mut st, 1, 100);
    install_peer(&mut st, 2, 200);
    assert_eq!(accepted_peer_count(&st), 2);
    install_peer(&mut st, 1, 111);
    assert_eq!(accepted_peer_count(&st), 2);
    let m = send_to_internal(&mut st, 1, &[5], 0).unwrap().unwrap();
    assert_eq!(m.steam_id_raw, 111);
}
