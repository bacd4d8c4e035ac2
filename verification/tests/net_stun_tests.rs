use twec::net_stun::{
    binding_request, check_lobby_name, classify_reply, join_line, parse_binding_response,
    parse_mapped_address, parse_xor_mapped_address, transaction_id, MappedAddress,
    RendezvousReply, MSG_BINDING_SUCCESS, STUN_MAGIC_COOKIE,
};

#[test]
fn xor_mapped_address_decodes_known_value() {
    let value = [0x00, 0x01, 0xc2, 0x6b, 0xa1, 0xad, 0x8b, 0x87];
    let addr = parse_xor_mapped_address(&value).unwrap();
    let port = (0xc26b_u16) ^ ((STUN_MAGIC_COOKIE >> 16) as u16);
    assert_eq!(addr.port, port);
    assert_eq!(addr, MappedAddress { octets: [128, 191, 47, 197], port: 0xe379 });
}

#[test]
fn parse_response_rejects_bad_magic_cookie() {
    let mut resp = vec![0u8; 20];
    resp[0..2].copy_from_slice(&MSG_BINDING_SUCCESS.to_be_bytes());
    resp[2..4].copy_from_slice(&0u16.to_be_bytes());
    resp[4..8].copy_from_slice(&0u32.to_be_bytes());
    let txn = [0u8; 12];
    assert!(parse_binding_response(&resp, &txn).is_err());
    assert_eq!(
        parse_binding_response(&resp, &txn),
        Err("STUN: bad magic cookie".to_string())
    );
}

fn response(txn: &[u8; 12], attrs: &[u8]) -> Vec<u8> {
    let mut r = Vec::new();
    r.extend_from_slice(&MSG_BINDING_SUCCESS.to_be_bytes());
    r.extend_from_slice(&(attrs.len() as u16).to_be_bytes());
    r.extend_from_slice(&STUN_MAGIC_COOKIE.to_be_bytes());
    r.extend_from_slice(txn);
    r.extend_from_slice(attrs);
    r
}

#[test]
fn parse_response_skips_unknown_attributes_with_padding() {
    let txn = transaction_id(7, 9);
    let mut attrs = vec![0x80, 0x22, 0x00, 0x03, b'a', b'b', b'c', 0x00];
    attrs.extend_from_slice(&[0x00, 0x20, 0x00, 0x08, 0x00, 0x01, 0xc2, 0x6b, 0xa1, 0xad, 0x8b, 0x87]);
    let resp = response(&txn, &attrs);
    assert_eq!(
        parse_binding_response(&resp, &txn),
        Ok(MappedAddress { octets: [128, 191, 47, 197], port: 0xe379 })
    );
}

#[test]
fn parse_response_accepts_legacy_mapped_address() {
    let txn = [1u8; 12];
    let attrs = [0x00, 0x01, 0x00, 0x08, 0x00, 0x01, 0x1f, 0x90, 10, 0, 0, 7];
    let resp = response(&txn, &attrs);
    assert_eq!(
        parse_binding_response(&resp, &txn),
        Ok(MappedAddress { octets: [10, 0, 0, 7], port: 8080 })
    );
}

#[test]
fn parse_response_errors() {
    let txn = [1u8; 12];
    assert_eq!(
        parse_binding_response(&[0u8; 19], &txn),
        Err("STUN: response too short".to_string())
    );
    let mut resp = response(&txn, &[]);
    resp[1] = 0x11;
    assert_eq!(
        parse_binding_response(&resp, &txn),
        Err("STUN: not a binding-success (got msg_type=0x111)".to_string())
    );
    let resp = response(&txn, &[]);
    assert_eq!(
        parse_binding_response(&resp, &[2u8; 12]),
        Err("STUN: transaction id mismatch".to_string())
    );
    assert_eq!(
        parse_binding_response(&resp, &txn),
        Err("STUN: no MAPPED-ADDRESS or XOR-MAPPED-ADDRESS in response".to_string())
    );
    let mut truncated = response(&txn, &[0, 0, 0, 0]);
    truncated.pop();
    assert_eq!(
        parse_binding_response(&truncated, &txn),
        Err("STUN: attribute section truncated".to_string())
    );
    let past = response(&txn, &[0x00, 0x20, 0x00, 0x09, 1, 2, 3, 4]);
    assert_eq!(
        parse_binding_response(&past, &txn),
        Err("STUN: attribute value past end".to_string())
    );
}

#[test]
fn mapped_address_rejects_ipv6_and_short_values() {
    assert_eq!(
        parse_mapped_address(&[0, 2, 0, 0, 0, 0, 0, 0]),
        Err("STUN: only IPv4 supported (got family 0x2)".to_string())
    );
    assert_eq!(
        parse_xor_mapped_address(&[0, 1, 0]),
        Err("STUN: XOR-MAPPED-ADDRESS too short".to_string())
    );
    assert_eq!(
        parse_mapped_address(&[0, 1, 0]),
        Err("STUN: MAPPED-ADDRESS too short".to_string())
    );
}

#[test]
fn binding_request_layout() {
    let txn = transaction_id(0x01020304, 0x0a0b0c0d);
    assert_eq!(txn, [1, 2, 3, 4, 10, 11, 12, 13, 0xde, 0xad, 0xbe, 0xef]);
    let req = binding_request(&txn);
    assert_eq!(req.len(), 20);
    assert_eq!(&req[0..8], &[0x00, 0x01, 0x00, 0x00, 0x21, 0x12, 0xA4, 0x42]);
    assert_eq!(&req[8..20], &txn);
}

#[test]
fn lobby_names() {
    assert!(check_lobby_name("lobby1").is_ok());
    assert!(check_lobby_name("").is_err());
    assert_eq!(
        check_lobby_name("bad name"),
        Err("rendezvous: lobby_name must be non-empty and contain no spaces/newlines".to_string())
    );
    assert!(check_lobby_name("a\nb").is_err());
}

#[test]
fn join_and_replies() {
    assert_eq!(join_line("lobby1", "1.2.3.4:5"), "JOIN lobby1 1.2.3.4:5\n");
    assert_eq!(
        classify_reply("PEER 127.0.0.1:22222\n"),
        RendezvousReply::Peer("127.0.0.1:22222".to_string())
    );
    assert_eq!(classify_reply("  WAIT  \nextra"), RendezvousReply::Wait);
    assert_eq!(
        classify_reply("ERR lobby full\n"),
        RendezvousReply::ServerError("lobby full".to_string())
    );
    assert_eq!(classify_reply("HELLO\n"), RendezvousReply::Bad("HELLO".to_string()));
    assert_eq!(classify_reply(""), RendezvousReply::Bad(String::new()));
}
