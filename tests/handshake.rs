use magnet_dht::handshake::{check_handshake_reply, handshake_message, interested_message, HandshakeError};

#[test]
fn handshake_layout() {
    let infohash = [0x11u8; 20];
    let peer_id = [0x22u8; 20];
    let msg = handshake_message(&infohash, &peer_id);
    assert_eq!(msg.len(), 68);
    assert_eq!(msg[0], 0x13);
    assert_eq!(&msg[1..20], b"BitTorrent protocol");
    assert_eq!(&msg[20..28], &[0u8; 8]);
    assert_eq!(&msg[28..48], &infohash);
    assert_eq!(&msg[48..68], &peer_id);
}

#[test]
fn accepts_matching_reply() {
    let infohash = [0x11u8; 20];
    let reply = handshake_message(&infohash, &[0x33u8; 20]);
    let h = check_handshake_reply(&reply, &infohash).unwrap();
    assert_eq!(h.peer_id, [0x33u8; 20]);
    assert_eq!(h.info_hash, infohash);
    assert_eq!(h.reserved, [0u8; 8]);
}

#[test]
fn refuses_other_infohash() {
    let reply = handshake_message(&[0x44u8; 20], &[0x33u8; 20]);
    assert_eq!(
        check_handshake_reply(&reply, &[0x11u8; 20]).unwrap_err(),
        HandshakeError::InfoHashMismatch
    );
}

#[test]
fn refuses_short_or_foreign_reply() {
    let reply = handshake_message(&[0x11u8; 20], &[0x33u8; 20]);
    assert_eq!(
        check_handshake_reply(&reply[..67], &[0x11u8; 20]).unwrap_err(),
        HandshakeError::Truncated
    );
    let mut other = reply.clone();
    other[5] = b'x';
    assert_eq!(
        check_handshake_reply(&other, &[0x11u8; 20]).unwrap_err(),
        HandshakeError::ProtocolMismatch
    );
}

#[test]
fn interested_bytes() {
    assert_eq!(interested_message(), vec![0, 0, 0, 1, 1]);
}
