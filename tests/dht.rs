use magnet_dht::bencode::{parse, BencodeParserError};
use magnet_dht::compact::{CompactNodeInfo, CompactPeer};
use magnet_dht::dht::{
    decode_find_node_reply, decode_get_peers_reply, DHTClient, DHTDecodeError, DHTErrorCode,
    DHTResponse,
};

fn canned_get_peers_reply(nid: &[u8; 20], node: &[u8; 26]) -> Vec<u8> {
    let mut m: Vec<u8> = Vec::new();
    m.extend_from_slice(b"d1:rd2:id20:");
    m.extend_from_slice(nid);
    m.extend_from_slice(b"5:nodes26:");
    m.extend_from_slice(node);
    m.extend_from_slice(b"5:token4:abcde1:t2:aa1:y1:re");
    m
}

fn sample_node() -> [u8; 26] {
    let mut node = [0u8; 26];
    for i in 0..20 {
        node[i] = 100 + i as u8;
    }
    node[20] = 10;
    node[21] = 0;
    node[22] = 0;
    node[23] = 7;
    node[24] = 0x1a;
    node[25] = 0xe1;
    node
}

const AA: u16 = 0x6161;

#[test]
fn decodes_canned_get_peers_reply() {
    let nid = [9u8; 20];
    let node = sample_node();
    let msg = canned_get_peers_reply(&nid, &node);
    let reply = decode_get_peers_reply(AA, &msg).unwrap();
    let r = match reply {
        DHTResponse::DHTResponse(r) => r,
        DHTResponse::DHTError(e) => panic!("unexpected error reply {:?}", e),
    };
    assert_eq!(r.base.node_id, nid);
    assert_eq!(r.nodes.len(), 1);
    let mut id = [0u8; 20];
    id.copy_from_slice(&node[0..20]);
    assert_eq!(
        r.nodes[0],
        CompactNodeInfo { node_id: id, socket_addr: CompactPeer { ip: [10, 0, 0, 7], port: 6881 } }
    );
    assert_eq!(r.token, Some(b"abcd".to_vec()));
    assert!(r.values.is_empty());
}

#[test]
fn ignores_reply_with_foreign_transaction_id() {
    let msg = canned_get_peers_reply(&[9u8; 20], &sample_node());
    assert!(matches!(
        decode_get_peers_reply(0x6162, &msg),
        Err(DHTDecodeError::TransactionMismatch)
    ));
}

#[test]
fn decodes_values_as_peers() {
    let mut m: Vec<u8> = Vec::new();
    m.extend_from_slice(b"d1:rd2:id20:");
    m.extend_from_slice(&[1u8; 20]);
    m.extend_from_slice(b"6:valuesl6:");
    m.extend_from_slice(&[192, 168, 1, 2, 0x1f, 0x90]);
    m.extend_from_slice(b"6:");
    m.extend_from_slice(&[8, 8, 8, 8, 0, 80]);
    m.extend_from_slice(b"ee1:t2:aa1:y1:re");
    let r = decode_get_peers_reply(AA, &m).unwrap().unwrap();
    assert_eq!(
        r.values,
        vec![
            CompactPeer { ip: [192, 168, 1, 2], port: 8080 },
            CompactPeer { ip: [8, 8, 8, 8], port: 80 }
        ]
    );
    assert!(r.nodes.is_empty());
    assert_eq!(r.token, None);
}

#[test]
fn rejects_malformed_values() {
    let mut m: Vec<u8> = Vec::new();
    m.extend_from_slice(b"d1:rd2:id20:");
    m.extend_from_slice(&[1u8; 20]);
    m.extend_from_slice(b"6:valuesl3:abcee1:t2:aa1:y1:re");
    assert!(matches!(decode_get_peers_reply(AA, &m), Err(DHTDecodeError::BadValues)));
}

#[test]
fn decodes_error_envelope() {
    let msg = b"d1:eli201e5:Errore1:t2:aa1:y1:ee";
    match decode_get_peers_reply(AA, msg).unwrap() {
        DHTResponse::DHTError(e) => {
            assert_eq!(e.error_code, DHTErrorCode::GenericError);
            assert_eq!(e.error_message, "Error");
        }
        DHTResponse::DHTResponse(_) => panic!("expected an error reply"),
    }
    let msg = b"d1:eli299e1:xe1:t2:aa1:y1:ee";
    match decode_find_node_reply(AA, msg).unwrap() {
        DHTResponse::DHTError(e) => assert_eq!(e.error_code, DHTErrorCode::UnknownCode(299)),
        DHTResponse::DHTResponse(_) => panic!("expected an error reply"),
    }
}

#[test]
fn error_code_mapping() {
    assert_eq!(DHTErrorCode::from_code(202), DHTErrorCode::ServerError);
    assert_eq!(DHTErrorCode::from_code(203), DHTErrorCode::ProtocolError);
    assert_eq!(DHTErrorCode::from_code(204), DHTErrorCode::MethodUnknown);
}

#[test]
fn reports_envelope_errors() {
    assert!(matches!(decode_get_peers_reply(AA, b"le"), Err(DHTDecodeError::NotADict)));
    assert!(matches!(
        decode_get_peers_reply(AA, b"d1:y1:re"),
        Err(DHTDecodeError::MissingTransactionId)
    ));
    assert!(matches!(
        decode_get_peers_reply(AA, b"d1:t2:aae"),
        Err(DHTDecodeError::MissingMessageKind)
    ));
    assert!(matches!(
        decode_get_peers_reply(AA, b"d1:t2:aa1:y1:qe"),
        Err(DHTDecodeError::ProtocolError)
    ));
    assert!(matches!(
        decode_get_peers_reply(AA, b"d1:t2:aa1:y1:re"),
        Err(DHTDecodeError::MissingResponseDict)
    ));
    assert!(matches!(
        decode_get_peers_reply(AA, b"d1:rd2:id3:abce1:t2:aa1:y1:re"),
        Err(DHTDecodeError::BadNodeId)
    ));
    assert!(matches!(
        decode_get_peers_reply(AA, b"d1:eli201ee1:t2:aa1:y1:ee"),
        Err(DHTDecodeError::MalformedError)
    ));
    assert!(matches!(
        decode_get_peers_reply(AA, b"d1:t"),
        Err(DHTDecodeError::Bencode(BencodeParserError::Truncated { pos: 4 }))
    ));
}

#[test]
fn find_node_requires_nodes() {
    let mut m: Vec<u8> = Vec::new();
    m.extend_from_slice(b"d1:rd2:id20:");
    m.extend_from_slice(&[1u8; 20]);
    m.extend_from_slice(b"e1:t2:aa1:y1:re");
    assert!(matches!(decode_find_node_reply(AA, &m), Err(DHTDecodeError::BadNodes)));
    let mut m: Vec<u8> = Vec::new();
    m.extend_from_slice(b"d1:rd2:id20:");
    m.extend_from_slice(&[1u8; 20]);
    m.extend_from_slice(b"5:nodes26:");
    m.extend_from_slice(&sample_node());
    m.extend_from_slice(b"e1:t2:aa1:y1:re");
    let r = decode_find_node_reply(AA, &m).unwrap().unwrap();
    assert_eq!(r.nodes.len(), 1);
    assert_eq!(r.base.node_id, [1u8; 20]);
}

#[test]
fn rejects_nodes_with_partial_record() {
    let mut m: Vec<u8> = Vec::new();
    m.extend_from_slice(b"d1:rd2:id20:");
    m.extend_from_slice(&[1u8; 20]);
    m.extend_from_slice(b"5:nodes27:");
    m.extend_from_slice(&sample_node());
    m.push(0);
    m.extend_from_slice(b"e1:t2:aa1:y1:re");
    assert!(matches!(decode_get_peers_reply(AA, &m), Err(DHTDecodeError::BadNodes)));
    assert!(matches!(decode_find_node_reply(AA, &m), Err(DHTDecodeError::BadNodes)));
}

#[test]
fn builds_get_peers_query() {
    let mut client = DHTClient::new([b'a'; 20]);
    let (tid, q) = client.get_peers(&[b'b'; 20]);
    assert_eq!(tid, 0);
    let mut expected: Vec<u8> = Vec::new();
    expected.extend_from_slice(b"d1:ad2:id20:aaaaaaaaaaaaaaaaaaaa9:info_hash20:bbbbbbbbbbbbbbbbbbbbe");
    expected.extend_from_slice(b"1:q9:get_peers1:t2:");
    expected.extend_from_slice(&[0, 0]);
    expected.extend_from_slice(b"1:y1:qe");
    assert_eq!(q, expected);
    let (tid2, _) = client.get_peers(&[b'b'; 20]);
    assert_eq!(tid2, 1);
    assert!(parse(&q).is_ok());
}

#[test]
fn builds_find_node_query() {
    let mut client = DHTClient::new([b'a'; 20]);
    client.tx_id = 0x0102;
    let (tid, q) = client.find_node(b"cc");
    assert_eq!(tid, 0x0102);
    let mut expected: Vec<u8> = Vec::new();
    expected.extend_from_slice(b"d1:ad2:id20:aaaaaaaaaaaaaaaaaaaa6:target2:cce");
    expected.extend_from_slice(b"1:q9:find_node1:t2:");
    expected.extend_from_slice(&[1, 2]);
    expected.extend_from_slice(b"1:y1:qe");
    assert_eq!(q, expected);
    assert_eq!(client.tx_id, 0x0103);
}

#[test]
fn transaction_ids_wrap() {
    let mut client = DHTClient::new([0; 20]);
    client.tx_id = u16::MAX;
    assert_eq!(client.next_transaction_id(), u16::MAX);
    assert_eq!(client.next_transaction_id(), 0);
}
