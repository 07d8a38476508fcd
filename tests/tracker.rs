use magnet_dht::compact::CompactPeer;
use magnet_dht::tracker::{AnnounceRequest, AnnounceResponse, TrackerUDPClient, TrackerUDPClientError};

fn connected_client() -> TrackerUDPClient {
    let mut client = TrackerUDPClient::with_node_id([3u8; 20]);
    let (tid, _) = client.connect_request();
    let mut reply = vec![0, 0, 0, 0];
    reply.extend_from_slice(&tid.to_be_bytes());
    reply.extend_from_slice(&[1, 2, 3, 4, 5, 6, 7, 8]);
    client.handle_connect_response(tid, &reply, 1000).unwrap();
    client
}

#[test]
fn connect_exchange() {
    let mut client = TrackerUDPClient::with_node_id([0u8; 20]);
    client.transaction_id = 1;
    let (tid, packet) = client.connect_request();
    assert_eq!(tid, 1);
    assert_eq!(
        packet,
        vec![0x00, 0x00, 0x04, 0x17, 0x27, 0x10, 0x19, 0x80, 0, 0, 0, 0, 0, 0, 0, 1]
    );
    let reply = [0, 0, 0, 0, 0, 0, 0, 1, 9, 8, 7, 6, 5, 4, 3, 2];
    assert!(client.handle_connect_response(tid, &reply, 5).is_ok());
    assert_eq!(client.connection_id, Some([9, 8, 7, 6, 5, 4, 3, 2]));
    assert!(matches!(client.get_connection_id(), Ok([9, 8, 7, 6, 5, 4, 3, 2])));
}

#[test]
fn connect_with_wrong_transaction_id() {
    let mut client = TrackerUDPClient::with_node_id([0u8; 20]);
    client.transaction_id = 1;
    let (tid, _) = client.connect_request();
    let reply = [0, 0, 0, 0, 0, 0, 0, 2, 9, 8, 7, 6, 5, 4, 3, 2];
    assert!(matches!(
        client.handle_connect_response(tid, &reply, 5),
        Err(TrackerUDPClientError::TransactionIdMismatch)
    ));
    assert_eq!(client.connection_id, None);
}

#[test]
fn connect_with_short_or_wrong_reply() {
    let mut client = TrackerUDPClient::with_node_id([0u8; 20]);
    let (tid, _) = client.connect_request();
    assert!(matches!(
        client.handle_connect_response(tid, &[0, 0, 0, 0], 5),
        Err(TrackerUDPClientError::InvalidResponse)
    ));
    let reply = [0, 0, 0, 3, 0, 0, 0, 0, 9, 8, 7, 6, 5, 4, 3, 2];
    assert!(matches!(
        client.handle_connect_response(tid, &reply, 5),
        Err(TrackerUDPClientError::InvalidResponse)
    ));
}

#[test]
fn announce_before_connect() {
    let mut client = TrackerUDPClient::with_node_id([0u8; 20]);
    let request = AnnounceRequest::default();
    assert!(matches!(
        client.announce_request(&request, 0),
        Err(TrackerUDPClientError::NotConnected)
    ));
}

#[test]
fn announce_packet_layout() {
    let mut client = connected_client();
    let request = AnnounceRequest {
        info_hash: [0xab; 20],
        downloaded: 1,
        left: -2,
        uploaded: 3,
        num_want: -1,
        ip_address: [0; 4],
        port: 6969,
        event: 2,
    };
    let (tid, p) = client.announce_request(&request, 1030).unwrap();
    assert_eq!(tid, 1);
    assert_eq!(p.len(), 98);
    assert_eq!(&p[0..8], &[1, 2, 3, 4, 5, 6, 7, 8]);
    assert_eq!(&p[8..12], &[0, 0, 0, 1]);
    assert_eq!(&p[12..16], &[0, 0, 0, 1]);
    assert_eq!(&p[16..36], &[0xab; 20]);
    assert_eq!(&p[36..56], &[3u8; 20]);
    assert_eq!(&p[56..64], &1i64.to_be_bytes());
    assert_eq!(&p[64..72], &(-2i64).to_be_bytes());
    assert_eq!(&p[72..80], &3i64.to_be_bytes());
    assert_eq!(&p[80..84], &[0, 0, 0, 2]);
    assert_eq!(&p[84..88], &[0, 0, 0, 0]);
    assert_eq!(&p[88..92], &[0, 0, 0, 0]);
    assert_eq!(&p[92..96], &[0xff, 0xff, 0xff, 0xff]);
    assert_eq!(&p[96..98], &6969u16.to_be_bytes());
}

#[test]
fn connection_expires_after_a_minute() {
    let mut client = connected_client();
    let request = AnnounceRequest::default();
    assert!(matches!(
        client.announce_request(&request, 1060),
        Err(TrackerUDPClientError::NotConnected)
    ));
    assert_eq!(client.connection_id, None);
}

#[test]
fn announce_reply_with_peers() {
    let mut client = connected_client();
    let (tid, _) = client.announce_request(&AnnounceRequest::default(), 1001).unwrap();
    let mut reply: Vec<u8> = vec![0, 0, 0, 1];
    reply.extend_from_slice(&tid.to_be_bytes());
    reply.extend_from_slice(&[0, 0, 7, 8, 0, 0, 0, 5, 0, 0, 0, 9]);
    reply.extend_from_slice(&[1, 2, 3, 4, 0x1a, 0xe1, 5, 6, 7, 8, 0, 80, 9, 9]);
    let r = client.handle_announce_response(tid, &reply).unwrap();
    assert_eq!(r.action, 1);
    assert_eq!(r.transaction_id, tid);
    assert_eq!(r.interval, 1800);
    assert_eq!(r.leechers, 5);
    assert_eq!(r.seeders, 9);
    assert_eq!(
        r.peers,
        vec![CompactPeer { ip: [1, 2, 3, 4], port: 6881 }, CompactPeer { ip: [5, 6, 7, 8], port: 80 }]
    );
}

#[test]
fn announce_reply_errors() {
    let mut client = connected_client();
    let (tid, _) = client.announce_request(&AnnounceRequest::default(), 1001).unwrap();
    let mut reply: Vec<u8> = vec![0, 0, 0, 1];
    reply.extend_from_slice(&(tid + 5).to_be_bytes());
    reply.extend_from_slice(&[0; 12]);
    assert!(matches!(
        client.handle_announce_response(tid, &reply),
        Err(TrackerUDPClientError::TransactionIdMismatch)
    ));
    assert!(matches!(
        client.handle_announce_response(tid, &[0, 0, 0, 1]),
        Err(TrackerUDPClientError::InvalidResponse)
    ));
    assert!(matches!(
        AnnounceResponse::from_bytes(&[0; 19]),
        Err(TrackerUDPClientError::InvalidResponse)
    ));
    let mut wrong_action: Vec<u8> = vec![0, 0, 0, 3];
    wrong_action.extend_from_slice(&tid.to_be_bytes());
    wrong_action.extend_from_slice(&[0; 12]);
    assert!(matches!(
        client.handle_announce_response(tid, &wrong_action),
        Err(TrackerUDPClientError::InvalidResponse)
    ));
}

#[test]
fn new_client_starts_disconnected() {
    let client = TrackerUDPClient::new();
    assert_eq!(client.transaction_id, 0);
    assert_eq!(client.connection_id, None);
}
