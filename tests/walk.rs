use magnet_dht::compact::{CompactNodeInfo, CompactPeer};
use magnet_dht::dht::{DHTBaseResponse, DHTGetPeersResponse};
use magnet_dht::kademlia::{distance_less, get_distance};
use magnet_dht::walk::PeerSearch;

fn addr(n: u8) -> CompactPeer {
    CompactPeer { ip: [10, 0, 0, n], port: 6881 }
}

fn id_at_distance(target: &[u8; 20], d: u8) -> [u8; 20] {
    let mut dist = [0u8; 20];
    dist[0] = d;
    get_distance(target, &dist)
}

fn reply(nodes: Vec<CompactNodeInfo>, values: Vec<CompactPeer>) -> DHTGetPeersResponse {
    DHTGetPeersResponse { base: DHTBaseResponse { node_id: [0; 20] }, token: None, nodes, values }
}

#[test]
fn popped_distances_do_not_increase() {
    let target = [0x5au8; 20];
    let mut search = PeerSearch::new(target, &vec![addr(1)]);
    let first = search.next_query().unwrap();
    assert_eq!(first, addr(1));
    let mut last_distance: Option<[u8; 20]> = None;
    let mut next_d: u8 = 200;
    let mut n: u8 = 2;
    while n < 30 {
        let nodes = vec![
            CompactNodeInfo { node_id: id_at_distance(&target, next_d), socket_addr: addr(n) },
            CompactNodeInfo { node_id: id_at_distance(&target, next_d + 3), socket_addr: addr(n + 1) },
        ];
        search.on_reply(&reply(nodes, vec![]));
        let a = search.next_query().unwrap();
        let d = if a == addr(n) { next_d } else { next_d + 3 };
        let dist = get_distance(&id_at_distance(&target, d), &target);
        if let Some(prev) = last_distance {
            assert!(!distance_less(&prev, &dist));
        }
        last_distance = Some(dist);
        next_d -= 7;
        n += 2;
    }
}

#[test]
fn never_asks_an_address_twice() {
    let target = [1u8; 20];
    let mut search = PeerSearch::new(target, &vec![addr(1), addr(2), addr(1)]);
    assert_eq!(search.frontier_len(), 2);
    let mut asked: Vec<CompactPeer> = Vec::new();
    while let Some(a) = search.next_query() {
        assert!(!asked.contains(&a));
        asked.push(a);
        let nodes = vec![
            CompactNodeInfo { node_id: [2; 20], socket_addr: addr(1) },
            CompactNodeInfo { node_id: [3; 20], socket_addr: addr(3) },
        ];
        search.on_reply(&reply(nodes, vec![]));
    }
    assert_eq!(asked.len(), 3);
    assert_eq!(search.visited(), &asked);
}

#[test]
fn latest_of_equal_distance_goes_first() {
    let target = [0u8; 20];
    let mut search = PeerSearch::new(target, &vec![]);
    let nodes = vec![
        CompactNodeInfo { node_id: [7; 20], socket_addr: addr(1) },
        CompactNodeInfo { node_id: [7; 20], socket_addr: addr(2) },
        CompactNodeInfo { node_id: [9; 20], socket_addr: addr(3) },
    ];
    search.add_nodes(&nodes);
    assert_eq!(search.next_query(), Some(addr(2)));
    assert_eq!(search.next_query(), Some(addr(1)));
    assert_eq!(search.next_query(), Some(addr(3)));
    assert_eq!(search.next_query(), None);
}

#[test]
fn peers_are_deduplicated_and_quota_ends_search() {
    let mut search = PeerSearch::new([0u8; 20], &vec![addr(1)]);
    let fresh = search.add_peers(&vec![addr(7), addr(8), addr(7)]);
    assert_eq!(fresh, vec![addr(7), addr(8)]);
    let fresh = search.add_peers(&vec![addr(8), addr(9)]);
    assert_eq!(fresh, vec![addr(9)]);
    assert_eq!(search.peers_found(), &vec![addr(7), addr(8), addr(9)]);
    assert!(search.is_finished(3, 200));
    assert!(!search.is_finished(4, 200));
    search.next_query();
    assert!(search.is_finished(4, 1));
}
