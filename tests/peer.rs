use calvinite::peer::{Peer, PeerManager, VnodeRange};

#[test]
fn get_local_peer_ranges_1_peer() {
    let pm = PeerManager { local_peers: vec![Peer { id: 0 }] };

    let peer_to_range = pm.get_local_peer_ranges();
    assert_eq!(peer_to_range, vec![(Peer { id: 0 }, VnodeRange { start: 0, end: 0 })]);
}

#[test]
fn get_local_peer_ranges_2_peers() {
    let pm = PeerManager { local_peers: vec![Peer { id: 0 }, Peer { id: 1 }] };

    let peer_to_range = pm.get_local_peer_ranges();
    assert_eq!(
        peer_to_range,
        vec![
            (Peer { id: 0 }, VnodeRange { start: 0, end: 32767 }),
            (Peer { id: 1 }, VnodeRange { start: 32767, end: 0 }),
        ]
    );
}

#[test]
fn get_local_peer_ranges_3_peers() {
    let pm = PeerManager { local_peers: vec![Peer { id: 0 }, Peer { id: 1 }, Peer { id: 2 }] };

    let peer_to_range = pm.get_local_peer_ranges();
    assert_eq!(
        peer_to_range,
        vec![
            (Peer { id: 0 }, VnodeRange { start: 0, end: 21845 }),
            (Peer { id: 1 }, VnodeRange { start: 21845, end: 43690 }),
            (Peer { id: 2 }, VnodeRange { start: 43690, end: 0 }),
        ]
    );
}

#[test]
fn peer_ranges_are_in_id_order() {
    let pm = PeerManager { local_peers: vec![Peer { id: 9 }, Peer { id: 3 }] };
    let ranges = pm.get_local_peer_ranges();
    assert_eq!(ranges[0].0, Peer { id: 3 });
    assert_eq!(ranges[1].0, Peer { id: 9 });
}
