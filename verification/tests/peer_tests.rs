//! Discovery, ping latency, the peer state machine, allow and bootstrap
//! lists and request bookkeeping.

use dafs::errors::DafsError;
use dafs::peer::{
    answer_chunk_request, answer_ping, handle_discovery_request, handle_file_request,
    peer_transition, ping_outcome, AllowList, BootstrapList, P2PMessage, PeerEvent, PeerState,
    PeerTable, RequestTracker, FILE_EXCHANGE_PROTOCOL, MESSAGING_PROTOCOL,
    PEER_DISCOVERY_PROTOCOL,
};
use dafs::recommend::NCFModel;
use dafs::store::Storage;

#[test]
fn protocol_identifiers() {
    assert_eq!(FILE_EXCHANGE_PROTOCOL, "/dafs/file-exchange/1.0.0");
    assert_eq!(MESSAGING_PROTOCOL, "/dafs/messaging/1.0.0");
    assert_eq!(PEER_DISCOVERY_PROTOCOL, "/dafs/peer-discovery/1.0.0");
}

#[test]
fn peer_ping_latency() {
    let mut table = PeerTable::new();
    table.merge_discovery("nodeY".to_string(), vec!["/ip4/10.0.0.2/tcp/2093".to_string()], None, 100);
    let p = table.peers.get("nodeY").unwrap();
    assert!(p.is_online);
    assert!(p.latency_ms.is_none());

    // Node Y echoes the ping's timestamp; the initiator measures on receipt.
    let pong = answer_ping("nodeY", 985);
    let echoed = match pong {
        P2PMessage::PeerPong { timestamp, ref peer_id } => {
            assert_eq!(peer_id, "nodeY");
            timestamp
        },
        _ => panic!("expected a pong"),
    };
    let latency = ping_outcome(Some(echoed), 1000).unwrap();
    assert_eq!(latency, 15);
    let recorded = table.record_pong("nodeY", echoed, 1000);
    assert_eq!(recorded, 15);
    let p = table.peers.get("nodeY").unwrap();
    assert!(p.is_online);
    assert_eq!(p.latency_ms, Some(15));
    assert!(table.knows("nodeY"));
}

#[test]
fn ping_without_pong_times_out() {
    assert_eq!(ping_outcome(None, 1000), Err(DafsError::Timeout));
}

#[test]
fn clock_skew_clamps_latency_at_zero() {
    assert_eq!(ping_outcome(Some(2000), 1000).unwrap(), 0);
}

#[test]
fn state_machine_transitions() {
    assert_eq!(
        peer_transition(PeerState::Unknown, PeerEvent::RecordInserted),
        PeerState::Discovered,
    );
    assert_eq!(
        peer_transition(PeerState::Discovered, PeerEvent::DialSucceeded),
        PeerState::Connected,
    );
    assert_eq!(
        peer_transition(PeerState::Connected, PeerEvent::ConnectionClosed),
        PeerState::Disconnected,
    );
    assert_eq!(
        peer_transition(PeerState::Disconnected, PeerEvent::DialSucceeded),
        PeerState::Connected,
    );
    // Events that do not apply leave the state alone.
    assert_eq!(
        peer_transition(PeerState::Unknown, PeerEvent::ConnectionClosed),
        PeerState::Unknown,
    );
}

#[test]
fn offline_peers_are_marked() {
    let mut table = PeerTable::new();
    table.merge_discovery("p".to_string(), Vec::new(), None, 10);
    table.set_online("p", false, 20);
    assert!(!table.peers.get("p").unwrap().is_online);
    assert!(table.remove_peer("p"));
    assert!(!table.remove_peer("p"));
}

#[test]
fn allow_list_gates_chunk_requests() {
    let mut allow = AllowList::new();
    let data = b"abcdef".to_vec();
    assert!(answer_chunk_request(&allow, "peer1", &data, 0, 4).is_empty());
    allow.allow_peer("peer1");
    assert!(allow.is_allowed("peer1"));
    assert_eq!(answer_chunk_request(&allow, "peer1", &data, 0, 4), b"abcd".to_vec());
    allow.disallow_peer("peer1");
    assert!(!allow.is_allowed("peer1"));
    assert!(answer_chunk_request(&allow, "peer1", &data, 0, 4).is_empty());
}

#[test]
fn allow_list_roundtrip() {
    let mut allow = AllowList::new();
    allow.allow_peer("a");
    allow.allow_peer("b");
    assert_eq!(allow.list_allowed_peers(), vec!["a".to_string(), "b".to_string()]);
}

#[test]
fn bootstrap_list_add_remove() {
    let mut nodes = BootstrapList::new();
    nodes.add_bootstrap_node("peerA", "/ip4/1.2.3.4/tcp/2093");
    nodes.add_bootstrap_node("peerB", "/ip4/1.2.3.5/tcp/2093");
    let listed = nodes.list_bootstrap_nodes();
    assert_eq!(listed.len(), 2);
    assert_eq!(listed[0], ("peerA".to_string(), "/ip4/1.2.3.4/tcp/2093".to_string()));
    nodes.remove_bootstrap_node("peerA");
    let listed = nodes.list_bootstrap_nodes();
    assert_eq!(listed.len(), 1);
    assert_eq!(listed[0].0, "peerB");
}

#[test]
fn request_tracker_retires_once() {
    let mut tracker = RequestTracker::new();
    let a = tracker.allocate();
    let b = tracker.allocate();
    assert_ne!(a, b);
    assert!(tracker.retire(a));
    // A late reply to a request already retired is discarded.
    assert!(!tracker.retire(a));
    assert!(tracker.retire(b));
}

#[test]
fn signatures_are_accepted_by_the_placeholder() {
    assert!(dafs::peer::verify_signature("p", &vec![1], &vec![2]));
}

#[test]
fn discovery_dispatcher_answers_ping_and_merges_records() {
    let mut table = PeerTable::new();
    let self_addrs = vec!["/ip4/0.0.0.0/tcp/2093".to_string()];
    let ping = P2PMessage::PeerPing { timestamp: 985, peer_id: "nodeY".to_string() };
    match handle_discovery_request(&mut table, &ping, "me", &self_addrs, 1000) {
        Some(P2PMessage::PeerPong { timestamp, peer_id }) => {
            assert_eq!(timestamp, 1000);
            assert_eq!(peer_id, "nodeY");
        },
        _ => panic!("expected a pong"),
    }
    let record = P2PMessage::PeerDiscovery {
        peer_id: "nodeZ".to_string(),
        addresses: vec!["/ip4/10.0.0.9/tcp/2093".to_string()],
        user_info: None,
    };
    match handle_discovery_request(&mut table, &record, "me", &self_addrs, 1001) {
        Some(P2PMessage::PeerDiscovery { peer_id, addresses, user_info }) => {
            assert_eq!(peer_id, "me");
            assert_eq!(addresses, self_addrs);
            assert!(user_info.is_none());
        },
        _ => panic!("expected our own record"),
    }
    assert!(table.knows("nodeZ"));
    // Unrelated payloads get no reply.
    let other = P2PMessage::FileListRequest { signature: None };
    assert!(handle_discovery_request(&mut table, &other, "me", &self_addrs, 1002).is_none());
}

#[test]
fn file_dispatcher_gates_chunks_and_takes_model_blobs() {
    let mut storage = Storage::new("/tmp/dafs_testdb_dispatch").unwrap();
    let mut model = NCFModel::new();
    let mut allow = AllowList::new();
    let blob = b"abcdefgh".to_vec();
    let req = P2PMessage::FileChunkRequest {
        file_id: "f".to_string(),
        chunk_index: 1,
        chunk_size: 4,
        signature: None,
    };
    match handle_file_request(&allow, "peerX", &mut storage, &mut model, &blob, &req) {
        Some(P2PMessage::FileChunkResponse { file_id, chunk_index, data }) => {
            assert_eq!(file_id, "f");
            assert_eq!(chunk_index, 1);
            assert!(data.is_empty());
        },
        _ => panic!("expected a chunk response"),
    }
    allow.allow_peer("peerX");
    match handle_file_request(&allow, "peerX", &mut storage, &mut model, &blob, &req) {
        Some(P2PMessage::FileChunkResponse { data, .. }) => assert_eq!(data, b"efgh".to_vec()),
        _ => panic!("expected a chunk response"),
    }
    let mut remote = NCFModel::new();
    remote.train(&vec![("u".to_string(), "A".to_string())]).unwrap();
    let update = P2PMessage::ModelUpdate { weights: remote.export_model(), epoch: remote.epoch };
    let none = handle_file_request(&allow, "peerX", &mut storage, &mut model, &blob, &update);
    assert!(none.is_none());
    assert_eq!(model.epoch, 1);
}
