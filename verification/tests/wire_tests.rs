//! The overlay wire format: payload round trips and rejection of malformed
//! blobs.

use dafs::models::{ChatRoom, EncryptedMessage, MessageAck, MessageType, UserDevice, UserIdentity,
    UserStatus, DeviceType};
use dafs::peer::P2PMessage;
use dafs::store::FileMetadata;
use dafs::util::StringMap;
use dafs::wire::{decode_payload, encode_payload};

fn sample_message() -> EncryptedMessage {
    EncryptedMessage {
        id: "msg_1".to_string(),
        sender_id: "alice".to_string(),
        recipient_id: "bob".to_string(),
        encrypted_content: vec![1, 2, 3, 4],
        timestamp: 99,
        message_type: MessageType::File,
        signature: Some(vec![9, 9]),
        device_id: "dev".to_string(),
    }
}

fn assert_message_eq(a: &EncryptedMessage, b: &EncryptedMessage) {
    assert_eq!(a.id, b.id);
    assert_eq!(a.sender_id, b.sender_id);
    assert_eq!(a.recipient_id, b.recipient_id);
    assert_eq!(a.encrypted_content, b.encrypted_content);
    assert_eq!(a.timestamp, b.timestamp);
    assert_eq!(a.signature, b.signature);
    assert_eq!(a.device_id, b.device_id);
}

#[test]
fn ping_pong_round_trip() {
    let ping = P2PMessage::PeerPing { timestamp: 12345, peer_id: "nodeX".to_string() };
    let blob = encode_payload(&ping);
    match decode_payload(&blob).unwrap() {
        P2PMessage::PeerPing { timestamp, peer_id } => {
            assert_eq!(timestamp, 12345);
            assert_eq!(peer_id, "nodeX");
        },
        _ => panic!("wrong variant"),
    }
    let pong = P2PMessage::PeerPong { timestamp: 12399, peer_id: "nodeY".to_string() };
    let blob = encode_payload(&pong);
    assert!(matches!(decode_payload(&blob), Some(P2PMessage::PeerPong { .. })));
}

#[test]
fn chunk_request_round_trip() {
    let req = P2PMessage::FileChunkRequest {
        file_id: "f-1".to_string(),
        chunk_index: 7,
        chunk_size: 1_048_576,
        signature: None,
    };
    let blob = encode_payload(&req);
    match decode_payload(&blob).unwrap() {
        P2PMessage::FileChunkRequest { file_id, chunk_index, chunk_size, signature } => {
            assert_eq!(file_id, "f-1");
            assert_eq!(chunk_index, 7);
            assert_eq!(chunk_size, 1_048_576);
            assert!(signature.is_none());
        },
        _ => panic!("wrong variant"),
    }
}

#[test]
fn direct_message_round_trip() {
    let m = P2PMessage::EncryptedDirectMessage { message: sample_message() };
    let blob = encode_payload(&m);
    match decode_payload(&blob).unwrap() {
        P2PMessage::EncryptedDirectMessage { message } => {
            assert_message_eq(&message, &sample_message());
        },
        _ => panic!("wrong variant"),
    }
}

#[test]
fn ack_round_trip() {
    let m = P2PMessage::DeliveryAck {
        ack: MessageAck {
            message_id: "msg_1".to_string(),
            delivered: true,
            timestamp: 5,
            recipient_device_id: "dev".to_string(),
        },
    };
    let blob = encode_payload(&m);
    match decode_payload(&blob).unwrap() {
        P2PMessage::DeliveryAck { ack } => {
            assert_eq!(ack.message_id, "msg_1");
            assert!(ack.delivered);
            assert_eq!(ack.timestamp, 5);
        },
        _ => panic!("wrong variant"),
    }
}

#[test]
fn presence_and_room_round_trip() {
    let m = P2PMessage::PresenceUpdate {
        status: UserStatus {
            user_id: "u1".to_string(),
            username: "alice".to_string(),
            online: true,
            last_seen: 77,
            status_message: Some("hi".to_string()),
            current_device: None,
        },
    };
    let blob = encode_payload(&m);
    match decode_payload(&blob).unwrap() {
        P2PMessage::PresenceUpdate { status } => {
            assert_eq!(status.username, "alice");
            assert_eq!(status.status_message, Some("hi".to_string()));
        },
        _ => panic!("wrong variant"),
    }
    let m = P2PMessage::ChatRoomCreate {
        room: ChatRoom {
            id: "room_1".to_string(),
            name: "lobby".to_string(),
            participants: vec!["u1".to_string(), "u2".to_string()],
            created_at: 1,
            last_message_at: 2,
            created_by: "u1".to_string(),
            is_private: true,
        },
    };
    let blob = encode_payload(&m);
    match decode_payload(&blob).unwrap() {
        P2PMessage::ChatRoomCreate { room } => {
            assert_eq!(room.participants, vec!["u1".to_string(), "u2".to_string()]);
            assert!(room.is_private);
        },
        _ => panic!("wrong variant"),
    }
}

#[test]
fn discovery_with_identity_round_trip() {
    let identity = UserIdentity {
        user_id: "uid-1".to_string(),
        username: "alice".to_string(),
        display_name: "Alice".to_string(),
        email: Some("a@example.com".to_string()),
        created_at: 10,
        last_seen: 20,
        devices: vec![UserDevice {
            device_id: "d1".to_string(),
            device_name: "laptop".to_string(),
            device_type: DeviceType::Laptop,
            last_login: 15,
            is_current: true,
            ip_address: None,
            user_agent: Some("agent".to_string()),
        }],
        public_key: [3u8; 32],
        is_active: true,
    };
    let m = P2PMessage::PeerDiscovery {
        peer_id: "nodeX".to_string(),
        addresses: vec!["/ip4/10.0.0.1/tcp/2093".to_string()],
        user_info: Some(identity),
    };
    let blob = encode_payload(&m);
    match decode_payload(&blob).unwrap() {
        P2PMessage::PeerDiscovery { peer_id, addresses, user_info } => {
            assert_eq!(peer_id, "nodeX");
            assert_eq!(addresses, vec!["/ip4/10.0.0.1/tcp/2093".to_string()]);
            let u = user_info.unwrap();
            assert_eq!(u.username, "alice");
            assert_eq!(u.devices.len(), 1);
            assert_eq!(u.devices[0].device_name, "laptop");
            assert_eq!(u.public_key, [3u8; 32]);
        },
        _ => panic!("wrong variant"),
    }
}

#[test]
fn file_list_round_trip() {
    let mut shared = StringMap::new();
    shared.insert("bob".to_string(), vec![1, 2]);
    let meta = FileMetadata {
        file_id: "f-9".to_string(),
        filename: "a.txt".to_string(),
        tags: vec!["t".to_string()],
        owner_peer_id: "alice".to_string(),
        checksum: "abcd".to_string(),
        size: 4,
        encrypted_file_key: vec![7, 7],
        shared_keys: shared,
        allowed_peers: vec!["alice".to_string(), "bob".to_string()],
    };
    let m = P2PMessage::FileListResponse { files: vec![meta] };
    let blob = encode_payload(&m);
    match decode_payload(&blob).unwrap() {
        P2PMessage::FileListResponse { files } => {
            assert_eq!(files.len(), 1);
            assert_eq!(files[0].file_id, "f-9");
            assert_eq!(files[0].allowed_peers.len(), 2);
        },
        _ => panic!("wrong variant"),
    }
}

#[test]
fn malformed_payloads_are_rejected() {
    assert!(decode_payload(&Vec::new()).is_none());
    assert!(decode_payload(&vec![200]).is_none());
    let good = encode_payload(&P2PMessage::PeerPing {
        timestamp: 1,
        peer_id: "p".to_string(),
    });
    assert!(decode_payload(&good[..good.len() - 1].to_vec()).is_none());
}
