//! Message logs, rooms, presence, acknowledgements and per-pair ordering.

use dafs::errors::DafsError;
use dafs::messaging::{handle_messaging_request, interpret_send_ack, MessagingState, PairLink};
use dafs::models::{ChatRoom, EncryptedMessage, MessageType};
use dafs::peer::P2PMessage;

fn message(id: &str, sender: &str, recipient: &str) -> EncryptedMessage {
    EncryptedMessage {
        id: id.to_string(),
        sender_id: sender.to_string(),
        recipient_id: recipient.to_string(),
        encrypted_content: vec![1, 2, 3],
        timestamp: 1000,
        message_type: MessageType::Text,
        signature: None,
        device_id: "dev".to_string(),
    }
}

#[test]
fn per_pair_fifo() {
    let mut link = PairLink::new();
    link.send(message("m1", "alice", "bob"));
    link.send(message("m2", "alice", "bob"));
    link.send(message("m3", "alice", "bob"));
    let d1 = link.deliver_next().unwrap();
    let d2 = link.deliver_next().unwrap();
    let d3 = link.deliver_next().unwrap();
    assert_eq!(d1.id, "m1");
    assert_eq!(d2.id, "m2");
    assert_eq!(d3.id, "m3");
    assert!(link.deliver_next().is_none());
}

#[test]
fn direct_message_ack() {
    let mut state = MessagingState::new();
    let ack = state.receive_direct_message(message("m9", "alice", "bob"), "bob-dev".to_string(), 42);
    assert_eq!(ack.message_id, "m9");
    assert!(ack.delivered);
    assert_eq!(ack.timestamp, 42);
    assert_eq!(ack.recipient_device_id, "bob-dev");
    assert_eq!(state.messages.len(), 1);
    assert_eq!(state.messages[0].id, "m9");
}

#[test]
fn duplicate_acks_share_the_message_id() {
    let mut state = MessagingState::new();
    let a1 = state.receive_direct_message(message("m1", "a", "b"), "d".to_string(), 1);
    let a2 = state.receive_direct_message(message("m1", "a", "b"), "d".to_string(), 2);
    assert_eq!(a1.message_id, a2.message_id);
}

#[test]
fn rooms_keep_their_creator() {
    let mut state = MessagingState::new();
    let room = ChatRoom::new("lobby".to_string(), vec!["u2".to_string()], "u1".to_string());
    assert!(room.participants.contains(&"u1".to_string()));
    let room_id = room.id.clone();
    state.create_room(room).unwrap();
    state.join_room(room_id.as_str(), "u3").unwrap();
    state.join_room(room_id.as_str(), "u3").unwrap();
    let stored = state.rooms.get(room_id.as_str()).unwrap();
    assert_eq!(
        stored.participants.iter().filter(|p| p.as_str() == "u3").count(),
        1,
    );
    state.leave_room(room_id.as_str(), "u3").unwrap();
    state.leave_room(room_id.as_str(), "u1").unwrap();
    let stored = state.rooms.get(room_id.as_str()).unwrap();
    assert!(!stored.participants.contains(&"u3".to_string()));
    assert!(stored.participants.contains(&"u1".to_string()));
}

#[test]
fn unknown_room_is_not_found() {
    let mut state = MessagingState::new();
    assert_eq!(state.join_room("missing", "u"), Err(DafsError::NotFound));
    assert_eq!(
        state.room_message("missing", message("m", "a", "b"), 5),
        Err(DafsError::NotFound),
    );
}

#[test]
fn room_messages_are_last_writer_wins() {
    let mut state = MessagingState::new();
    let room = ChatRoom::new("r".to_string(), Vec::new(), "u1".to_string());
    let room_id = room.id.clone();
    let created_at = room.last_message_at;
    state.create_room(room).unwrap();
    state.room_message(room_id.as_str(), message("m1", "a", "r"), created_at + 10).unwrap();
    assert_eq!(state.rooms.get(room_id.as_str()).unwrap().last_message_at, created_at + 10);
    state.room_message(room_id.as_str(), message("m2", "a", "r"), created_at + 5).unwrap();
    assert_eq!(state.rooms.get(room_id.as_str()).unwrap().last_message_at, created_at + 10);
    assert_eq!(state.messages.len(), 2);
}

#[test]
fn presence_updates_replace_by_user() {
    let mut state = MessagingState::new();
    state.update_status(dafs::models::UserStatus {
        user_id: "u1".to_string(),
        username: "alice".to_string(),
        online: true,
        last_seen: 7,
        status_message: None,
        current_device: None,
    });
    state.update_status(dafs::models::UserStatus {
        user_id: "u1".to_string(),
        username: "alice".to_string(),
        online: false,
        last_seen: 9,
        status_message: Some("away".to_string()),
        current_device: None,
    });
    let s = state.statuses.get("u1").unwrap();
    assert!(!s.online);
    assert_eq!(s.last_seen, 9);
}

#[test]
fn delivery_is_a_nonempty_ack() {
    assert!(interpret_send_ack(&b"OK".to_vec()));
    assert!(!interpret_send_ack(&Vec::new()));
}

#[test]
fn generated_message_ids_are_fresh() {
    let m1 = EncryptedMessage::new(
        "a".to_string(),
        "b".to_string(),
        vec![1],
        MessageType::Text,
        "dev".to_string(),
    );
    let m2 = EncryptedMessage::new(
        "a".to_string(),
        "b".to_string(),
        vec![1],
        MessageType::Text,
        "dev".to_string(),
    );
    assert!(m1.id.starts_with("msg_"));
    assert_eq!(m1.id.len(), 40);
    assert_ne!(m1.id, m2.id);
    assert_eq!(m1.sender_id, "a");
    assert!(m1.signature.is_none());
}

#[test]
fn messaging_dispatcher_acknowledges_and_persists() {
    let mut state = MessagingState::new();
    let direct = P2PMessage::EncryptedDirectMessage { message: message("m77", "alice", "bob") };
    match handle_messaging_request(&mut state, &direct, "bob-dev".to_string(), 500) {
        Some(P2PMessage::DeliveryAck { ack }) => {
            assert_eq!(ack.message_id, "m77");
            assert!(ack.delivered);
            assert_eq!(ack.timestamp, 500);
            assert_eq!(ack.recipient_device_id, "bob-dev");
        },
        _ => panic!("expected an acknowledgement"),
    }
    assert_eq!(state.messages.len(), 1);

    let room = ChatRoom::new("lobby".to_string(), Vec::new(), "u1".to_string());
    let room_id = room.id.clone();
    let create = P2PMessage::ChatRoomCreate { room };
    assert!(handle_messaging_request(&mut state, &create, "d".to_string(), 501).is_none());
    assert!(state.rooms.get(room_id.as_str()).is_some());

    let join = P2PMessage::ChatRoomJoin { room_id: room_id.clone(), username: "u9".to_string() };
    assert!(handle_messaging_request(&mut state, &join, "d".to_string(), 502).is_none());
    assert!(state.rooms.get(room_id.as_str()).unwrap().participants.contains(&"u9".to_string()));

    let room_msg = P2PMessage::ChatRoomMessage {
        room_id: room_id.clone(),
        message: message("m78", "u9", room_id.as_str()),
    };
    assert!(handle_messaging_request(&mut state, &room_msg, "d".to_string(), 503).is_none());
    assert_eq!(state.messages.len(), 2);
}
