//! The messaging subsystem: the local message log, chat rooms, presence and
//! delivery acknowledgements, and the per-pair first-in-first-out link.

use vstd::prelude::*;
use crate::errors::DafsError;
use crate::models::{clone_bytes, clone_opt_bytes, ChatRoom, EncryptedMessage, MessageAck,
    UserStatus};
use crate::util::{seq_has_string, str_eq, vec_contains_string, StringMap};

verus! {

/// Two message records with the same contents.
pub open spec fn message_like(a: EncryptedMessage, b: EncryptedMessage) -> bool {
    &&& a.id == b.id
    &&& a.sender_id == b.sender_id
    &&& a.recipient_id == b.recipient_id
    &&& a.encrypted_content@ == b.encrypted_content@
    &&& a.timestamp == b.timestamp
    &&& a.message_type == b.message_type
    &&& a.signature.deep_view() == b.signature.deep_view()
    &&& a.device_id == b.device_id
}

/// A faithful copy of a message, with the same contents.
pub fn clone_message(m: &EncryptedMessage) -> (r: EncryptedMessage)
    ensures
        message_like(r, *m),
{
    EncryptedMessage {
        id: m.id.clone(),
        sender_id: m.sender_id.clone(),
        recipient_id: m.recipient_id.clone(),
        encrypted_content: clone_bytes(&m.encrypted_content),
        timestamp: m.timestamp,
        message_type: m.message_type,
        signature: clone_opt_bytes(&m.signature),
        device_id: m.device_id.clone(),
    }
}

/// The local messaging state: an append-only message log, the room table
/// keyed by room id, and the presence table keyed by user id.
pub struct MessagingState {
    pub messages: Vec<EncryptedMessage>,
    pub rooms: StringMap<ChatRoom>,
    pub statuses: StringMap<UserStatus>,
}

impl MessagingState {
    pub open spec fn wf(&self) -> bool {
        &&& self.rooms.wf()
        &&& self.statuses.wf()
        &&& forall|k: Seq<char>|
            #[trigger] self.rooms@.contains_key(k) ==> self.rooms@[k].id@ == k
            && seq_has_string(self.rooms@[k].participants@, self.rooms@[k].created_by@)
        &&& forall|k: Seq<char>|
            #[trigger] self.statuses@.contains_key(k) ==> self.statuses@[k].user_id@ == k
    }

    pub fn new() -> (r: MessagingState)
        ensures
            r.wf(),
            r.messages@.len() == 0,
            r.rooms@ == Map::<Seq<char>, ChatRoom>::empty(),
            r.statuses@ == Map::<Seq<char>, UserStatus>::empty(),
    {
        MessagingState { messages: Vec::new(), rooms: StringMap::new(), statuses: StringMap::new() }
    }

    /// Receives a direct message: appends it to the local log and returns
    /// the acknowledgement carrying the message id, the receiving device and
    /// the receipt time.
    pub fn receive_direct_message(
        &mut self,
        message: EncryptedMessage,
        recipient_device_id: String,
        now: u64,
    ) -> (r: MessageAck)
        requires
            old(self).wf(),
        ensures
            final(self).wf(),
            final(self).messages@.len() == old(self).messages@.len() + 1,
            message_like(final(self).messages@.last(), message),
            final(self).messages@.take(old(self).messages@.len() as int) == old(self).messages@,
            final(self).rooms@ == old(self).rooms@,
            final(self).statuses@ == old(self).statuses@,
            r.message_id == message.id,
            r.delivered,
            r.timestamp == now,
            r.recipient_device_id == recipient_device_id,
    {
        let ack = MessageAck {
            message_id: message.id.clone(),
            delivered: true,
            timestamp: now,
            recipient_device_id,
        };
        self.messages.push(message);
        proof {
            assert(self.messages@.take(old(self).messages@.len() as int) =~= old(self).messages@);
        }
        ack
    }

    /// Stores a room, keyed by its id; an existing room with the same id is
    /// replaced.
    pub fn create_room(&mut self, room: ChatRoom) -> (r: Result<(), DafsError>)
        requires
            old(self).wf(),
            seq_has_string(room.participants@, room.created_by@),
        ensures
            final(self).wf(),
            r is Ok,
            final(self).rooms@ == old(self).rooms@.insert(room.id@, room),
            final(self).messages@ == old(self).messages@,
            final(self).statuses@ == old(self).statuses@,
    {
        let key = room.id.clone();
        self.rooms.insert(key, room);
        Ok(())
    }

    /// Adds a user to a room's participants; joining again is a no-op.
    pub fn join_room(&mut self, room_id: &str, user_id: &str) -> (r: Result<(), DafsError>)
        requires
            old(self).wf(),
        ensures
            final(self).wf(),
            final(self).messages@ == old(self).messages@,
            final(self).statuses@ == old(self).statuses@,
            !old(self).rooms@.contains_key(room_id@) ==> r == Err::<(), DafsError>(
                DafsError::NotFound,
            ) && *final(self) == *old(self),
            old(self).rooms@.contains_key(room_id@) ==> r is Ok && {
                let r0 = old(self).rooms@[room_id@];
                let r1 = final(self).rooms@[room_id@];
                &&& final(self).rooms@.contains_key(room_id@)
                &&& final(self).rooms@.remove(room_id@) == old(self).rooms@.remove(room_id@)
                &&& seq_has_string(r1.participants@, user_id@)
                &&& (seq_has_string(r0.participants@, user_id@) ==> r1.participants@
                    == r0.participants@)
                &&& (!seq_has_string(r0.participants@, user_id@) ==> r1.participants@.len()
                    == r0.participants@.len() + 1 && r1.participants@.take(
                    r0.participants@.len() as int,
                ) == r0.participants@ && r1.participants@.last()@ == user_id@)
                &&& r1.id == r0.id
                &&& r1.name == r0.name
                &&& r1.created_at == r0.created_at
                &&& r1.last_message_at == r0.last_message_at
                &&& r1.created_by == r0.created_by
                &&& r1.is_private == r0.is_private
            },
    {
        let updated = match self.rooms.get(room_id) {
            Some(room) => {
                if vec_contains_string(&room.participants, user_id) {
                    let r = clone_room(room);
                    r
                } else {
                    let mut r = clone_room(room);
                    r.participants.push(user_id.to_owned());
                    proof {
                        assert(r.participants@.take(room.participants@.len() as int)
                            =~= room.participants@);
                        assert(r.participants@.last()@ == user_id@);
                    }
                    r
                }
            },
            None => {
                return Err(DafsError::NotFound);
            },
        };
        proof {
            assert(seq_has_string(updated.participants@, updated.created_by@)) by {
                let i = choose|i: int|
                    0 <= i < old(self).rooms@[room_id@].participants@.len() && old(
                        self,
                    ).rooms@[room_id@].participants@[i]@ == old(self).rooms@[room_id@].created_by@;
                assert(updated.participants@[i]@ == updated.created_by@);
            }
        }
        self.rooms.insert(room_id.to_owned(), updated);
        proof {
            assert(final(self).rooms@.remove(room_id@) =~= old(self).rooms@.remove(room_id@));
        }
        Ok(())
    }

    /// Removes a user from a room's participants; the creator stays.
    pub fn leave_room(&mut self, room_id: &str, user_id: &str) -> (r: Result<(), DafsError>)
        requires
            old(self).wf(),
        ensures
            final(self).wf(),
            final(self).messages@ == old(self).messages@,
            final(self).statuses@ == old(self).statuses@,
            !old(self).rooms@.contains_key(room_id@) ==> r == Err::<(), DafsError>(
                DafsError::NotFound,
            ) && *final(self) == *old(self),
            old(self).rooms@.contains_key(room_id@) && old(self).rooms@[room_id@].created_by@
                == user_id@ ==> r is Ok && *final(self) == *old(self),
            old(self).rooms@.contains_key(room_id@) && old(self).rooms@[room_id@].created_by@
                != user_id@ ==> r is Ok && {
                let r0 = old(self).rooms@[room_id@];
                let r1 = final(self).rooms@[room_id@];
                &&& final(self).rooms@.contains_key(room_id@)
                &&& final(self).rooms@.remove(room_id@) == old(self).rooms@.remove(room_id@)
                &&& r1.participants@ == r0.participants@.filter(
                    |p: String| p@ != user_id@,
                )
                &&& r1.created_by == r0.created_by
                &&& r1.id == r0.id
            },
    {
        let updated = match self.rooms.get(room_id) {
            Some(room) => {
                if str_eq(room.created_by.as_str(), user_id) {
                    return Ok(());
                }
                let mut r = clone_room(room);
                let mut kept: Vec<String> = Vec::new();
                let n = r.participants.len();
                let ghost pred = |p: String| p@ != user_id@;
                proof {
                    reveal(Seq::filter);
                    assert(r.participants@.take(0int) =~= Seq::<String>::empty());
                }
                for i in 0..n
                    invariant
                        n == r.participants@.len(),
                        r.participants@ == room.participants@,
                        pred == (|p: String| p@ != user_id@),
                        kept@ == r.participants@.take(i as int).filter(pred),
                {
                    proof {
                        reveal(Seq::filter);
                        assert(r.participants@.take(i + 1).drop_last() =~= r.participants@.take(
                            i as int,
                        ));
                        assert(r.participants@.take(i + 1).last() == r.participants@[i as int]);
                    }
                    if !str_eq(r.participants[i].as_str(), user_id) {
                        kept.push(r.participants[i].clone());
                    }
                }
                proof {
                    assert(r.participants@.take(n as int) =~= r.participants@);
                }
                r.participants = kept;
                r
            },
            None => {
                return Err(DafsError::NotFound);
            },
        };
        proof {
            assert(seq_has_string(updated.participants@, updated.created_by@)) by {
                let r0 = old(self).rooms@[room_id@];
                let i = choose|i: int|
                    0 <= i < r0.participants@.len() && r0.participants@[i]@ == r0.created_by@;
                reveal(Seq::filter);
                r0.participants@.lemma_filter_contains(|p: String| p@ != user_id@, i);
                let fp = r0.participants@.filter(|p: String| p@ != user_id@);
                let j = choose|j: int| 0 <= j < fp.len() && fp[j] == r0.participants@[i];
                assert(updated.participants@[j]@ == updated.created_by@);
            }
        }
        self.rooms.insert(room_id.to_owned(), updated);
        proof {
            assert(final(self).rooms@.remove(room_id@) =~= old(self).rooms@.remove(room_id@));
        }
        Ok(())
    }

    /// Appends a room message to the log and advances the room's
    /// last-message time when the new time is later (last writer wins).
    pub fn room_message(&mut self, room_id: &str, message: EncryptedMessage, now: u64) -> (r:
        Result<(), DafsError>)
        requires
            old(self).wf(),
        ensures
            final(self).wf(),
            final(self).statuses@ == old(self).statuses@,
            !old(self).rooms@.contains_key(room_id@) ==> r == Err::<(), DafsError>(
                DafsError::NotFound,
            ) && *final(self) == *old(self),
            old(self).rooms@.contains_key(room_id@) ==> r is Ok && {
                let r0 = old(self).rooms@[room_id@];
                let r1 = final(self).rooms@[room_id@];
                &&& final(self).messages@.len() == old(self).messages@.len() + 1
                &&& message_like(final(self).messages@.last(), message)
                &&& final(self).messages@.take(old(self).messages@.len() as int) == old(
                    self,
                ).messages@
                &&& final(self).rooms@.remove(room_id@) == old(self).rooms@.remove(room_id@)
                &&& r1.last_message_at == (if now > r0.last_message_at {
                    now
                } else {
                    r0.last_message_at
                })
                &&& r1.participants@ == r0.participants@
                &&& r1.created_by == r0.created_by
                &&& r1.id == r0.id
            },
    {
        let updated = match self.rooms.get(room_id) {
            Some(room) => {
                let mut r = clone_room(room);
                if now > r.last_message_at {
                    r.last_message_at = now;
                }
                r
            },
            None => {
                return Err(DafsError::NotFound);
            },
        };
        proof {
            assert(seq_has_string(updated.participants@, updated.created_by@)) by {
                let r0 = old(self).rooms@[room_id@];
                let i = choose|i: int|
                    0 <= i < r0.participants@.len() && r0.participants@[i]@ == r0.created_by@;
                assert(updated.participants@[i]@ == updated.created_by@);
            }
        }
        self.rooms.insert(room_id.to_owned(), updated);
        self.messages.push(message);
        proof {
            assert(final(self).rooms@.remove(room_id@) =~= old(self).rooms@.remove(room_id@));
            assert(final(self).messages@.take(old(self).messages@.len() as int) =~= old(
                self,
            ).messages@);
        }
        Ok(())
    }

    /// Records a presence update, keyed by the user's id.
    pub fn update_status(&mut self, status: UserStatus)
        requires
            old(self).wf(),
        ensures
            final(self).wf(),
            final(self).messages@ == old(self).messages@,
            final(self).rooms@ == old(self).rooms@,
            final(self).statuses@ == old(self).statuses@.insert(status.user_id@, status),
    {
        let key = status.user_id.clone();
        self.statuses.insert(key, status);
    }
}

/// A faithful copy of a room record.
pub fn clone_room(r: &ChatRoom) -> (c: ChatRoom)
    ensures
        c.id == r.id,
        c.name == r.name,
        c.participants@ == r.participants@,
        c.created_at == r.created_at,
        c.last_message_at == r.last_message_at,
        c.created_by == r.created_by,
        c.is_private == r.is_private,
{
    ChatRoom {
        id: r.id.clone(),
        name: r.name.clone(),
        participants: crate::registry::clone_strings(&r.participants),
        created_at: r.created_at,
        last_message_at: r.last_message_at,
        created_by: r.created_by.clone(),
        is_private: r.is_private,
    }
}

/// Whether the remote acknowledged delivery: a non-empty response within the
/// protocol window counts as delivered.
pub fn interpret_send_ack(response: &Vec<u8>) -> (r: bool)
    ensures
        r == (response@.len() > 0),
{
    response.len() > 0
}

/// One direction of a connected session between a sender and a recipient:
/// messages are queued in send order and handed over from the front.
pub struct PairLink {
    pub sent: Vec<EncryptedMessage>,
    pub delivered: usize,
}

impl PairLink {
    pub open spec fn wf(&self) -> bool {
        self.delivered <= self.sent@.len()
    }

    pub fn new() -> (r: PairLink)
        ensures
            r.wf(),
            r.sent@.len() == 0,
            r.delivered == 0,
    {
        PairLink { sent: Vec::new(), delivered: 0 }
    }

    /// Queues one message after everything already sent.
    pub fn send(&mut self, message: EncryptedMessage)
        requires
            old(self).wf(),
        ensures
            final(self).wf(),
            final(self).sent@ == old(self).sent@.push(message),
            final(self).delivered == old(self).delivered,
    {
        self.sent.push(message);
    }

    /// Delivers the next message: always the earliest sent and not yet
    /// delivered one, so deliveries happen in send order.
    pub fn deliver_next(&mut self) -> (r: Option<EncryptedMessage>)
        requires
            old(self).wf(),
        ensures
            final(self).wf(),
            final(self).sent@ == old(self).sent@,
            old(self).delivered < old(self).sent@.len() ==> (r matches Some(m) && message_like(
                m,
                old(self).sent@[old(self).delivered as int],
            ) && final(self).delivered == old(self).delivered + 1),
            old(self).delivered == old(self).sent@.len() ==> r is None && *final(self) == *old(
                self,
            ),
    {
        if self.delivered < self.sent.len() {
            let m = clone_message(&self.sent[self.delivered]);
            self.delivered = self.delivered + 1;
            Some(m)
        } else {
            None
        }
    }
}

/// Law: on a single link, messages are delivered in send order: after any
/// run of deliveries, the messages handed over are exactly the first
/// `delivered` sent messages, in the order they were sent.
pub proof fn lemma_per_pair_fifo(link: &PairLink, i: int, j: int)
    requires
        link.wf(),
        0 <= i < j < link.delivered,
    ensures
        link.sent@.take(link.delivered as int)[i] == link.sent@[i],
        link.sent@.take(link.delivered as int)[j] == link.sent@[j],
{
}

} // verus!

verus! {

/// Answers one decoded messaging-protocol request, as the responder's match
/// does: a direct message is appended to the log and acknowledged; a room
/// create, join or message updates the room table when it applies; a
/// presence update replaces the sender's status. Only the direct message
/// gets a payload reply; for everything else the adapter answers with its
/// plain acknowledgement bytes.
pub fn handle_messaging_request(
    state: &mut MessagingState,
    msg: &crate::peer::P2PMessage,
    recipient_device_id: String,
    now: u64,
) -> (r: Option<crate::peer::P2PMessage>)
    requires
        old(state).wf(),
    ensures
        final(state).wf(),
        msg matches crate::peer::P2PMessage::EncryptedDirectMessage { ref message } ==> {
            &&& final(state).messages@.len() == old(state).messages@.len() + 1
            &&& message_like(final(state).messages@.last(), *message)
            &&& final(state).messages@.take(old(state).messages@.len() as int) == old(
                state,
            ).messages@
            &&& final(state).rooms@ == old(state).rooms@
            &&& final(state).statuses@ == old(state).statuses@
            &&& (r matches Some(reply) && reply matches crate::peer::P2PMessage::DeliveryAck {
                ref ack,
            } && ack.message_id@ == message.id@ && ack.delivered && ack.timestamp == now
                && ack.recipient_device_id == recipient_device_id)
        },
        msg matches crate::peer::P2PMessage::ChatRoomCreate { ref room } ==> {
            &&& r is None
            &&& final(state).messages@ == old(state).messages@
            &&& final(state).statuses@ == old(state).statuses@
            &&& (crate::util::seq_has_string(room.participants@, room.created_by@) ==> {
                &&& final(state).rooms@.contains_key(room.id@)
                &&& final(state).rooms@.remove(room.id@) == old(state).rooms@.remove(room.id@)
                &&& final(state).rooms@[room.id@].participants@ == room.participants@
                &&& final(state).rooms@[room.id@].created_by@ == room.created_by@
            })
            &&& (!crate::util::seq_has_string(room.participants@, room.created_by@)
                ==> final(state).rooms@ == old(state).rooms@)
        },
        msg matches crate::peer::P2PMessage::ChatRoomJoin { ref room_id, ref username } ==> {
            &&& r is None
            &&& final(state).messages@ == old(state).messages@
            &&& final(state).statuses@ == old(state).statuses@
            &&& (old(state).rooms@.contains_key(room_id@) ==> crate::util::seq_has_string(
                final(state).rooms@[room_id@].participants@,
                username@,
            ))
            &&& (!old(state).rooms@.contains_key(room_id@) ==> *final(state) == *old(state))
        },
        msg matches crate::peer::P2PMessage::ChatRoomMessage { ref room_id, ref message } ==> {
            &&& r is None
            &&& final(state).statuses@ == old(state).statuses@
            &&& (old(state).rooms@.contains_key(room_id@)
                ==> final(state).messages@.len() == old(state).messages@.len() + 1
                && message_like(final(state).messages@.last(), *message))
            &&& (!old(state).rooms@.contains_key(room_id@) ==> *final(state) == *old(state))
        },
        msg matches crate::peer::P2PMessage::PresenceUpdate { ref status } ==> {
            &&& r is None
            &&& final(state).messages@ == old(state).messages@
            &&& final(state).rooms@ == old(state).rooms@
            &&& final(state).statuses@.contains_key(status.user_id@)
            &&& final(state).statuses@.remove(status.user_id@) == old(state).statuses@.remove(
                status.user_id@,
            )
        },
        !(msg is EncryptedDirectMessage) && !(msg is ChatRoomCreate) && !(msg is ChatRoomJoin)
            && !(msg is ChatRoomMessage) && !(msg is PresenceUpdate) ==> r is None
            && *final(state) == *old(state),
{
    match msg {
        crate::peer::P2PMessage::EncryptedDirectMessage { message } => {
            let copy = clone_message(message);
            let ack = state.receive_direct_message(copy, recipient_device_id, now);
            proof {
                assert(ack.message_id@ == message.id@);
            }
            Some(crate::peer::P2PMessage::DeliveryAck { ack })
        },
        crate::peer::P2PMessage::ChatRoomCreate { room } => {
            if vec_contains_string(&room.participants, room.created_by.as_str()) {
                let copy = clone_room(room);
                proof {
                    assert(seq_has_string(copy.participants@, copy.created_by@)) by {
                        let i = choose|i: int|
                            0 <= i < room.participants@.len() && room.participants@[i]@
                                == room.created_by@;
                        assert(copy.participants@[i]@ == copy.created_by@);
                    }
                }
                let _ = state.create_room(copy);
                proof {
                    assert(final(state).rooms@.remove(room.id@) =~= old(state).rooms@.remove(
                        room.id@,
                    ));
                }
            }
            None
        },
        crate::peer::P2PMessage::ChatRoomJoin { room_id, username } => {
            let _ = state.join_room(room_id.as_str(), username.as_str());
            None
        },
        crate::peer::P2PMessage::ChatRoomMessage { room_id, message } => {
            let copy = clone_message(message);
            match state.room_message(room_id.as_str(), copy, now) {
                Ok(()) => {},
                Err(_) => {},
            }
            None
        },
        crate::peer::P2PMessage::PresenceUpdate { status } => {
            let copy = UserStatus {
                user_id: status.user_id.clone(),
                username: status.username.clone(),
                online: status.online,
                last_seen: status.last_seen,
                status_message: crate::models::clone_opt_string(&status.status_message),
                current_device: crate::models::clone_opt_string(&status.current_device),
            };
            state.update_status(copy);
            proof {
                assert(final(state).statuses@.remove(status.user_id@) =~= old(
                    state,
                ).statuses@.remove(status.user_id@));
            }
            None
        },
        _ => None,
    }
}

} // verus!
