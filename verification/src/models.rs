//! The data model: users, devices, sessions, messages, rooms and presence.

use vstd::prelude::*;
use crate::host::{fresh_uuid, now_secs};
use crate::util::{seq_has_string, vec_contains_string};

verus! {

/// A minimal account record: a name bound to a long-lived public key.
#[derive(Clone, Debug)]
pub struct User {
    pub username: String,
    pub public_key: [u8; 32],
}

#[derive(Clone, Copy, Debug, PartialEq, Eq, Structural)]
pub enum DeviceType {
    Desktop,
    Laptop,
    Mobile,
    Tablet,
    Server,
    Unknown,
}

#[derive(Clone, Debug)]
pub struct UserDevice {
    pub device_id: String,
    pub device_name: String,
    pub device_type: DeviceType,
    pub last_login: u64,
    pub is_current: bool,
    pub ip_address: Option<String>,
    pub user_agent: Option<String>,
}

#[derive(Clone, Debug)]
pub struct UserIdentity {
    pub user_id: String,
    pub username: String,
    pub display_name: String,
    pub email: Option<String>,
    pub created_at: u64,
    pub last_seen: u64,
    pub devices: Vec<UserDevice>,
    pub public_key: [u8; 32],
    pub is_active: bool,
}

#[derive(Clone, Copy, Debug, PartialEq, Eq, Structural)]
pub enum MessageType {
    Text,
    File,
    Image,
    Voice,
    System,
}

#[derive(Clone, Debug)]
pub struct EncryptedMessage {
    pub id: String,
    pub sender_id: String,
    pub recipient_id: String,
    pub encrypted_content: Vec<u8>,
    pub timestamp: u64,
    pub message_type: MessageType,
    pub signature: Option<Vec<u8>>,
    pub device_id: String,
}

#[derive(Clone, Debug)]
pub struct ChatRoom {
    pub id: String,
    pub name: String,
    pub participants: Vec<String>,
    pub created_at: u64,
    pub last_message_at: u64,
    pub created_by: String,
    pub is_private: bool,
}

#[derive(Clone, Debug)]
pub struct UserStatus {
    pub user_id: String,
    pub username: String,
    pub online: bool,
    pub last_seen: u64,
    pub status_message: Option<String>,
    pub current_device: Option<String>,
}

#[derive(Clone, Debug)]
pub struct MessageAck {
    pub message_id: String,
    pub delivered: bool,
    pub timestamp: u64,
    pub recipient_device_id: String,
}

#[derive(Clone, Debug)]
pub struct UserSession {
    pub session_id: String,
    pub user_id: String,
    pub device_id: String,
    pub created_at: u64,
    pub expires_at: u64,
    pub is_active: bool,
}

/// At most one device in the list is marked current.
pub open spec fn at_most_one_current(devices: Seq<UserDevice>) -> bool {
    forall|i: int, j: int|
        0 <= i < devices.len() && 0 <= j < devices.len() && i != j ==> !(devices[i].is_current
            && devices[j].is_current)
}

impl UserIdentity {
    /// Everything except `last_seen` and `devices` agrees with `other`.
    pub open spec fn same_account(&self, other: &UserIdentity) -> bool {
        &&& self.user_id == other.user_id
        &&& self.username == other.username
        &&& self.display_name == other.display_name
        &&& self.email == other.email
        &&& self.created_at == other.created_at
        &&& self.public_key == other.public_key
        &&& self.is_active == other.is_active
    }

    pub fn new(username: String, display_name: String, email: Option<String>) -> (r: UserIdentity)
        ensures
            r.user_id@.len() == 36,
            r.username == username,
            r.display_name == display_name,
            r.email == email,
            r.created_at == r.last_seen,
            r.devices@.len() == 0,
            forall|i: int| 0 <= i < 32 ==> r.public_key@[i] == 0,
            r.is_active,
            at_most_one_current(r.devices@),
    {
        let now = now_secs();
        UserIdentity {
            user_id: fresh_uuid(),
            username,
            display_name,
            email,
            created_at: now,
            last_seen: now,
            devices: Vec::new(),
            public_key: [0u8; 32],
            is_active: true,
        }
    }

    /// Marks every existing device as not current and appends the new device.
    pub fn add_device(&mut self, device: UserDevice)
        ensures
            final(self).devices@.len() == old(self).devices@.len() + 1,
            final(self).devices@.last() == device,
            forall|i: int|
                0 <= i < old(self).devices@.len() ==> {
                    &&& !(#[trigger] final(self).devices@[i]).is_current
                    &&& final(self).devices@[i].device_id == old(self).devices@[i].device_id
                    &&& final(self).devices@[i].device_name == old(self).devices@[i].device_name
                    &&& final(self).devices@[i].device_type == old(self).devices@[i].device_type
                    &&& final(self).devices@[i].last_login == old(self).devices@[i].last_login
                    &&& final(self).devices@[i].ip_address == old(self).devices@[i].ip_address
                    &&& final(self).devices@[i].user_agent == old(self).devices@[i].user_agent
                },
            final(self).same_account(old(self)),
            device.is_current ==> at_most_one_current(final(self).devices@),
    {
        let n = self.devices.len();
        for i in 0..n
            invariant
                n == self.devices@.len(),
                self.same_account(old(self)),
                self.last_seen == old(self).last_seen,
                forall|j: int| i <= j < n ==> self.devices@[j] == old(self).devices@[j],
                forall|j: int|
                    0 <= j < i ==> {
                        &&& !(#[trigger] self.devices@[j]).is_current
                        &&& self.devices@[j].device_id == old(self).devices@[j].device_id
                        &&& self.devices@[j].device_name == old(self).devices@[j].device_name
                        &&& self.devices@[j].device_type == old(self).devices@[j].device_type
                        &&& self.devices@[j].last_login == old(self).devices@[j].last_login
                        &&& self.devices@[j].ip_address == old(self).devices@[j].ip_address
                        &&& self.devices@[j].user_agent == old(self).devices@[j].user_agent
                    },
        {
            self.devices[i].is_current = false;
        }
        self.devices.push(device);
        self.last_seen = now_secs();
    }

    /// Removes every device with the given identifier, keeping the others in order.
    pub fn remove_device(&mut self, device_id: &str)
        ensures
            final(self).devices@ == old(self).devices@.filter(
                |d: UserDevice| d.device_id@ != device_id@,
            ),
            final(self).same_account(old(self)),
            final(self).last_seen == old(self).last_seen,
    {
        let ghost pred = |d: UserDevice| d.device_id@ != device_id@;
        let mut kept: Vec<UserDevice> = Vec::new();
        let n = self.devices.len();
        proof {
            assert(self.devices@.take(0int) =~= Seq::<UserDevice>::empty());
            reveal(Seq::filter);
        }
        for i in 0..n
            invariant
                n == self.devices@.len(),
                self.devices@ == old(self).devices@,
                kept@ == self.devices@.take(i as int).filter(pred),
                pred == (|d: UserDevice| d.device_id@ != device_id@),
        {
            let d = &self.devices[i];
            let keep = !crate::util::str_eq(d.device_id.as_str(), device_id);
            proof {
                reveal(Seq::filter);
                assert(self.devices@.take(i + 1).drop_last() =~= self.devices@.take(i as int));
                assert(self.devices@.take(i + 1).last() == self.devices@[i as int]);
            }
            if keep {
                let copy = UserDevice {
                    device_id: d.device_id.clone(),
                    device_name: d.device_name.clone(),
                    device_type: d.device_type,
                    last_login: d.last_login,
                    is_current: d.is_current,
                    ip_address: clone_opt_string(&d.ip_address),
                    user_agent: clone_opt_string(&d.user_agent),
                };
                assert(copy == self.devices@[i as int]);
                kept.push(copy);
            }
        }
        proof {
            assert(self.devices@.take(n as int) =~= self.devices@);
        }
        self.devices = kept;
    }

    /// The device currently marked as the one in use, if any.
    pub fn get_current_device(&self) -> (r: Option<&UserDevice>)
        ensures
            match r {
                Some(d) => exists|i: int|
                    0 <= i < self.devices@.len() && self.devices@[i] == *d && d.is_current,
                None => forall|i: int|
                    0 <= i < self.devices@.len() ==> !(#[trigger] self.devices@[i]).is_current,
            },
    {
        let n = self.devices.len();
        for i in 0..n
            invariant
                n == self.devices@.len(),
                forall|j: int| 0 <= j < i ==> !(#[trigger] self.devices@[j]).is_current,
        {
            if self.devices[i].is_current {
                return Some(&self.devices[i]);
            }
        }
        None
    }

    /// Refreshes the activity timestamp; every other field is unchanged.
    pub fn update_last_seen(&mut self)
        ensures
            final(self).same_account(old(self)),
            final(self).devices@ == old(self).devices@,
    {
        self.last_seen = now_secs();
    }
}

/// A clone of an optional string, equal to the original.
pub fn clone_opt_string(o: &Option<String>) -> (r: Option<String>)
    ensures
        r == *o,
{
    match o {
        Some(s) => Some(s.clone()),
        None => None,
    }
}

/// A copy of a byte vector, element for element.
pub fn clone_bytes(v: &Vec<u8>) -> (r: Vec<u8>)
    ensures
        r@ == v@,
{
    let mut r: Vec<u8> = Vec::new();
    let n = v.len();
    for i in 0..n
        invariant
            n == v@.len(),
            r@ == v@.take(i as int),
    {
        r.push(v[i]);
        proof {
            assert(v@.take(i + 1) =~= v@.take(i as int).push(v@[i as int]));
        }
    }
    proof {
        assert(v@.take(n as int) =~= v@);
    }
    r
}

/// A clone of an optional byte vector, with the same contents.
pub fn clone_opt_bytes(o: &Option<Vec<u8>>) -> (r: Option<Vec<u8>>)
    ensures
        r.deep_view() == o.deep_view(),
{
    match o {
        Some(v) => Some(clone_bytes(v)),
        None => None,
    }
}

impl UserDevice {
    /// A fresh device record, marked current.
    pub fn new(device_name: String, device_type: DeviceType) -> (r: UserDevice)
        ensures
            r.device_id@.len() == 36,
            r.device_name == device_name,
            r.device_type == device_type,
            r.is_current,
            r.ip_address is None,
            r.user_agent is None,
    {
        UserDevice {
            device_id: fresh_uuid(),
            device_name,
            device_type,
            last_login: now_secs(),
            is_current: true,
            ip_address: None,
            user_agent: None,
        }
    }

    /// Refreshes the login timestamp; every other field is unchanged.
    pub fn update_login(&mut self)
        ensures
            final(self).device_id == old(self).device_id,
            final(self).device_name == old(self).device_name,
            final(self).device_type == old(self).device_type,
            final(self).is_current == old(self).is_current,
            final(self).ip_address == old(self).ip_address,
            final(self).user_agent == old(self).user_agent,
    {
        self.last_login = now_secs();
    }
}

impl EncryptedMessage {
    /// A fresh message stamped with the current time; its identifier is
    /// `msg_` followed by a fresh UUID, so acknowledgements keyed by the
    /// identifier stay idempotent even for messages sent within one second.
    pub fn new(
        sender_id: String,
        recipient_id: String,
        content: Vec<u8>,
        message_type: MessageType,
        device_id: String,
    ) -> (r: EncryptedMessage)
        ensures
            r.id@.len() == 40,
            r.id@.subrange(0, 4) == "msg_"@,
            r.sender_id == sender_id,
            r.recipient_id == recipient_id,
            r.encrypted_content == content,
            r.message_type == message_type,
            r.signature is None,
            r.device_id == device_id,
    {
        let timestamp = now_secs();
        let mut id = String::from_str("msg_");
        proof {
            reveal_strlit("msg_");
        }
        id.append(fresh_uuid().as_str());
        proof {
            assert(id@.subrange(0, 4) =~= "msg_"@);
        }
        EncryptedMessage {
            id,
            sender_id,
            recipient_id,
            encrypted_content: content,
            timestamp,
            message_type,
            signature: None,
            device_id,
        }
    }
}

impl ChatRoom {
    /// A fresh private room; the creator is always among the participants,
    /// and its identifier is `room_` followed by a fresh UUID, so two rooms
    /// created within one second do not collide in the room table.
    pub fn new(name: String, participants: Vec<String>, created_by: String) -> (r: ChatRoom)
        ensures
            r.id@.len() == 41,
            r.id@.subrange(0, 5) == "room_"@,
            r.name == name,
            r.created_by == created_by,
            r.created_at == r.last_message_at,
            r.is_private,
            seq_has_string(r.participants@, created_by@),
            seq_has_string(participants@, created_by@) ==> r.participants@ == participants@,
            !seq_has_string(participants@, created_by@) ==> r.participants@ == participants@.push(
                created_by,
            ),
    {
        let timestamp = now_secs();
        let mut id = String::from_str("room_");
        proof {
            reveal_strlit("room_");
        }
        id.append(fresh_uuid().as_str());
        proof {
            assert(id@.subrange(0, 5) =~= "room_"@);
        }
        let mut all = participants;
        if !vec_contains_string(&all, created_by.as_str()) {
            all.push(created_by.clone());
            assert(all@.last()@ == created_by@);
        }
        ChatRoom {
            id,
            name,
            participants: all,
            created_at: timestamp,
            last_message_at: timestamp,
            created_by,
            is_private: true,
        }
    }
}

} // verus!
