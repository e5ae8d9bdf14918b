//! The identity and session registry: users, devices, sessions and per-device
//! peer memory. The username index is kept a bijection onto the user table.

use vstd::prelude::*;
use crate::errors::DafsError;
use crate::host::now_secs;
use crate::models::{
    clone_opt_string, DeviceType, UserDevice, UserIdentity, UserSession,
};
use crate::text::{spec_dec, u64_to_string};
use crate::util::{seq_has_string, str_eq, vec_contains_string, StringMap};

verus! {

/// How long a session issued at login stays valid, in seconds (30 days).
pub const SESSION_LIFETIME_SECS: u64 = 2592000;

/// What a device remembers of the peers it has talked to.
#[derive(Clone, Debug)]
pub struct DevicePeerMemory {
    pub device_id: String,
    pub known_peers: Vec<String>,
    pub last_peer_scan: u64,
    pub peer_connection_history: Vec<PeerConnection>,
}

/// One connection in a device's append-only history.
#[derive(Clone, Debug)]
pub struct PeerConnection {
    pub peer_id: String,
    pub connected_at: u64,
    pub disconnected_at: Option<u64>,
    pub connection_duration: Option<u64>,
    pub success: bool,
}

/// Once a disconnect time is set, the recorded duration is exactly the
/// difference between the two timestamps.
pub open spec fn connection_wf(c: PeerConnection) -> bool {
    match c.disconnected_at {
        Some(end) => end >= c.connected_at && c.connection_duration == Some(
            (end - c.connected_at) as u64,
        ),
        None => c.connection_duration is None,
    }
}

pub open spec fn memory_wf(m: DevicePeerMemory) -> bool {
    &&& forall|i: int|
        0 <= i < m.peer_connection_history@.len() ==> connection_wf(
            #[trigger] m.peer_connection_history@[i],
        )
    &&& forall|i: int, j: int|
        0 <= i < j < m.known_peers@.len() ==> (#[trigger] m.known_peers@[i])@ != (
        #[trigger] m.known_peers@[j])@
}

/// Two identity records with the same contents, compared through views so a
/// faithful copy counts as the same identity.
pub open spec fn identity_like(a: UserIdentity, b: UserIdentity) -> bool {
    &&& a.user_id == b.user_id
    &&& a.username == b.username
    &&& a.display_name == b.display_name
    &&& a.email == b.email
    &&& a.created_at == b.created_at
    &&& a.last_seen == b.last_seen
    &&& a.devices@ == b.devices@
    &&& a.public_key == b.public_key
    &&& a.is_active == b.is_active
}

/// A faithful copy of a device record, equal to the original.
pub fn clone_device(d: &UserDevice) -> (r: UserDevice)
    ensures
        r == *d,
{
    let r = UserDevice {
        device_id: d.device_id.clone(),
        device_name: d.device_name.clone(),
        device_type: d.device_type,
        last_login: d.last_login,
        is_current: d.is_current,
        ip_address: clone_opt_string(&d.ip_address),
        user_agent: clone_opt_string(&d.user_agent),
    };
    r
}

/// A faithful copy of an identity; the device list is copied element by element.
pub fn clone_identity(u: &UserIdentity) -> (r: UserIdentity)
    ensures
        identity_like(r, *u),
{
    let mut devices: Vec<UserDevice> = Vec::new();
    let n = u.devices.len();
    for i in 0..n
        invariant
            n == u.devices@.len(),
            devices@ == u.devices@.take(i as int),
    {
        devices.push(clone_device(&u.devices[i]));
        proof {
            assert(u.devices@.take(i + 1) =~= u.devices@.take(i as int).push(
                u.devices@[i as int],
            ));
        }
    }
    proof {
        assert(u.devices@.take(n as int) =~= u.devices@);
    }
    UserIdentity {
        user_id: u.user_id.clone(),
        username: u.username.clone(),
        display_name: u.display_name.clone(),
        email: clone_opt_string(&u.email),
        created_at: u.created_at,
        last_seen: u.last_seen,
        devices,
        public_key: u.public_key,
        is_active: u.is_active,
    }
}

/// A faithful copy of a session record, equal to the original.
pub fn clone_session(s: &UserSession) -> (r: UserSession)
    ensures
        r == *s,
{
    UserSession {
        session_id: s.session_id.clone(),
        user_id: s.user_id.clone(),
        device_id: s.device_id.clone(),
        created_at: s.created_at,
        expires_at: s.expires_at,
        is_active: s.is_active,
    }
}

/// A faithful copy of one history entry, equal to the original.
pub fn clone_connection(c: &PeerConnection) -> (r: PeerConnection)
    ensures
        r == *c,
{
    PeerConnection {
        peer_id: c.peer_id.clone(),
        connected_at: c.connected_at,
        disconnected_at: c.disconnected_at,
        connection_duration: c.connection_duration,
        success: c.success,
    }
}

/// A faithful copy of a list of strings, element for element.
pub fn clone_strings(v: &Vec<String>) -> (r: Vec<String>)
    ensures
        r@ == v@,
{
    let mut r: Vec<String> = Vec::new();
    let n = v.len();
    for i in 0..n
        invariant
            n == v@.len(),
            r@ == v@.take(i as int),
    {
        r.push(v[i].clone());
        proof {
            assert(v@.take(i + 1) =~= v@.take(i as int).push(v@[i as int]));
        }
    }
    proof {
        assert(v@.take(n as int) =~= v@);
    }
    r
}

/// A faithful copy of a connection history, element for element.
pub fn clone_connections(v: &Vec<PeerConnection>) -> (r: Vec<PeerConnection>)
    ensures
        r@ == v@,
{
    let mut r: Vec<PeerConnection> = Vec::new();
    let n = v.len();
    for i in 0..n
        invariant
            n == v@.len(),
            r@ == v@.take(i as int),
    {
        r.push(clone_connection(&v[i]));
        proof {
            assert(v@.take(i + 1) =~= v@.take(i as int).push(v@[i as int]));
        }
    }
    proof {
        assert(v@.take(n as int) =~= v@);
    }
    r
}

/// The in-memory registry. Persistence of its records is the caller's side
/// channel: every mutating operation returns with the in-memory state already
/// consistent.
pub struct UserRegistry {
    pub users: StringMap<UserIdentity>,
    pub username_to_user_id: StringMap<String>,
    pub sessions: StringMap<UserSession>,
    pub device_sessions: StringMap<String>,
    pub device_peer_memory: StringMap<DevicePeerMemory>,
}

impl UserRegistry {
    /// Consistency of the registry: the username index is a bijection onto
    /// the user table, sessions agree with the device index, and every
    /// history entry is well formed.
    pub open spec fn wf(&self) -> bool {
        &&& self.users.wf()
        &&& self.username_to_user_id.wf()
        &&& self.sessions.wf()
        &&& self.device_sessions.wf()
        &&& self.device_peer_memory.wf()
        &&& forall|id: Seq<char>|
            self.users@.contains_key(id) ==> (#[trigger] self.users@[id]).user_id@ == id
        &&& forall|name: Seq<char>|
            self.username_to_user_id@.contains_key(name) ==> {
                let id = (#[trigger] self.username_to_user_id@[name])@;
                self.users@.contains_key(id) && self.users@[id].username@ == name
            }
        &&& forall|id: Seq<char>|
            self.users@.contains_key(id) ==> {
                let name = (#[trigger] self.users@[id]).username@;
                self.username_to_user_id@.contains_key(name) && self.username_to_user_id@[name]@
                    == id
            }
        &&& forall|sid: Seq<char>|
            self.sessions@.contains_key(sid) ==> (#[trigger] self.sessions@[sid]).session_id@
                == sid
        &&& forall|dev: Seq<char>|
            self.device_sessions@.contains_key(dev) ==> {
                let sid = (#[trigger] self.device_sessions@[dev])@;
                self.sessions@.contains_key(sid) && self.sessions@[sid].device_id@ == dev
            }
        &&& forall|dev: Seq<char>|
            self.device_peer_memory@.contains_key(dev) ==> memory_wf(
                #[trigger] self.device_peer_memory@[dev],
            ) && self.device_peer_memory@[dev].device_id@ == dev
    }

    pub fn new() -> (r: UserRegistry)
        ensures
            r.wf(),
            r.users@ == Map::<Seq<char>, UserIdentity>::empty(),
            r.username_to_user_id@ == Map::<Seq<char>, String>::empty(),
            r.sessions@ == Map::<Seq<char>, UserSession>::empty(),
            r.device_sessions@ == Map::<Seq<char>, String>::empty(),
            r.device_peer_memory@ == Map::<Seq<char>, DevicePeerMemory>::empty(),
    {
        UserRegistry {
            users: StringMap::new(),
            username_to_user_id: StringMap::new(),
            sessions: StringMap::new(),
            device_sessions: StringMap::new(),
            device_peer_memory: StringMap::new(),
        }
    }

    /// Registers a new user. If the requested username is taken, a decimal
    /// suffix is appended: the first of `name1`, `name2`, ... that is free.
    pub fn register_user(
        &mut self,
        username: String,
        display_name: String,
        email: Option<String>,
    ) -> (r: Result<UserIdentity, DafsError>)
        requires
            old(self).wf(),
        ensures
            final(self).wf(),
            match r {
                Ok(u) => {
                    &&& !old(self).users@.contains_key(u.user_id@)
                    &&& !old(self).username_to_user_id@.contains_key(u.username@)
                    &&& u.display_name == display_name
                    &&& u.email == email
                    &&& u.devices@.len() == 0
                    &&& u.is_active
                    &&& (!old(self).username_to_user_id@.contains_key(username@) ==> u.username@
                        == username@)
                    &&& (old(self).username_to_user_id@.contains_key(username@) ==> exists|k: nat|
                        1 <= k && u.username@ == username@ + spec_dec(k) && (forall|j: nat|
                            1 <= j < k ==> old(self).username_to_user_id@.contains_key(
                                username@ + spec_dec(j),
                            )))
                    &&& final(self).users@.contains_key(u.user_id@)
                    &&& identity_like(final(self).users@[u.user_id@], u)
                    &&& final(self).users@.remove(u.user_id@) == old(self).users@
                    &&& final(self).username_to_user_id@.contains_key(u.username@)
                    &&& final(self).username_to_user_id@[u.username@]@ == u.user_id@
                    &&& final(self).username_to_user_id@.remove(u.username@) == old(
                        self,
                    ).username_to_user_id@
                    &&& final(self).sessions@ == old(self).sessions@
                    &&& final(self).device_sessions@ == old(self).device_sessions@
                    &&& final(self).device_peer_memory@ == old(self).device_peer_memory@
                },
                Err(e) => e == DafsError::Internal && *final(self) == *old(self),
            },
    {
        let taken = self.username_to_user_id.contains_key(username.as_str());
        let mut final_username = username.clone();
        if taken {
            let mut counter: u64 = 1;
            loop
                invariant
                    self.wf(),
                    *self == *old(self),
                    1 <= counter,
                    forall|j: nat|
                        1 <= j < counter ==> self.username_to_user_id@.contains_key(
                            username@ + spec_dec(j),
                        ),
                ensures
                    self.wf(),
                    *self == *old(self),
                    exists|k: nat|
                        1 <= k && final_username@ == username@ + spec_dec(k) && (forall|j: nat|
                            1 <= j < k ==> self.username_to_user_id@.contains_key(
                                username@ + spec_dec(j),
                            )),
                decreases u64::MAX - counter,
            {
                let mut candidate = username.clone();
                candidate.append(u64_to_string(counter).as_str());
                if !self.username_to_user_id.contains_key(candidate.as_str()) {
                    final_username = candidate;
                    break ;
                }
                if counter == u64::MAX {
                    return Err(DafsError::Internal);
                }
                counter = counter + 1;
            }
        }
        if self.username_to_user_id.contains_key(final_username.as_str()) {
            return Err(DafsError::Internal);
        }
        let user = UserIdentity::new(final_username, display_name, email);
        if self.users.contains_key(user.user_id.as_str()) {
            return Err(DafsError::Internal);
        }
        let result = clone_identity(&user);
        let user_id = user.user_id.clone();
        let uname = user.username.clone();
        self.users.insert(user.user_id.clone(), user);
        self.username_to_user_id.insert(uname, user_id);
        proof {
            assert(final(self).users@.remove(result.user_id@) =~= old(self).users@);
            assert(final(self).username_to_user_id@.remove(result.username@) =~= old(
                self,
            ).username_to_user_id@);
        }
        Ok(result)
    }

    /// Logs a user in: records a fresh current device, issues a session good
    /// for `SESSION_LIFETIME_SECS`, and indexes it by the new device.
    pub fn login_user(
        &mut self,
        username: &str,
        device_name: String,
        device_type: DeviceType,
    ) -> (r: Result<(UserIdentity, UserSession), DafsError>)
        requires
            old(self).wf(),
        ensures
            final(self).wf(),
            match r {
                Ok((u, s)) => {
                    &&& old(self).username_to_user_id@.contains_key(username@)
                    &&& u.user_id@ == old(self).username_to_user_id@[username@]@
                    &&& final(self).users@.contains_key(u.user_id@)
                    &&& identity_like(u, final(self).users@[u.user_id@])
                    &&& u.devices@.len() == old(self).users@[u.user_id@].devices@.len() + 1
                    &&& u.devices@.last().device_id@ == s.device_id@
                    &&& u.devices@.last().is_current
                    &&& u.devices@.last().device_name == device_name
                    &&& u.devices@.last().device_type == device_type
                    &&& forall|i: int|
                        0 <= i < u.devices@.len() - 1 ==> !(#[trigger] u.devices@[i]).is_current
                    &&& s.user_id@ == u.user_id@
                    &&& s.is_active
                    &&& s.expires_at == if s.created_at <= u64::MAX - SESSION_LIFETIME_SECS {
                        (s.created_at + SESSION_LIFETIME_SECS) as u64
                    } else {
                        u64::MAX
                    }
                    &&& !old(self).sessions@.contains_key(s.session_id@)
                    &&& final(self).sessions@ == old(self).sessions@.insert(s.session_id@, s)
                    &&& final(self).device_sessions@.contains_key(s.device_id@)
                    &&& final(self).device_sessions@[s.device_id@]@ == s.session_id@
                    &&& final(self).device_sessions@.remove(s.device_id@) == old(
                        self,
                    ).device_sessions@.remove(s.device_id@)
                    &&& final(self).users@.remove(u.user_id@) == old(self).users@.remove(
                        u.user_id@,
                    )
                    &&& final(self).username_to_user_id@ == old(self).username_to_user_id@
                    &&& final(self).device_peer_memory@ == old(self).device_peer_memory@
                },
                Err(e) => {
                    &&& *final(self) == *old(self)
                    &&& (e == DafsError::NotFound <==> !old(
                        self,
                    ).username_to_user_id@.contains_key(username@))
                    &&& (e == DafsError::NotFound || e == DafsError::Internal)
                },
            },
    {
        let user_id = match self.username_to_user_id.get(username) {
            Some(id) => id.clone(),
            None => {
                return Err(DafsError::NotFound);
            },
        };
        let stored = match self.users.get(user_id.as_str()) {
            Some(u) => u,
            None => {
                return Err(DafsError::Internal);
            },
        };
        let mut user = clone_identity(stored);
        let device = UserDevice::new(device_name, device_type);
        let device_id = device.device_id.clone();
        user.add_device(device);
        let now = now_secs();
        let expires_at = if now <= u64::MAX - SESSION_LIFETIME_SECS {
            now + SESSION_LIFETIME_SECS
        } else {
            u64::MAX
        };
        let session = UserSession {
            session_id: crate::host::fresh_uuid(),
            user_id: user.user_id.clone(),
            device_id,
            created_at: now,
            expires_at,
            is_active: true,
        };
        if self.sessions.contains_key(session.session_id.as_str()) {
            return Err(DafsError::Internal);
        }
        let result_user = clone_identity(&user);
        let result_session = clone_session(&session);
        let ghost pre_users = self.users@;
        self.sessions.insert(session.session_id.clone(), clone_session(&session));
        self.device_sessions.insert(session.device_id.clone(), session.session_id.clone());
        self.users.insert(user.user_id.clone(), user);
        proof {
            assert(final(self).sessions@ =~= old(self).sessions@.insert(
                result_session.session_id@,
                result_session,
            ));
            assert(final(self).device_sessions@.remove(result_session.device_id@) =~= old(
                self,
            ).device_sessions@.remove(result_session.device_id@));
            assert(final(self).users@.remove(result_user.user_id@) =~= old(
                self,
            ).users@.remove(result_user.user_id@));
        }
        Ok((result_user, result_session))
    }

    pub fn get_user_by_id(&self, user_id: &str) -> (r: Option<&UserIdentity>)
        requires
            self.wf(),
        ensures
            match r {
                Some(u) => self.users@.contains_key(user_id@) && *u == self.users@[user_id@],
                None => !self.users@.contains_key(user_id@),
            },
    {
        self.users.get(user_id)
    }

    pub fn get_user_by_username(&self, username: &str) -> (r: Option<&UserIdentity>)
        requires
            self.wf(),
        ensures
            match r {
                Some(u) => {
                    &&& self.username_to_user_id@.contains_key(username@)
                    &&& *u == self.users@[self.username_to_user_id@[username@]@]
                    &&& u.username@ == username@
                },
                None => !self.username_to_user_id@.contains_key(username@),
            },
    {
        match self.username_to_user_id.get(username) {
            Some(user_id) => self.users.get(user_id.as_str()),
            None => None,
        }
    }

    pub fn get_user_by_session(&self, session_id: &str) -> (r: Option<&UserIdentity>)
        requires
            self.wf(),
        ensures
            match r {
                Some(u) => {
                    &&& self.sessions@.contains_key(session_id@)
                    &&& self.users@.contains_key(self.sessions@[session_id@].user_id@)
                    &&& *u == self.users@[self.sessions@[session_id@].user_id@]
                },
                None => self.sessions@.contains_key(session_id@) ==> !self.users@.contains_key(
                    self.sessions@[session_id@].user_id@,
                ),
            },
    {
        match self.sessions.get(session_id) {
            Some(session) => self.users.get(session.user_id.as_str()),
            None => None,
        }
    }

    pub fn get_user_by_device(&self, device_id: &str) -> (r: Option<&UserIdentity>)
        requires
            self.wf(),
        ensures
            match r {
                Some(u) => {
                    &&& self.device_sessions@.contains_key(device_id@)
                    &&& self.sessions@.contains_key(self.device_sessions@[device_id@]@)
                    &&& *u == self.users@[self.sessions@[self.device_sessions@[device_id@]@].user_id@]
                },
                None => self.device_sessions@.contains_key(device_id@)
                    ==> !self.users@.contains_key(
                    self.sessions@[self.device_sessions@[device_id@]@].user_id@,
                ),
            },
    {
        match self.device_sessions.get(device_id) {
            Some(session_id) => self.get_user_by_session(session_id.as_str()),
            None => None,
        }
    }

    pub fn get_device_known_peers(&self, device_id: &str) -> (r: Vec<String>)
        requires
            self.wf(),
        ensures
            self.device_peer_memory@.contains_key(device_id@) ==> r@
                == self.device_peer_memory@[device_id@].known_peers@,
            !self.device_peer_memory@.contains_key(device_id@) ==> r@.len() == 0,
    {
        match self.device_peer_memory.get(device_id) {
            Some(memory) => clone_strings(&memory.known_peers),
            None => Vec::new(),
        }
    }

    pub fn get_device_connection_history(&self, device_id: &str) -> (r: Vec<PeerConnection>)
        requires
            self.wf(),
        ensures
            self.device_peer_memory@.contains_key(device_id@) ==> r@
                == self.device_peer_memory@[device_id@].peer_connection_history@,
            !self.device_peer_memory@.contains_key(device_id@) ==> r@.len() == 0,
    {
        match self.device_peer_memory.get(device_id) {
            Some(memory) => clone_connections(&memory.peer_connection_history),
            None => Vec::new(),
        }
    }
}

/// An entry in a connection history that is still open for the given peer.
pub open spec fn open_match(c: PeerConnection, peer: Seq<char>) -> bool {
    c.peer_id@ == peer && c.disconnected_at is None
}

/// Whether a user record matches a search query, case-insensitively, on
/// username, display name or email.
pub open spec fn user_matches(u: UserIdentity, q: Seq<char>) -> bool {
    ||| crate::text::has_substring(crate::text::lower_of(u.username@), crate::text::lower_of(q))
    ||| crate::text::has_substring(
        crate::text::lower_of(u.display_name@),
        crate::text::lower_of(q),
    )
    ||| (u.email matches Some(e) && crate::text::has_substring(
        crate::text::lower_of(e@),
        crate::text::lower_of(q),
    ))
}

impl UserRegistry {
    /// Refreshes the activity timestamp of a user, if present.
    pub fn update_user_status(&mut self, user_id: &str) -> (r: Result<(), DafsError>)
        requires
            old(self).wf(),
        ensures
            final(self).wf(),
            r is Ok,
            final(self).username_to_user_id@ == old(self).username_to_user_id@,
            final(self).sessions@ == old(self).sessions@,
            final(self).device_sessions@ == old(self).device_sessions@,
            final(self).device_peer_memory@ == old(self).device_peer_memory@,
            !old(self).users@.contains_key(user_id@) ==> *final(self) == *old(self),
            old(self).users@.contains_key(user_id@) ==> {
                &&& final(self).users@.contains_key(user_id@)
                &&& final(self).users@[user_id@].same_account(&old(self).users@[user_id@])
                &&& final(self).users@[user_id@].devices@ == old(
                    self,
                ).users@[user_id@].devices@
                &&& final(self).users@.remove(user_id@) == old(self).users@.remove(user_id@)
            },
    {
        let updated = match self.users.get(user_id) {
            Some(stored) => {
                let mut u = clone_identity(stored);
                u.update_last_seen();
                u
            },
            None => {
                return Ok(());
            },
        };
        self.users.insert(user_id.to_owned(), updated);
        proof {
            assert(final(self).users@.remove(user_id@) =~= old(self).users@.remove(user_id@));
        }
        Ok(())
    }

    /// Marks the session owned by a device inactive and drops the device's
    /// session binding; idempotent.
    pub fn logout_device(&mut self, device_id: &str) -> (r: Result<(), DafsError>)
        requires
            old(self).wf(),
        ensures
            final(self).wf(),
            r is Ok,
            final(self).users@ == old(self).users@,
            final(self).username_to_user_id@ == old(self).username_to_user_id@,
            final(self).device_peer_memory@ == old(self).device_peer_memory@,
            final(self).device_sessions@ == old(self).device_sessions@.remove(device_id@),
            !old(self).device_sessions@.contains_key(device_id@) ==> final(self).sessions@ == old(
                self,
            ).sessions@,
            old(self).device_sessions@.contains_key(device_id@) ==> {
                let sid = old(self).device_sessions@[device_id@]@;
                final(self).sessions@ == old(self).sessions@.insert(
                    sid,
                    (UserSession { is_active: false, ..old(self).sessions@[sid] }),
                )
            },
    {
        let session_id = match self.device_sessions.remove(device_id) {
            Some(sid) => sid,
            None => {
                return Ok(());
            },
        };
        let updated = match self.sessions.get(session_id.as_str()) {
            Some(stored) => {
                let mut s = clone_session(stored);
                s.is_active = false;
                s
            },
            None => {
                proof {
                    assert(false);
                }
                return Ok(());
            },
        };
        self.sessions.insert(session_id, updated);
        Ok(())
    }

    /// Rebinds a user's username in the index; fails with `Conflict` if the
    /// requested name is already bound.
    pub fn change_username(&mut self, user_id: &str, new_username: String) -> (r: Result<
        (),
        DafsError,
    >)
        requires
            old(self).wf(),
        ensures
            final(self).wf(),
            match r {
                Ok(()) => {
                    &&& old(self).users@.contains_key(user_id@)
                    &&& !old(self).username_to_user_id@.contains_key(new_username@)
                    &&& final(self).users@.contains_key(user_id@)
                    &&& final(self).users@[user_id@].username@ == new_username@
                    &&& final(self).users@[user_id@].same_account(
                        &(UserIdentity {
                            username: new_username,
                            ..old(self).users@[user_id@]
                        }),
                    )
                    &&& final(self).users@[user_id@].devices@ == old(
                        self,
                    ).users@[user_id@].devices@
                    &&& final(self).users@.remove(user_id@) == old(self).users@.remove(user_id@)
                    &&& final(self).username_to_user_id@.contains_key(new_username@)
                    &&& final(self).username_to_user_id@[new_username@]@ == user_id@
                    &&& final(self).username_to_user_id@.remove(new_username@) == old(
                        self,
                    ).username_to_user_id@.remove(old(self).users@[user_id@].username@)
                    &&& final(self).sessions@ == old(self).sessions@
                    &&& final(self).device_sessions@ == old(self).device_sessions@
                    &&& final(self).device_peer_memory@ == old(self).device_peer_memory@
                },
                Err(e) => {
                    &&& *final(self) == *old(self)
                    &&& (e == DafsError::NotFound || e == DafsError::Conflict)
                    &&& (e == DafsError::NotFound <==> !old(self).users@.contains_key(user_id@))
                    &&& (e == DafsError::Conflict <==> old(self).users@.contains_key(user_id@)
                        && old(self).username_to_user_id@.contains_key(new_username@))
                },
            },
    {
        let (mut updated, old_name) = match self.users.get(user_id) {
            Some(stored) => (clone_identity(stored), stored.username.clone()),
            None => {
                return Err(DafsError::NotFound);
            },
        };
        if self.username_to_user_id.contains_key(new_username.as_str()) {
            return Err(DafsError::Conflict);
        }
        updated.username = new_username.clone();
        self.users.insert(user_id.to_owned(), updated);
        self.username_to_user_id.remove(old_name.as_str());
        self.username_to_user_id.insert(new_username, user_id.to_owned());
        proof {
            assert(final(self).users@.remove(user_id@) =~= old(self).users@.remove(user_id@));
            assert(final(self).username_to_user_id@.remove(
                final(self).users@[user_id@].username@,
            ) =~= old(self).username_to_user_id@.remove(old(self).users@[user_id@].username@));
        }
        Ok(())
    }

    /// Removes a device from a user's device list; removing an unknown device
    /// is a no-op. Any device that still owns a session is refused — a
    /// stricter guard than only protecting the calling session's device,
    /// which this signature cannot identify.
    pub fn remove_device(&mut self, user_id: &str, device_id: &str) -> (r: Result<(), DafsError>)
        requires
            old(self).wf(),
        ensures
            final(self).wf(),
            old(self).device_sessions@.contains_key(device_id@) ==> r == Err::<
                (),
                DafsError,
            >(DafsError::Conflict) && *final(self) == *old(self),
            !old(self).device_sessions@.contains_key(device_id@) ==> r is Ok && {
                &&& final(self).username_to_user_id@ == old(self).username_to_user_id@
                &&& final(self).sessions@ == old(self).sessions@
                &&& final(self).device_sessions@ == old(self).device_sessions@
                &&& final(self).device_peer_memory@ == old(self).device_peer_memory@
                &&& (!old(self).users@.contains_key(user_id@) ==> *final(self) == *old(self))
                &&& (old(self).users@.contains_key(user_id@) ==> {
                    &&& final(self).users@.contains_key(user_id@)
                    &&& final(self).users@[user_id@].same_account(&old(self).users@[user_id@])
                    &&& final(self).users@[user_id@].devices@ == old(
                        self,
                    ).users@[user_id@].devices@.filter(
                        |d: UserDevice| d.device_id@ != device_id@,
                    )
                    &&& final(self).users@.remove(user_id@) == old(self).users@.remove(user_id@)
                })
            },
    {
        if self.device_sessions.contains_key(device_id) {
            return Err(DafsError::Conflict);
        }
        let updated = match self.users.get(user_id) {
            Some(stored) => {
                let mut u = clone_identity(stored);
                u.remove_device(device_id);
                u
            },
            None => {
                return Ok(());
            },
        };
        self.users.insert(user_id.to_owned(), updated);
        proof {
            assert(final(self).users@.remove(user_id@) =~= old(self).users@.remove(user_id@));
        }
        Ok(())
    }

    /// Remembers a peer for a device and appends an open connection record
    /// to the device's history.
    pub fn add_peer_to_device_memory(&mut self, device_id: &str, peer_id: &str) -> (r: Result<
        (),
        DafsError,
    >)
        requires
            old(self).wf(),
        ensures
            final(self).wf(),
            r is Ok,
            final(self).users@ == old(self).users@,
            final(self).username_to_user_id@ == old(self).username_to_user_id@,
            final(self).sessions@ == old(self).sessions@,
            final(self).device_sessions@ == old(self).device_sessions@,
            final(self).device_peer_memory@.contains_key(device_id@),
            final(self).device_peer_memory@.remove(device_id@) == old(
                self,
            ).device_peer_memory@.remove(device_id@),
            ({
                let m1 = final(self).device_peer_memory@[device_id@];
                let h1 = m1.peer_connection_history@;
                &&& seq_has_string(m1.known_peers@, peer_id@)
                &&& h1.len() >= 1
                &&& h1.last().peer_id@ == peer_id@
                &&& h1.last().disconnected_at is None
                &&& h1.last().connection_duration is None
                &&& h1.last().success
            }),
            old(self).device_peer_memory@.contains_key(device_id@) ==> {
                let m0 = old(self).device_peer_memory@[device_id@];
                let m1 = final(self).device_peer_memory@[device_id@];
                &&& (seq_has_string(m0.known_peers@, peer_id@) ==> m1.known_peers@
                    == m0.known_peers@)
                &&& (!seq_has_string(m0.known_peers@, peer_id@) ==> m1.known_peers@.len()
                    == m0.known_peers@.len() + 1 && m1.known_peers@.take(
                    m0.known_peers@.len() as int,
                ) == m0.known_peers@ && m1.known_peers@.last()@ == peer_id@)
                &&& m1.peer_connection_history@.len() == m0.peer_connection_history@.len() + 1
                &&& m1.peer_connection_history@.take(m0.peer_connection_history@.len() as int)
                    == m0.peer_connection_history@
                &&& m1.last_peer_scan == m0.last_peer_scan
            },
            !old(self).device_peer_memory@.contains_key(device_id@) ==> {
                let m1 = final(self).device_peer_memory@[device_id@];
                &&& m1.known_peers@.len() == 1
                &&& m1.known_peers@[0]@ == peer_id@
                &&& m1.peer_connection_history@.len() == 1
            },
    {
        let now = now_secs();
        let connection = PeerConnection {
            peer_id: peer_id.to_owned(),
            connected_at: now,
            disconnected_at: None,
            connection_duration: None,
            success: true,
        };
        let updated = match self.device_peer_memory.get(device_id) {
            Some(m) => {
                let mut known = clone_strings(&m.known_peers);
                if !vec_contains_string(&known, peer_id) {
                    known.push(peer_id.to_owned());
                    assert(known@.last()@ == peer_id@);
                    proof {
                        assert(known@.take(known@.len() - 1) =~= m.known_peers@);
                        assert(known@[known@.len() - 1]@ == peer_id@);
                        assert forall|i: int, j: int|
                            0 <= i < j < known@.len() implies (#[trigger] known@[i])@ != (
                            #[trigger] known@[j])@ by {
                            if j == known@.len() - 1 {
                                assert(known@[i]@ == m.known_peers@[i]@);
                            }
                        }
                    }
                }
                assert(seq_has_string(known@, peer_id@));
                let mut history = clone_connections(&m.peer_connection_history);
                history.push(connection);
                proof {
                    assert(history@.take(history@.len() - 1) =~= m.peer_connection_history@);
                }
                DevicePeerMemory {
                    device_id: device_id.to_owned(),
                    known_peers: known,
                    last_peer_scan: m.last_peer_scan,
                    peer_connection_history: history,
                }
            },
            None => {
                let mut known: Vec<String> = Vec::new();
                known.push(peer_id.to_owned());
                assert(known@[0]@ == peer_id@);
                assert(seq_has_string(known@, peer_id@));
                let mut history: Vec<PeerConnection> = Vec::new();
                history.push(connection);
                DevicePeerMemory {
                    device_id: device_id.to_owned(),
                    known_peers: known,
                    last_peer_scan: now,
                    peer_connection_history: history,
                }
            },
        };
        self.device_peer_memory.insert(device_id.to_owned(), updated);
        proof {
            assert(final(self).device_peer_memory@.remove(device_id@) =~= old(
                self,
            ).device_peer_memory@.remove(device_id@));
        }
        Ok(())
    }

    /// Closes the most recent open history entry for the peer, recording the
    /// disconnect time and the connection duration.
    pub fn record_peer_disconnection(&mut self, device_id: &str, peer_id: &str) -> (r: Result<
        (),
        DafsError,
    >)
        requires
            old(self).wf(),
        ensures
            final(self).wf(),
            r is Ok,
            final(self).users@ == old(self).users@,
            final(self).username_to_user_id@ == old(self).username_to_user_id@,
            final(self).sessions@ == old(self).sessions@,
            final(self).device_sessions@ == old(self).device_sessions@,
            !old(self).device_peer_memory@.contains_key(device_id@) ==> *final(self) == *old(
                self,
            ),
            old(self).device_peer_memory@.contains_key(device_id@) ==> {
                let m0 = old(self).device_peer_memory@[device_id@];
                let h0 = m0.peer_connection_history@;
                &&& final(self).device_peer_memory@.remove(device_id@) == old(
                    self,
                ).device_peer_memory@.remove(device_id@)
                &&& ((forall|j: int| 0 <= j < h0.len() ==> !open_match(#[trigger] h0[j], peer_id@))
                    ==> *final(self) == *old(self))
                &&& ((exists|j: int| 0 <= j < h0.len() && open_match(#[trigger] h0[j], peer_id@))
                    ==> {
                    let m1 = final(self).device_peer_memory@[device_id@];
                    let h1 = m1.peer_connection_history@;
                    &&& m1.known_peers@ == m0.known_peers@
                    &&& m1.last_peer_scan == m0.last_peer_scan
                    &&& exists|k: int|
                        {
                            &&& 0 <= k < h0.len()
                            &&& open_match(#[trigger] h0[k], peer_id@)
                            &&& (forall|j: int|
                                k < j < h0.len() ==> !open_match(#[trigger] h0[j], peer_id@))
                            &&& h1 == h0.update(k, h1[k])
                            &&& h1[k].peer_id == h0[k].peer_id
                            &&& h1[k].connected_at == h0[k].connected_at
                            &&& h1[k].success == h0[k].success
                            &&& h1[k].disconnected_at matches Some(end) && end
                                >= h0[k].connected_at && h1[k].connection_duration == Some(
                                (end - h0[k].connected_at) as u64,
                            )
                        }
                })
            },
    {
        let m = match self.device_peer_memory.get(device_id) {
            Some(m) => m,
            None => {
                return Ok(());
            },
        };
        let n = m.peer_connection_history.len();
        let mut found: Option<usize> = None;
        for i in 0..n
            invariant
                n == m.peer_connection_history@.len(),
                match found {
                    Some(k) => k < i && open_match(m.peer_connection_history@[k as int], peer_id@)
                        && (forall|j: int|
                        k < j < i ==> !open_match(
                            #[trigger] m.peer_connection_history@[j],
                            peer_id@,
                        )),
                    None => forall|j: int|
                        0 <= j < i ==> !open_match(
                            #[trigger] m.peer_connection_history@[j],
                            peer_id@,
                        ),
                },
        {
            let c = &m.peer_connection_history[i];
            if c.disconnected_at.is_none() && str_eq(c.peer_id.as_str(), peer_id) {
                found = Some(i);
            }
        }
        let k = match found {
            Some(k) => k,
            None => {
                return Ok(());
            },
        };
        let now = now_secs();
        let old_conn = &m.peer_connection_history[k];
        let end = if now >= old_conn.connected_at {
            now
        } else {
            old_conn.connected_at
        };
        let closed = PeerConnection {
            peer_id: old_conn.peer_id.clone(),
            connected_at: old_conn.connected_at,
            disconnected_at: Some(end),
            connection_duration: Some(end - old_conn.connected_at),
            success: old_conn.success,
        };
        let mut history = clone_connections(&m.peer_connection_history);
        let updated_memory = DevicePeerMemory {
            device_id: device_id.to_owned(),
            known_peers: clone_strings(&m.known_peers),
            last_peer_scan: m.last_peer_scan,
            peer_connection_history: history,
        };
        let mut updated = updated_memory;
        updated.peer_connection_history.set(k, closed);
        proof {
            assert(updated.peer_connection_history@ == old(
                self,
            ).device_peer_memory@[device_id@].peer_connection_history@.update(
                k as int,
                updated.peer_connection_history@[k as int],
            ));
        }
        self.device_peer_memory.insert(device_id.to_owned(), updated);
        proof {
            assert(final(self).device_peer_memory@.remove(device_id@) =~= old(
                self,
            ).device_peer_memory@.remove(device_id@));
        }
        Ok(())
    }

    /// Refreshes the time of the device's last peer scan, if the device has
    /// any memory.
    pub fn update_device_peer_scan(&mut self, device_id: &str) -> (r: Result<(), DafsError>)
        requires
            old(self).wf(),
        ensures
            final(self).wf(),
            r is Ok,
            final(self).users@ == old(self).users@,
            final(self).username_to_user_id@ == old(self).username_to_user_id@,
            final(self).sessions@ == old(self).sessions@,
            final(self).device_sessions@ == old(self).device_sessions@,
            !old(self).device_peer_memory@.contains_key(device_id@) ==> *final(self) == *old(
                self,
            ),
            old(self).device_peer_memory@.contains_key(device_id@) ==> {
                let m0 = old(self).device_peer_memory@[device_id@];
                let m1 = final(self).device_peer_memory@[device_id@];
                &&& final(self).device_peer_memory@.contains_key(device_id@)
                &&& m1.known_peers@ == m0.known_peers@
                &&& m1.peer_connection_history@ == m0.peer_connection_history@
                &&& m1.device_id@ == m0.device_id@
                &&& final(self).device_peer_memory@.remove(device_id@) == old(
                    self,
                ).device_peer_memory@.remove(device_id@)
            },
    {
        let updated = match self.device_peer_memory.get(device_id) {
            Some(m) => DevicePeerMemory {
                device_id: m.device_id.clone(),
                known_peers: clone_strings(&m.known_peers),
                last_peer_scan: now_secs(),
                peer_connection_history: clone_connections(&m.peer_connection_history),
            },
            None => {
                return Ok(());
            },
        };
        self.device_peer_memory.insert(device_id.to_owned(), updated);
        proof {
            assert(final(self).device_peer_memory@.remove(device_id@) =~= old(
                self,
            ).device_peer_memory@.remove(device_id@));
        }
        Ok(())
    }

    /// Copies of every registered identity, in table order.
    pub fn list_users(&self) -> (r: Vec<UserIdentity>)
        requires
            self.wf(),
        ensures
            r@.len() == self.users.entries@.len(),
            forall|i: int|
                0 <= i < r@.len() ==> identity_like(r@[i], self.users.entries@[i].1),
    {
        let mut r: Vec<UserIdentity> = Vec::new();
        let n = self.users.entries.len();
        for i in 0..n
            invariant
                n == self.users.entries@.len(),
                r@.len() == i,
                forall|j: int| 0 <= j < i ==> identity_like(r@[j], self.users.entries@[j].1),
        {
            r.push(clone_identity(&self.users.entries[i].1));
        }
        r
    }

    /// Copies of the identities whose username, display name or email
    /// contains the query, case-insensitively.
    /// Copies of the identities whose username, display name or email
    /// contains the query, case-insensitively, in table order.
    pub fn search_users(&self, query: &str) -> (r: Vec<UserIdentity>)
        requires
            self.wf(),
        ensures
            ({
                let matched = self.users.entries@.map_values(
                    |e: (String, UserIdentity)| e.1,
                ).filter(|u: UserIdentity| user_matches(u, query@));
                &&& r@.len() == matched.len()
                &&& forall|i: int|
                    0 <= i < r@.len() ==> identity_like(#[trigger] r@[i], matched[i])
            }),
    {
        let ghost all = self.users.entries@.map_values(|e: (String, UserIdentity)| e.1);
        let ghost pred = |u: UserIdentity| user_matches(u, query@);
        let q_lower = crate::text::to_lowercase(query);
        let mut r: Vec<UserIdentity> = Vec::new();
        let n = self.users.entries.len();
        proof {
            assert(all.take(0int) =~= Seq::<UserIdentity>::empty());
            reveal(Seq::filter);
        }
        for i in 0..n
            invariant
                n == self.users.entries@.len(),
                n == all.len(),
                all == self.users.entries@.map_values(|e: (String, UserIdentity)| e.1),
                pred == (|u: UserIdentity| user_matches(u, query@)),
                q_lower@ == crate::text::lower_of(query@),
                r@.len() == all.take(i as int).filter(pred).len(),
                forall|l: int|
                    0 <= l < r@.len() ==> identity_like(
                        #[trigger] r@[l],
                        all.take(i as int).filter(pred)[l],
                    ),
        {
            let u = &self.users.entries[i].1;
            let name_match = crate::text::str_contains(
                crate::text::to_lowercase(u.username.as_str()).as_str(),
                q_lower.as_str(),
            );
            let display_match = crate::text::str_contains(
                crate::text::to_lowercase(u.display_name.as_str()).as_str(),
                q_lower.as_str(),
            );
            let email_match = match &u.email {
                Some(e) => crate::text::str_contains(
                    crate::text::to_lowercase(e.as_str()).as_str(),
                    q_lower.as_str(),
                ),
                None => false,
            };
            proof {
                assert(all[i as int] == self.users.entries@[i as int].1);
                assert((name_match || display_match || email_match) == pred(all[i as int]));
                reveal(Seq::filter);
                assert(all.take(i + 1).drop_last() =~= all.take(i as int));
                assert(all.take(i + 1).last() == all[i as int]);
            }
            let ghost filtered_pre = all.take(i as int).filter(pred);
            if name_match || display_match || email_match {
                let copy = clone_identity(u);
                r.push(copy);
                proof {
                    assert(all.take(i + 1).filter(pred) == filtered_pre.push(all[i as int]));
                    assert(identity_like(r@[r@.len() - 1], all[i as int]));
                    assert forall|l: int| 0 <= l < r@.len() implies identity_like(
                        #[trigger] r@[l],
                        all.take(i + 1).filter(pred)[l],
                    ) by {
                        if l < r@.len() - 1 {
                            assert(r@[l] == r@.drop_last()[l]);
                            assert(all.take(i + 1).filter(pred)[l] == filtered_pre[l]);
                        }
                    }
                }
            } else {
                proof {
                    assert(all.take(i + 1).filter(pred) == filtered_pre);
                }
            }
        }
        proof {
            assert(all.take(n as int) =~= all);
        }
        r
    }
}

/// The username index maps each username to exactly one user: two users with
/// the same username are the same user.
pub proof fn lemma_username_bijection(reg: &UserRegistry, id1: Seq<char>, id2: Seq<char>)
    requires
        reg.wf(),
        reg.users@.contains_key(id1),
        reg.users@.contains_key(id2),
        reg.users@[id1].username@ == reg.users@[id2].username@,
    ensures
        id1 == id2,
{
    let name = reg.users@[id1].username@;
    assert(reg.username_to_user_id@[name]@ == id1);
    assert(reg.username_to_user_id@[name]@ == id2);
}

} // verus!

verus! {

/// Registers a user in the given registry.
pub fn register_user(
    reg: &mut UserRegistry,
    username: String,
    display_name: String,
    email: Option<String>,
) -> (r: Result<UserIdentity, DafsError>)
    requires
        old(reg).wf(),
    ensures
        final(reg).wf(),
        r matches Ok(u) ==> {
            &&& final(reg).users@.contains_key(u.user_id@)
            &&& identity_like(final(reg).users@[u.user_id@], u)
            &&& final(reg).users@.remove(u.user_id@) == old(reg).users@
            &&& final(reg).username_to_user_id@.contains_key(u.username@)
            &&& u.display_name == display_name
            &&& u.email == email
            &&& (!old(reg).username_to_user_id@.contains_key(username@) ==> u.username@
                == username@)
        },
        r is Err ==> *final(reg) == *old(reg),
{
    reg.register_user(username, display_name, email)
}

/// Logs a user in on a new device in the given registry.
pub fn login_user(
    reg: &mut UserRegistry,
    username: &str,
    device_name: String,
    device_type: DeviceType,
) -> (r: Result<(UserIdentity, UserSession), DafsError>)
    requires
        old(reg).wf(),
    ensures
        final(reg).wf(),
        r matches Ok((u, s)) ==> {
            &&& old(reg).username_to_user_id@.contains_key(username@)
            &&& s.user_id@ == u.user_id@
            &&& s.is_active
            &&& final(reg).sessions@ == old(reg).sessions@.insert(s.session_id@, s)
            &&& final(reg).device_sessions@.contains_key(s.device_id@)
        },
        r is Err ==> *final(reg) == *old(reg) && (r == Err::<(UserIdentity, UserSession), DafsError>(
            DafsError::NotFound,
        ) <==> !old(reg).username_to_user_id@.contains_key(username@)),
{
    reg.login_user(username, device_name, device_type)
}

/// The identity with the given user id, copied out.
pub fn get_user_by_id(reg: &UserRegistry, user_id: &str) -> (r: Option<UserIdentity>)
    requires
        reg.wf(),
    ensures
        match r {
            Some(u) => reg.users@.contains_key(user_id@) && identity_like(
                u,
                reg.users@[user_id@],
            ),
            None => !reg.users@.contains_key(user_id@),
        },
{
    match reg.get_user_by_id(user_id) {
        Some(u) => Some(clone_identity(u)),
        None => None,
    }
}

/// The identity bound to the given username, copied out.
pub fn get_user_by_username(reg: &UserRegistry, username: &str) -> (r: Option<UserIdentity>)
    requires
        reg.wf(),
    ensures
        match r {
            Some(u) => reg.username_to_user_id@.contains_key(username@) && identity_like(
                u,
                reg.users@[reg.username_to_user_id@[username@]@],
            ),
            None => !reg.username_to_user_id@.contains_key(username@),
        },
{
    match reg.get_user_by_username(username) {
        Some(u) => Some(clone_identity(u)),
        None => None,
    }
}

/// The identity owning the given session, copied out.
pub fn get_user_by_session(reg: &UserRegistry, session_id: &str) -> (r: Option<UserIdentity>)
    requires
        reg.wf(),
    ensures
        r matches Some(u) ==> reg.sessions@.contains_key(session_id@) && identity_like(
            u,
            reg.users@[reg.sessions@[session_id@].user_id@],
        ),
{
    match reg.get_user_by_session(session_id) {
        Some(u) => Some(clone_identity(u)),
        None => None,
    }
}

/// The identity whose session owns the given device, copied out.
pub fn get_user_by_device(reg: &UserRegistry, device_id: &str) -> (r: Option<UserIdentity>)
    requires
        reg.wf(),
    ensures
        r matches Some(u) ==> reg.device_sessions@.contains_key(device_id@) && identity_like(
            u,
            reg.users@[reg.sessions@[reg.device_sessions@[device_id@]@].user_id@],
        ),
{
    match reg.get_user_by_device(device_id) {
        Some(u) => Some(clone_identity(u)),
        None => None,
    }
}

/// Refreshes a user's activity timestamp in the given registry.
pub fn update_user_status(reg: &mut UserRegistry, user_id: &str) -> (r: Result<(), DafsError>)
    requires
        old(reg).wf(),
    ensures
        final(reg).wf(),
        r is Ok,
        !old(reg).users@.contains_key(user_id@) ==> *final(reg) == *old(reg),
        old(reg).users@.contains_key(user_id@) ==> final(reg).users@.contains_key(user_id@)
            && final(reg).users@[user_id@].same_account(&old(reg).users@[user_id@])
            && final(reg).users@.remove(user_id@) == old(reg).users@.remove(user_id@),
{
    reg.update_user_status(user_id)
}

/// Logs the given device out of the registry.
pub fn logout_device(reg: &mut UserRegistry, device_id: &str) -> (r: Result<(), DafsError>)
    requires
        old(reg).wf(),
    ensures
        final(reg).wf(),
        r is Ok,
        final(reg).device_sessions@ == old(reg).device_sessions@.remove(device_id@),
        final(reg).users@ == old(reg).users@,
{
    reg.logout_device(device_id)
}

/// Copies of every registered identity.
pub fn list_users(reg: &UserRegistry) -> (r: Vec<UserIdentity>)
    requires
        reg.wf(),
    ensures
        r@.len() == reg.users.entries@.len(),
        forall|i: int| 0 <= i < r@.len() ==> identity_like(r@[i], reg.users.entries@[i].1),
{
    reg.list_users()
}

/// Copies of the identities matching a query.
pub fn search_users(reg: &UserRegistry, query: &str) -> (r: Vec<UserIdentity>)
    requires
        reg.wf(),
    ensures
        ({
            let matched = reg.users.entries@.map_values(|e: (String, UserIdentity)| e.1).filter(
                |u: UserIdentity| user_matches(u, query@),
            );
            &&& r@.len() == matched.len()
            &&& forall|i: int| 0 <= i < r@.len() ==> identity_like(#[trigger] r@[i], matched[i])
        }),
{
    reg.search_users(query)
}

/// Rebinds a user's username in the given registry.
pub fn change_username(reg: &mut UserRegistry, user_id: &str, new_username: String) -> (r: Result<
    (),
    DafsError,
>)
    requires
        old(reg).wf(),
    ensures
        final(reg).wf(),
        r is Ok ==> final(reg).users@.contains_key(user_id@)
            && final(reg).users@[user_id@].username@ == new_username@,
        r is Err ==> *final(reg) == *old(reg) && (r == Err::<(), DafsError>(DafsError::NotFound)
            || r == Err::<(), DafsError>(DafsError::Conflict)),
        r is Ok <==> old(reg).users@.contains_key(user_id@) && !old(
            reg,
        ).username_to_user_id@.contains_key(new_username@),
{
    reg.change_username(user_id, new_username)
}

/// Removes a device from a user in the given registry.
pub fn remove_device(reg: &mut UserRegistry, user_id: &str, device_id: &str) -> (r: Result<
    (),
    DafsError,
>)
    requires
        old(reg).wf(),
    ensures
        final(reg).wf(),
        old(reg).device_sessions@.contains_key(device_id@) ==> r is Err && *final(reg) == *old(
            reg,
        ),
        r is Ok && old(reg).users@.contains_key(user_id@) ==> final(reg).users@.contains_key(
            user_id@,
        ) && final(reg).users@[user_id@].devices@ == old(reg).users@[user_id@].devices@.filter(
            |d: UserDevice| d.device_id@ != device_id@,
        ),
{
    reg.remove_device(user_id, device_id)
}

/// Remembers a peer for a device in the given registry.
pub fn add_peer_to_device_memory(reg: &mut UserRegistry, device_id: &str, peer_id: &str) -> (r:
    Result<(), DafsError>)
    requires
        old(reg).wf(),
    ensures
        final(reg).wf(),
        r is Ok,
        final(reg).device_peer_memory@.contains_key(device_id@),
        seq_has_string(final(reg).device_peer_memory@[device_id@].known_peers@, peer_id@),
        final(reg).device_peer_memory@[device_id@].peer_connection_history@.len() >= 1,
{
    reg.add_peer_to_device_memory(device_id, peer_id)
}

/// Closes a peer's most recent open history entry in the given registry.
pub fn record_peer_disconnection(reg: &mut UserRegistry, device_id: &str, peer_id: &str) -> (r:
    Result<(), DafsError>)
    requires
        old(reg).wf(),
    ensures
        final(reg).wf(),
        r is Ok,
        !old(reg).device_peer_memory@.contains_key(device_id@) ==> *final(reg) == *old(reg),
{
    reg.record_peer_disconnection(device_id, peer_id)
}

/// The peers a device remembers.
pub fn get_device_known_peers(reg: &UserRegistry, device_id: &str) -> (r: Vec<String>)
    requires
        reg.wf(),
    ensures
        reg.device_peer_memory@.contains_key(device_id@) ==> r@
            == reg.device_peer_memory@[device_id@].known_peers@,
        !reg.device_peer_memory@.contains_key(device_id@) ==> r@.len() == 0,
{
    reg.get_device_known_peers(device_id)
}

/// A device's connection history.
pub fn get_device_connection_history(reg: &UserRegistry, device_id: &str) -> (r: Vec<
    PeerConnection,
>)
    requires
        reg.wf(),
    ensures
        reg.device_peer_memory@.contains_key(device_id@) ==> r@
            == reg.device_peer_memory@[device_id@].peer_connection_history@,
        !reg.device_peer_memory@.contains_key(device_id@) ==> r@.len() == 0,
{
    reg.get_device_connection_history(device_id)
}

/// Refreshes a device's last peer-scan time in the given registry.
pub fn update_device_peer_scan(reg: &mut UserRegistry, device_id: &str) -> (r: Result<
    (),
    DafsError,
>)
    requires
        old(reg).wf(),
    ensures
        final(reg).wf(),
        r is Ok,
        !old(reg).device_peer_memory@.contains_key(device_id@) ==> *final(reg) == *old(reg),
{
    reg.update_device_peer_scan(device_id)
}

/// Two memory records with the same contents.
pub open spec fn memory_like(a: DevicePeerMemory, b: DevicePeerMemory) -> bool {
    &&& a.device_id == b.device_id
    &&& a.known_peers@ == b.known_peers@
    &&& a.last_peer_scan == b.last_peer_scan
    &&& a.peer_connection_history@ == b.peer_connection_history@
}

/// What loading user records leaves in the user table and username index:
/// each record whose user id and username are both unbound is added,
/// first-come; everything else is skipped.
pub open spec fn spec_load_users(
    users: Map<Seq<char>, UserIdentity>,
    index: Map<Seq<char>, String>,
    records: Seq<UserIdentity>,
) -> (Map<Seq<char>, UserIdentity>, Map<Seq<char>, String>)
    decreases records.len(),
{
    if records.len() == 0 {
        (users, index)
    } else {
        let r = records.first();
        if !users.contains_key(r.user_id@) && !index.contains_key(r.username@) {
            spec_load_users(
                users.insert(r.user_id@, r),
                index.insert(r.username@, r.user_id),
                records.drop_first(),
            )
        } else {
            spec_load_users(users, index, records.drop_first())
        }
    }
}

/// What loading session records leaves in the session tables, first-come.
pub open spec fn spec_load_sessions(
    sessions: Map<Seq<char>, UserSession>,
    device_index: Map<Seq<char>, String>,
    records: Seq<UserSession>,
) -> (Map<Seq<char>, UserSession>, Map<Seq<char>, String>)
    decreases records.len(),
{
    if records.len() == 0 {
        (sessions, device_index)
    } else {
        let r = records.first();
        if !sessions.contains_key(r.session_id@) && !device_index.contains_key(r.device_id@) {
            spec_load_sessions(
                sessions.insert(r.session_id@, r),
                device_index.insert(r.device_id@, r.session_id),
                records.drop_first(),
            )
        } else {
            spec_load_sessions(sessions, device_index, records.drop_first())
        }
    }
}

/// What loading memory records leaves in the memory table: well-formed
/// records for unbound devices, first-come.
pub open spec fn spec_load_memories(
    table: Map<Seq<char>, DevicePeerMemory>,
    records: Seq<DevicePeerMemory>,
) -> Map<Seq<char>, DevicePeerMemory>
    decreases records.len(),
{
    if records.len() == 0 {
        table
    } else {
        let r = records.first();
        if !table.contains_key(r.device_id@) && memory_wf(r) {
            spec_load_memories(table.insert(r.device_id@, r), records.drop_first())
        } else {
            spec_load_memories(table, records.drop_first())
        }
    }
}

/// Processing one more record at the end of a list folds one more step.
proof fn lemma_load_users_push(
    users: Map<Seq<char>, UserIdentity>,
    index: Map<Seq<char>, String>,
    records: Seq<UserIdentity>,
    r: UserIdentity,
)
    ensures
        spec_load_users(users, index, records.push(r)) == (if !spec_load_users(
            users,
            index,
            records,
        ).0.contains_key(r.user_id@) && !spec_load_users(users, index, records).1.contains_key(
            r.username@,
        ) {
            (
                spec_load_users(users, index, records).0.insert(r.user_id@, r),
                spec_load_users(users, index, records).1.insert(r.username@, r.user_id),
            )
        } else {
            spec_load_users(users, index, records)
        }),
    decreases records.len(),
{
    reveal_with_fuel(spec_load_users, 3);
    if records.len() == 0 {
        assert(records.push(r).first() == r);
        assert(records.push(r).drop_first() =~= Seq::<UserIdentity>::empty());
    } else {
        assert(records.push(r).first() == records.first());
        assert(records.push(r).drop_first() =~= records.drop_first().push(r));
        let f = records.first();
        if !users.contains_key(f.user_id@) && !index.contains_key(f.username@) {
            lemma_load_users_push(
                users.insert(f.user_id@, f),
                index.insert(f.username@, f.user_id),
                records.drop_first(),
                r,
            );
        } else {
            lemma_load_users_push(users, index, records.drop_first(), r);
        }
    }
}

proof fn lemma_load_sessions_push(
    sessions: Map<Seq<char>, UserSession>,
    device_index: Map<Seq<char>, String>,
    records: Seq<UserSession>,
    r: UserSession,
)
    ensures
        spec_load_sessions(sessions, device_index, records.push(r)) == (if !spec_load_sessions(
            sessions,
            device_index,
            records,
        ).0.contains_key(r.session_id@) && !spec_load_sessions(
            sessions,
            device_index,
            records,
        ).1.contains_key(r.device_id@) {
            (
                spec_load_sessions(sessions, device_index, records).0.insert(r.session_id@, r),
                spec_load_sessions(sessions, device_index, records).1.insert(
                    r.device_id@,
                    r.session_id,
                ),
            )
        } else {
            spec_load_sessions(sessions, device_index, records)
        }),
    decreases records.len(),
{
    reveal_with_fuel(spec_load_sessions, 3);
    if records.len() == 0 {
        assert(records.push(r).first() == r);
        assert(records.push(r).drop_first() =~= Seq::<UserSession>::empty());
    } else {
        assert(records.push(r).first() == records.first());
        assert(records.push(r).drop_first() =~= records.drop_first().push(r));
        let f = records.first();
        if !sessions.contains_key(f.session_id@) && !device_index.contains_key(f.device_id@) {
            lemma_load_sessions_push(
                sessions.insert(f.session_id@, f),
                device_index.insert(f.device_id@, f.session_id),
                records.drop_first(),
                r,
            );
        } else {
            lemma_load_sessions_push(sessions, device_index, records.drop_first(), r);
        }
    }
}

proof fn lemma_load_memories_push(
    table: Map<Seq<char>, DevicePeerMemory>,
    records: Seq<DevicePeerMemory>,
    r: DevicePeerMemory,
)
    ensures
        spec_load_memories(table, records.push(r)) == (if !spec_load_memories(
            table,
            records,
        ).contains_key(r.device_id@) && memory_wf(r) {
            spec_load_memories(table, records).insert(r.device_id@, r)
        } else {
            spec_load_memories(table, records)
        }),
    decreases records.len(),
{
    reveal_with_fuel(spec_load_memories, 3);
    if records.len() == 0 {
        assert(records.push(r).first() == r);
        assert(records.push(r).drop_first() =~= Seq::<DevicePeerMemory>::empty());
    } else {
        assert(records.push(r).first() == records.first());
        assert(records.push(r).drop_first() =~= records.drop_first().push(r));
        let f = records.first();
        if !table.contains_key(f.device_id@) && memory_wf(f) {
            lemma_load_memories_push(table.insert(f.device_id@, f), records.drop_first(), r);
        } else {
            lemma_load_memories_push(table, records.drop_first(), r);
        }
    }
}

/// Rebuilds a registry from persisted records, as a restart does: records
/// whose keys collide with an earlier record, and memories that fail their
/// invariants, are skipped first-come.
pub fn registry_from_records(
    users: Vec<UserIdentity>,
    sessions: Vec<UserSession>,
    memories: Vec<DevicePeerMemory>,
) -> (r: UserRegistry)
    ensures
        r.wf(),
        ({
            let loaded = spec_load_users(
                Map::<Seq<char>, UserIdentity>::empty(),
                Map::<Seq<char>, String>::empty(),
                users@,
            );
            &&& r.users@.dom() == loaded.0.dom()
            &&& (forall|k: Seq<char>|
                #[trigger] r.users@.contains_key(k) ==> identity_like(r.users@[k], loaded.0[k]))
            &&& r.username_to_user_id@ == loaded.1
        }),
        ({
            let loaded = spec_load_sessions(
                Map::<Seq<char>, UserSession>::empty(),
                Map::<Seq<char>, String>::empty(),
                sessions@,
            );
            &&& r.sessions@ == loaded.0
            &&& r.device_sessions@ == loaded.1
        }),
        ({
            let loaded = spec_load_memories(
                Map::<Seq<char>, DevicePeerMemory>::empty(),
                memories@,
            );
            &&& r.device_peer_memory@.dom() == loaded.dom()
            &&& (forall|k: Seq<char>|
                #[trigger] r.device_peer_memory@.contains_key(k) ==> memory_like(
                    r.device_peer_memory@[k],
                    loaded[k],
                ))
        }),
{
    let mut reg = UserRegistry::new();
    let n = users.len();
    proof {
        assert(users@.take(0int) =~= Seq::<UserIdentity>::empty());
    }
    for i in 0..n
        invariant
            n == users@.len(),
            reg.wf(),
            reg.sessions@ == Map::<Seq<char>, UserSession>::empty(),
            reg.device_sessions@ == Map::<Seq<char>, String>::empty(),
            reg.device_peer_memory@ == Map::<Seq<char>, DevicePeerMemory>::empty(),
            ({
                let loaded = spec_load_users(
                    Map::<Seq<char>, UserIdentity>::empty(),
                    Map::<Seq<char>, String>::empty(),
                    users@.take(i as int),
                );
                &&& reg.users@.dom() == loaded.0.dom()
                &&& (forall|k: Seq<char>|
                    #[trigger] reg.users@.contains_key(k) ==> identity_like(
                        reg.users@[k],
                        loaded.0[k],
                    ))
                &&& reg.username_to_user_id@ == loaded.1
            }),
    {
        let u = &users[i];
        proof {
            lemma_load_users_push(
                Map::<Seq<char>, UserIdentity>::empty(),
                Map::<Seq<char>, String>::empty(),
                users@.take(i as int),
                users@[i as int],
            );
            assert(users@.take(i + 1) =~= users@.take(i as int).push(users@[i as int]));
        }
        if !reg.users.contains_key(u.user_id.as_str()) && !reg.username_to_user_id.contains_key(
            u.username.as_str(),
        ) {
            let copy = clone_identity(u);
            reg.username_to_user_id.insert(copy.username.clone(), copy.user_id.clone());
            reg.users.insert(copy.user_id.clone(), copy);
            proof {
                assert(reg.wf());
                let loaded = spec_load_users(
                    Map::<Seq<char>, UserIdentity>::empty(),
                    Map::<Seq<char>, String>::empty(),
                    users@.take(i + 1),
                );
                assert(reg.users@.dom() =~= loaded.0.dom());
                assert(reg.username_to_user_id@ =~= loaded.1);
            }
        }
    }
    proof {
        assert(users@.take(n as int) =~= users@);
    }
    let sn = sessions.len();
    proof {
        assert(sessions@.take(0int) =~= Seq::<UserSession>::empty());
    }
    for i in 0..sn
        invariant
            sn == sessions@.len(),
            reg.wf(),
            reg.users@.dom() == spec_load_users(
                Map::<Seq<char>, UserIdentity>::empty(),
                Map::<Seq<char>, String>::empty(),
                users@,
            ).0.dom(),
            forall|k: Seq<char>|
                #[trigger] reg.users@.contains_key(k) ==> identity_like(
                    reg.users@[k],
                    spec_load_users(
                        Map::<Seq<char>, UserIdentity>::empty(),
                        Map::<Seq<char>, String>::empty(),
                        users@,
                    ).0[k],
                ),
            reg.username_to_user_id@ == spec_load_users(
                Map::<Seq<char>, UserIdentity>::empty(),
                Map::<Seq<char>, String>::empty(),
                users@,
            ).1,
            reg.device_peer_memory@ == Map::<Seq<char>, DevicePeerMemory>::empty(),
            ({
                let loaded = spec_load_sessions(
                    Map::<Seq<char>, UserSession>::empty(),
                    Map::<Seq<char>, String>::empty(),
                    sessions@.take(i as int),
                );
                &&& reg.sessions@ == loaded.0
                &&& reg.device_sessions@ == loaded.1
            }),
    {
        let s = &sessions[i];
        proof {
            lemma_load_sessions_push(
                Map::<Seq<char>, UserSession>::empty(),
                Map::<Seq<char>, String>::empty(),
                sessions@.take(i as int),
                sessions@[i as int],
            );
            assert(sessions@.take(i + 1) =~= sessions@.take(i as int).push(
                sessions@[i as int],
            ));
        }
        if !reg.sessions.contains_key(s.session_id.as_str()) && !reg.device_sessions.contains_key(
            s.device_id.as_str(),
        ) {
            let copy = clone_session(s);
            reg.device_sessions.insert(copy.device_id.clone(), copy.session_id.clone());
            reg.sessions.insert(copy.session_id.clone(), copy);
            proof {
                assert(reg.wf());
            }
        }
    }
    proof {
        assert(sessions@.take(sn as int) =~= sessions@);
    }
    let mn = memories.len();
    proof {
        assert(memories@.take(0int) =~= Seq::<DevicePeerMemory>::empty());
    }
    for i in 0..mn
        invariant
            mn == memories@.len(),
            reg.wf(),
            reg.users@.dom() == spec_load_users(
                Map::<Seq<char>, UserIdentity>::empty(),
                Map::<Seq<char>, String>::empty(),
                users@,
            ).0.dom(),
            forall|k: Seq<char>|
                #[trigger] reg.users@.contains_key(k) ==> identity_like(
                    reg.users@[k],
                    spec_load_users(
                        Map::<Seq<char>, UserIdentity>::empty(),
                        Map::<Seq<char>, String>::empty(),
                        users@,
                    ).0[k],
                ),
            reg.username_to_user_id@ == spec_load_users(
                Map::<Seq<char>, UserIdentity>::empty(),
                Map::<Seq<char>, String>::empty(),
                users@,
            ).1,
            reg.sessions@ == spec_load_sessions(
                Map::<Seq<char>, UserSession>::empty(),
                Map::<Seq<char>, String>::empty(),
                sessions@,
            ).0,
            reg.device_sessions@ == spec_load_sessions(
                Map::<Seq<char>, UserSession>::empty(),
                Map::<Seq<char>, String>::empty(),
                sessions@,
            ).1,
            ({
                let loaded = spec_load_memories(
                    Map::<Seq<char>, DevicePeerMemory>::empty(),
                    memories@.take(i as int),
                );
                &&& reg.device_peer_memory@.dom() == loaded.dom()
                &&& (forall|k: Seq<char>|
                    #[trigger] reg.device_peer_memory@.contains_key(k) ==> memory_like(
                        reg.device_peer_memory@[k],
                        loaded[k],
                    ))
            }),
    {
        let m = &memories[i];
        proof {
            lemma_load_memories_push(
                Map::<Seq<char>, DevicePeerMemory>::empty(),
                memories@.take(i as int),
                memories@[i as int],
            );
            assert(memories@.take(i + 1) =~= memories@.take(i as int).push(
                memories@[i as int],
            ));
        }
        let ok = check_memory_wf(m);
        if ok && !reg.device_peer_memory.contains_key(m.device_id.as_str()) {
            let copy = DevicePeerMemory {
                device_id: m.device_id.clone(),
                known_peers: clone_strings(&m.known_peers),
                last_peer_scan: m.last_peer_scan,
                peer_connection_history: clone_connections(&m.peer_connection_history),
            };
            reg.device_peer_memory.insert(copy.device_id.clone(), copy);
            proof {
                assert(reg.wf());
                let loaded = spec_load_memories(
                    Map::<Seq<char>, DevicePeerMemory>::empty(),
                    memories@.take(i + 1),
                );
                assert(reg.device_peer_memory@.dom() =~= loaded.dom());
            }
        }
    }
    proof {
        assert(memories@.take(mn as int) =~= memories@);
    }
    reg
}

/// Whether a memory record passes the checks of `memory_wf`.
pub fn check_memory_wf(m: &DevicePeerMemory) -> (r: bool)
    ensures
        r == memory_wf(*m),
{
    let hn = m.peer_connection_history.len();
    for j in 0..hn
        invariant
            hn == m.peer_connection_history@.len(),
            forall|a: int|
                0 <= a < j ==> connection_wf(#[trigger] m.peer_connection_history@[a]),
    {
        let c = &m.peer_connection_history[j];
        let c_ok = match (c.disconnected_at, c.connection_duration) {
            (Some(end), Some(d)) => end >= c.connected_at && d == end - c.connected_at,
            (None, None) => true,
            _ => false,
        };
        proof {
            assert(c_ok == connection_wf(m.peer_connection_history@[j as int]));
        }
        if !c_ok {
            return false;
        }
    }
    let kn = m.known_peers.len();
    for a in 0..kn
        invariant
            kn == m.known_peers@.len(),
            forall|x: int|
                0 <= x < m.peer_connection_history@.len() ==> connection_wf(
                    #[trigger] m.peer_connection_history@[x],
                ),
            forall|x: int, y: int|
                0 <= x < y < a ==> (#[trigger] m.known_peers@[x])@ != (
                #[trigger] m.known_peers@[y])@,
    {
        for b in 0..a
            invariant
                a < kn,
                kn == m.known_peers@.len(),
                forall|x: int|
                    0 <= x < m.peer_connection_history@.len() ==> connection_wf(
                        #[trigger] m.peer_connection_history@[x],
                    ),
                forall|x: int, y: int|
                    0 <= x < y < a ==> (#[trigger] m.known_peers@[x])@ != (
                    #[trigger] m.known_peers@[y])@,
                forall|y: int|
                    0 <= y < b ==> (#[trigger] m.known_peers@[y])@ != m.known_peers@[a as int]@,
        {
            if str_eq(m.known_peers[b].as_str(), m.known_peers[a].as_str()) {
                return false;
            }
        }
    }
    true
}

} // verus!
