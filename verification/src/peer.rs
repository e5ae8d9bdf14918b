//! The peer-to-peer overlay state: the protocol identifiers, the message
//! schema, the discovered-peer table, the per-peer connection state machine,
//! bootstrap and allow lists, and request bookkeeping with timeouts.

use vstd::prelude::*;
use crate::errors::DafsError;
use crate::models::{EncryptedMessage, MessageAck, UserIdentity, UserStatus, ChatRoom};
use crate::registry::clone_strings;
use crate::store::FileMetadata;
use crate::util::{seq_has_string, str_eq, vec_contains_string, StringMap};

verus! {

/// The protocol identifier of the file-exchange protocol (30 s timeout).
pub const FILE_EXCHANGE_PROTOCOL: &'static str = "/dafs/file-exchange/1.0.0";

/// The protocol identifier of the messaging protocol (10 s timeout).
pub const MESSAGING_PROTOCOL: &'static str = "/dafs/messaging/1.0.0";

/// The protocol identifier of the peer-discovery protocol (15 s timeout).
pub const PEER_DISCOVERY_PROTOCOL: &'static str = "/dafs/peer-discovery/1.0.0";

/// The tagged payloads exchanged over the three request/response protocols.
pub enum P2PMessage {
    FileKeyExchange { file_id: String, encrypted_key: Vec<u8>, from: String, to: String },
    FileChunkRequest { file_id: String, chunk_index: usize, chunk_size: usize, signature: Option<
        Vec<u8>,
    > },
    FileChunkResponse { file_id: String, chunk_index: usize, data: Vec<u8> },
    FileListRequest { signature: Option<Vec<u8>> },
    FileListResponse { files: Vec<FileMetadata> },
    ModelUpdate { weights: Vec<u8>, epoch: u32 },
    EncryptedDirectMessage { message: EncryptedMessage },
    DeliveryAck { ack: MessageAck },
    PresenceUpdate { status: UserStatus },
    ChatRoomCreate { room: ChatRoom },
    ChatRoomJoin { room_id: String, username: String },
    ChatRoomLeave { room_id: String, username: String },
    ChatRoomMessage { room_id: String, message: EncryptedMessage },
    TypingIndicator { room_id: String, username: String, is_typing: bool },
    PeerDiscovery { peer_id: String, addresses: Vec<String>, user_info: Option<UserIdentity> },
    PeerPing { timestamp: u64, peer_id: String },
    PeerPong { timestamp: u64, peer_id: String },
}

/// One peer's connection state.
#[derive(Clone, Copy, Debug, PartialEq, Eq, Structural)]
pub enum PeerState {
    Unknown,
    Discovered,
    Connecting,
    Connected,
    Disconnected,
}

/// What can happen to a peer's connection.
#[derive(Clone, Copy, Debug, PartialEq, Eq, Structural)]
pub enum PeerEvent {
    RecordInserted,
    DialStarted,
    DialSucceeded,
    ConnectionClosed,
}

/// The per-peer state machine: a discovery record moves an unknown peer to
/// discovered; a successful dial connects a discovered or disconnected peer;
/// losing the connection disconnects it.
pub open spec fn spec_peer_transition(s: PeerState, e: PeerEvent) -> PeerState {
    match (s, e) {
        (PeerState::Unknown, PeerEvent::RecordInserted) => PeerState::Discovered,
        (PeerState::Discovered, PeerEvent::DialStarted) => PeerState::Connecting,
        (PeerState::Disconnected, PeerEvent::DialStarted) => PeerState::Connecting,
        (PeerState::Discovered, PeerEvent::DialSucceeded) => PeerState::Connected,
        (PeerState::Disconnected, PeerEvent::DialSucceeded) => PeerState::Connected,
        (PeerState::Connecting, PeerEvent::DialSucceeded) => PeerState::Connected,
        (PeerState::Connected, PeerEvent::ConnectionClosed) => PeerState::Disconnected,
        (s, _) => s,
    }
}

/// Advances a peer's connection state by one event.
pub fn peer_transition(s: PeerState, e: PeerEvent) -> (r: PeerState)
    ensures
        r == spec_peer_transition(s, e),
{
    match (s, e) {
        (PeerState::Unknown, PeerEvent::RecordInserted) => PeerState::Discovered,
        (PeerState::Discovered, PeerEvent::DialStarted) => PeerState::Connecting,
        (PeerState::Disconnected, PeerEvent::DialStarted) => PeerState::Connecting,
        (PeerState::Discovered, PeerEvent::DialSucceeded) => PeerState::Connected,
        (PeerState::Disconnected, PeerEvent::DialSucceeded) => PeerState::Connected,
        (PeerState::Connecting, PeerEvent::DialSucceeded) => PeerState::Connected,
        (PeerState::Connected, PeerEvent::ConnectionClosed) => PeerState::Disconnected,
        (other, _) => other,
    }
}

/// What is known about a discovered peer.
pub struct DiscoveredPeer {
    pub peer_id: String,
    pub addresses: Vec<String>,
    pub last_seen: u64,
    pub user_info: Option<UserIdentity>,
    pub is_online: bool,
    pub latency_ms: Option<u64>,
}

/// The table of discovered peers, keyed by peer id.
pub struct PeerTable {
    pub peers: StringMap<DiscoveredPeer>,
}

impl PeerTable {
    pub open spec fn wf(&self) -> bool {
        &&& self.peers.wf()
        &&& forall|k: Seq<char>|
            #[trigger] self.peers@.contains_key(k) ==> self.peers@[k].peer_id@ == k
    }

    pub fn new() -> (r: PeerTable)
        ensures
            r.wf(),
            r.peers@ == Map::<Seq<char>, DiscoveredPeer>::empty(),
    {
        PeerTable { peers: StringMap::new() }
    }

    /// Merges a discovery record: the peer is (re)inserted as online and
    /// just seen, with no latency measured yet.
    pub fn merge_discovery(
        &mut self,
        peer_id: String,
        addresses: Vec<String>,
        user_info: Option<UserIdentity>,
        now: u64,
    )
        requires
            old(self).wf(),
        ensures
            final(self).wf(),
            final(self).peers@.contains_key(peer_id@),
            final(self).peers@.remove(peer_id@) == old(self).peers@.remove(peer_id@),
            ({
                let p = final(self).peers@[peer_id@];
                &&& p.peer_id@ == peer_id@
                &&& p.addresses@ == addresses@
                &&& p.last_seen == now
                &&& p.is_online
                &&& p.latency_ms is None
            }),
    {
        let record = DiscoveredPeer {
            peer_id: peer_id.clone(),
            addresses,
            last_seen: now,
            user_info,
            is_online: true,
            latency_ms: None,
        };
        let ghost key = peer_id@;
        self.peers.insert(peer_id, record);
        proof {
            assert(final(self).peers@.remove(key) =~= old(self).peers@.remove(key));
        }
    }

    /// Records a pong: the echoed timestamp gives the round-trip latency
    /// (clamped at zero), and the peer, if known, is marked online with that
    /// latency.
    pub fn record_pong(&mut self, peer_id: &str, echoed: u64, now: u64) -> (r: u64)
        requires
            old(self).wf(),
        ensures
            final(self).wf(),
            r == (if now > echoed {
                (now - echoed) as u64
            } else {
                0u64
            }),
            !old(self).peers@.contains_key(peer_id@) ==> *final(self) == *old(self),
            old(self).peers@.contains_key(peer_id@) ==> {
                let p0 = old(self).peers@[peer_id@];
                let p1 = final(self).peers@[peer_id@];
                &&& final(self).peers@.contains_key(peer_id@)
                &&& final(self).peers@.remove(peer_id@) == old(self).peers@.remove(peer_id@)
                &&& p1.is_online
                &&& p1.latency_ms == Some(r)
                &&& p1.last_seen == now
                &&& p1.peer_id@ == p0.peer_id@
                &&& p1.addresses@ == p0.addresses@
            },
    {
        let latency = if now > echoed {
            now - echoed
        } else {
            0
        };
        let updated = match self.peers.get(peer_id) {
            Some(p) => DiscoveredPeer {
                peer_id: p.peer_id.clone(),
                addresses: clone_strings(&p.addresses),
                last_seen: now,
                user_info: None,
                is_online: true,
                latency_ms: Some(latency),
            },
            None => {
                return latency;
            },
        };
        self.peers.insert(peer_id.to_owned(), updated);
        proof {
            assert(final(self).peers@.remove(peer_id@) =~= old(self).peers@.remove(peer_id@));
        }
        latency
    }

    /// Marks a known peer online or offline; its other fields stay.
    pub fn set_online(&mut self, peer_id: &str, online: bool, now: u64)
        requires
            old(self).wf(),
        ensures
            final(self).wf(),
            !old(self).peers@.contains_key(peer_id@) ==> *final(self) == *old(self),
            old(self).peers@.contains_key(peer_id@) ==> {
                let p0 = old(self).peers@[peer_id@];
                let p1 = final(self).peers@[peer_id@];
                &&& final(self).peers@.contains_key(peer_id@)
                &&& final(self).peers@.remove(peer_id@) == old(self).peers@.remove(peer_id@)
                &&& p1.is_online == online
                &&& p1.peer_id@ == p0.peer_id@
                &&& p1.addresses@ == p0.addresses@
                &&& p1.latency_ms == p0.latency_ms
                &&& (online ==> p1.last_seen == now)
                &&& (!online ==> p1.last_seen == p0.last_seen)
            },
    {
        let updated = match self.peers.get(peer_id) {
            Some(p) => DiscoveredPeer {
                peer_id: p.peer_id.clone(),
                addresses: clone_strings(&p.addresses),
                last_seen: if online {
                    now
                } else {
                    p.last_seen
                },
                user_info: None,
                is_online: online,
                latency_ms: p.latency_ms,
            },
            None => {
                return ;
            },
        };
        self.peers.insert(peer_id.to_owned(), updated);
        proof {
            assert(final(self).peers@.remove(peer_id@) =~= old(self).peers@.remove(peer_id@));
        }
    }

    /// Forgets a peer; says whether it was known.
    pub fn remove_peer(&mut self, peer_id: &str) -> (r: bool)
        requires
            old(self).wf(),
        ensures
            final(self).wf(),
            r == old(self).peers@.contains_key(peer_id@),
            final(self).peers@ == old(self).peers@.remove(peer_id@),
    {
        match self.peers.remove(peer_id) {
            Some(_) => true,
            None => false,
        }
    }

    /// Whether a peer is known.
    pub fn knows(&self, peer_id: &str) -> (r: bool)
        requires
            self.wf(),
        ensures
            r == self.peers@.contains_key(peer_id@),
    {
        self.peers.contains_key(peer_id)
    }
}

/// The outcome of a ping: a pong within the protocol window gives the
/// round-trip latency; no pong within the window surfaces a timeout.
pub fn ping_outcome(pong_echo: Option<u64>, now: u64) -> (r: Result<u64, DafsError>)
    ensures
        pong_echo matches Some(t) ==> r == Ok::<u64, DafsError>(
            if now > t {
                (now - t) as u64
            } else {
                0u64
            },
        ),
        pong_echo is None ==> r == Err::<u64, DafsError>(DafsError::Timeout),
{
    match pong_echo {
        Some(t) => Ok(
            if now > t {
                now - t
            } else {
                0
            },
        ),
        None => Err(DafsError::Timeout),
    }
}

/// The process-wide allow list of peers whose file-exchange requests are
/// honored.
pub struct AllowList {
    pub peers: Vec<String>,
}

impl AllowList {
    pub fn new() -> (r: AllowList)
        ensures
            r.peers@.len() == 0,
    {
        AllowList { peers: Vec::new() }
    }

    /// Admits a peer.
    pub fn allow_peer(&mut self, peer_id: &str)
        ensures
            final(self).peers@.len() == old(self).peers@.len() + 1,
            final(self).peers@.take(old(self).peers@.len() as int) == old(self).peers@,
            final(self).peers@.last()@ == peer_id@,
            seq_has_string(final(self).peers@, peer_id@),
    {
        self.peers.push(peer_id.to_owned());
        proof {
            assert(final(self).peers@.take(old(self).peers@.len() as int) =~= old(self).peers@);
            assert(final(self).peers@.last()@ == peer_id@);
        }
    }

    /// Expels a peer: every entry with that id is dropped.
    pub fn disallow_peer(&mut self, peer_id: &str)
        ensures
            final(self).peers@ == old(self).peers@.filter(|p: String| p@ != peer_id@),
            !seq_has_string(final(self).peers@, peer_id@),
    {
        let ghost pred = |p: String| p@ != peer_id@;
        let mut kept: Vec<String> = Vec::new();
        let n = self.peers.len();
        proof {
            reveal(Seq::filter);
            assert(self.peers@.take(0int) =~= Seq::<String>::empty());
        }
        for i in 0..n
            invariant
                n == self.peers@.len(),
                self.peers@ == old(self).peers@,
                pred == (|p: String| p@ != peer_id@),
                kept@ == self.peers@.take(i as int).filter(pred),
                forall|j: int| 0 <= j < kept@.len() ==> (#[trigger] kept@[j])@ != peer_id@,
        {
            proof {
                reveal(Seq::filter);
                assert(self.peers@.take(i + 1).drop_last() =~= self.peers@.take(i as int));
                assert(self.peers@.take(i + 1).last() == self.peers@[i as int]);
            }
            if !str_eq(self.peers[i].as_str(), peer_id) {
                kept.push(self.peers[i].clone());
            }
        }
        proof {
            assert(self.peers@.take(n as int) =~= self.peers@);
        }
        self.peers = kept;
    }

    /// The current allow list.
    pub fn list_allowed_peers(&self) -> (r: Vec<String>)
        ensures
            r@ == self.peers@,
    {
        clone_strings(&self.peers)
    }

    /// Whether a peer is on the list.
    pub fn is_allowed(&self, peer_id: &str) -> (r: bool)
        ensures
            r == seq_has_string(self.peers@, peer_id@),
    {
        vec_contains_string(&self.peers, peer_id)
    }
}

/// Answers a chunk request at the overlay: an allowed peer gets the chunk's
/// bytes, anyone else an empty payload (liveness and nothing more).
pub fn answer_chunk_request(
    allow: &AllowList,
    requester: &str,
    data: &Vec<u8>,
    chunk_index: usize,
    chunk_size: usize,
) -> (r: Vec<u8>)
    ensures
        seq_has_string(allow.peers@, requester@) ==> r@ == crate::filestore::spec_chunk(
            data@,
            chunk_index as nat,
            chunk_size as nat,
        ),
        !seq_has_string(allow.peers@, requester@) ==> r@.len() == 0,
{
    if allow.is_allowed(requester) {
        crate::filestore::read_chunk(data, chunk_index, chunk_size)
    } else {
        Vec::new()
    }
}

/// The persisted list of bootstrap nodes: peer id and address pairs.
pub struct BootstrapList {
    pub nodes: Vec<(String, String)>,
}

impl BootstrapList {
    pub fn new() -> (r: BootstrapList)
        ensures
            r.nodes@.len() == 0,
    {
        BootstrapList { nodes: Vec::new() }
    }

    /// Appends a bootstrap node. The syntactic validity of the peer id and
    /// the multiaddress is the transport adapter's to check before calling:
    /// this list stores whatever identifiers it is given.
    pub fn add_bootstrap_node(&mut self, peer_id: &str, address: &str)
        ensures
            final(self).nodes@.len() == old(self).nodes@.len() + 1,
            final(self).nodes@.take(old(self).nodes@.len() as int) == old(self).nodes@,
            final(self).nodes@.last().0@ == peer_id@,
            final(self).nodes@.last().1@ == address@,
    {
        self.nodes.push((peer_id.to_owned(), address.to_owned()));
        proof {
            assert(final(self).nodes@.take(old(self).nodes@.len() as int) =~= old(self).nodes@);
        }
    }

    /// Drops every node with the given peer id.
    pub fn remove_bootstrap_node(&mut self, peer_id: &str)
        ensures
            final(self).nodes@ == old(self).nodes@.filter(
                |e: (String, String)| e.0@ != peer_id@,
            ),
    {
        let ghost pred = |e: (String, String)| e.0@ != peer_id@;
        let mut kept: Vec<(String, String)> = Vec::new();
        let n = self.nodes.len();
        proof {
            reveal(Seq::filter);
            assert(self.nodes@.take(0int) =~= Seq::<(String, String)>::empty());
        }
        for i in 0..n
            invariant
                n == self.nodes@.len(),
                self.nodes@ == old(self).nodes@,
                pred == (|e: (String, String)| e.0@ != peer_id@),
                kept@ == self.nodes@.take(i as int).filter(pred),
        {
            proof {
                reveal(Seq::filter);
                assert(self.nodes@.take(i + 1).drop_last() =~= self.nodes@.take(i as int));
                assert(self.nodes@.take(i + 1).last() == self.nodes@[i as int]);
            }
            if !str_eq(self.nodes[i].0.as_str(), peer_id) {
                kept.push((self.nodes[i].0.clone(), self.nodes[i].1.clone()));
                proof {
                    assert(kept@.last() == self.nodes@[i as int]);
                    assert(kept@ =~= kept@.drop_last().push(self.nodes@[i as int]));
                }
            }
        }
        proof {
            assert(self.nodes@.take(n as int) =~= self.nodes@);
        }
        self.nodes = kept;
    }

    /// The current list, as peer id and address pairs.
    pub fn list_bootstrap_nodes(&self) -> (r: Vec<(String, String)>)
        ensures
            r@ == self.nodes@,
    {
        let mut r: Vec<(String, String)> = Vec::new();
        let n = self.nodes.len();
        for i in 0..n
            invariant
                n == self.nodes@.len(),
                r@ == self.nodes@.take(i as int),
        {
            r.push((self.nodes[i].0.clone(), self.nodes[i].1.clone()));
            proof {
                assert(r@ =~= self.nodes@.take(i + 1));
            }
        }
        proof {
            assert(self.nodes@.take(n as int) =~= self.nodes@);
        }
        r
    }
}

/// The pending-response table of outbound requests: each outstanding request
/// id is tracked once, and a reply or a timeout retires it.
pub struct RequestTracker {
    pub next_id: u64,
    pub pending: Vec<u64>,
}

impl RequestTracker {
    pub open spec fn wf(&self) -> bool {
        forall|i: int|
            0 <= i < self.pending@.len() ==> #[trigger] self.pending@[i] < self.next_id
    }

    pub fn new() -> (r: RequestTracker)
        ensures
            r.wf(),
            r.pending@.len() == 0,
            r.next_id == 0,
    {
        RequestTracker { next_id: 0, pending: Vec::new() }
    }

    /// Allocates a fresh request id, distinct from every outstanding one.
    pub fn allocate(&mut self) -> (r: u64)
        requires
            old(self).wf(),
            old(self).next_id < u64::MAX,
        ensures
            final(self).wf(),
            r == old(self).next_id,
            !old(self).pending@.contains(r),
            final(self).pending@ == old(self).pending@.push(r),
            final(self).next_id == old(self).next_id + 1,
    {
        let id = self.next_id;
        proof {
            if old(self).pending@.contains(id) {
                let i = choose|i: int|
                    0 <= i < old(self).pending@.len() && old(self).pending@[i] == id;
                assert(old(self).pending@[i] < id);
            }
        }
        self.pending.push(id);
        self.next_id = self.next_id + 1;
        id
    }

    /// Retires a request on reply or timeout; says whether it was pending,
    /// so a late reply to a request already timed out is discarded.
    pub fn retire(&mut self, id: u64) -> (r: bool)
        requires
            old(self).wf(),
        ensures
            final(self).wf(),
            r == old(self).pending@.contains(id),
            final(self).pending@ == old(self).pending@.filter(|x: u64| x != id),
            final(self).next_id == old(self).next_id,
    {
        let ghost pred = |x: u64| x != id;
        let mut kept: Vec<u64> = Vec::new();
        let n = self.pending.len();
        let mut found = false;
        proof {
            reveal(Seq::filter);
            assert(self.pending@.take(0int) =~= Seq::<u64>::empty());
        }
        for i in 0..n
            invariant
                n == self.pending@.len(),
                self.pending@ == old(self).pending@,
                self.next_id == old(self).next_id,
                old(self).wf(),
                pred == (|x: u64| x != id),
                kept@ == self.pending@.take(i as int).filter(pred),
                forall|l: int| 0 <= l < kept@.len() ==> #[trigger] kept@[l] < old(self).next_id,
                found == exists|j: int| 0 <= j < i && self.pending@[j] == id,
        {
            proof {
                reveal(Seq::filter);
                assert(self.pending@.take(i + 1).drop_last() =~= self.pending@.take(i as int));
                assert(self.pending@.take(i + 1).last() == self.pending@[i as int]);
            }
            if self.pending[i] == id {
                found = true;
            } else {
                kept.push(self.pending[i]);
            }
        }
        proof {
            assert(self.pending@.take(n as int) =~= self.pending@);
            assert(found == old(self).pending@.contains(id)) by {
                if old(self).pending@.contains(id) {
                    let j = choose|j: int|
                        0 <= j < old(self).pending@.len() && old(self).pending@[j] == id;
                    assert(0 <= j < n && self.pending@[j] == id);
                }
            }
        }
        self.pending = kept;
        found
    }
}

/// The responder side of a ping: echoes its own clock and peer id, as the
/// discovery protocol answers a `PeerPing` with a `PeerPong`.
pub fn answer_ping(self_peer_id: &str, now: u64) -> (r: P2PMessage)
    ensures
        r matches P2PMessage::PeerPong { timestamp, peer_id } && timestamp == now && peer_id@
            == self_peer_id@,
{
    P2PMessage::PeerPong { timestamp: now, peer_id: self_peer_id.to_owned() }
}

/// Request-signature checking over the overlay: not yet implemented, so
/// every signature is accepted.
pub fn verify_signature(peer_id: &str, data: &Vec<u8>, signature: &Vec<u8>) -> (r: bool)
    ensures
        r,
{
    true
}

} // verus!

verus! {

/// Answers one decoded discovery-protocol request, as the responder's match
/// does: a ping is answered with a pong echoing the caller's timestamp and
/// peer id; a discovery record is merged into the table and answered with
/// this node's own record; anything else gets no reply.
pub fn handle_discovery_request(
    table: &mut PeerTable,
    msg: &P2PMessage,
    self_peer_id: &str,
    self_addresses: &Vec<String>,
    now: u64,
) -> (r: Option<P2PMessage>)
    requires
        old(table).wf(),
    ensures
        final(table).wf(),
        msg matches P2PMessage::PeerPing { timestamp, ref peer_id } ==> *final(table) == *old(
            table,
        ) && (r matches Some(reply) && reply matches P2PMessage::PeerPong {
            timestamp: t2,
            peer_id: ref p2,
        } && t2 == now && p2@ == peer_id@),
        msg matches P2PMessage::PeerDiscovery { ref peer_id, ref addresses, .. } ==> {
            &&& final(table).peers@.contains_key(peer_id@)
            &&& final(table).peers@.remove(peer_id@) == old(table).peers@.remove(peer_id@)
            &&& final(table).peers@[peer_id@].addresses@ == addresses@
            &&& final(table).peers@[peer_id@].is_online
            &&& final(table).peers@[peer_id@].last_seen == now
            &&& (r matches Some(reply) && reply matches P2PMessage::PeerDiscovery {
                peer_id: ref rp,
                addresses: ref ra,
                user_info: ref ru,
            } && rp@ == self_peer_id@ && ra@ == self_addresses@ && ru is None)
        },
        !(msg is PeerPing) && !(msg is PeerDiscovery) ==> r is None && *final(table) == *old(
            table,
        ),
{
    match msg {
        P2PMessage::PeerPing { timestamp: _, peer_id } => Some(
            P2PMessage::PeerPong { timestamp: now, peer_id: peer_id.clone() },
        ),
        P2PMessage::PeerDiscovery { peer_id, addresses, user_info: _ } => {
            table.merge_discovery(peer_id.clone(), clone_strings(addresses), None, now);
            Some(
                P2PMessage::PeerDiscovery {
                    peer_id: self_peer_id.to_owned(),
                    addresses: clone_strings(self_addresses),
                    user_info: None,
                },
            )
        },
        _ => None,
    }
}

/// Answers one decoded file-exchange request, as the responder's match does.
/// A chunk request is answered from the stored blob the adapter read, empty
/// unless the requester is on the allow list; a pushed file key joins the
/// named record's shared keys; a model blob is averaged into the local
/// model; anything else gets no reply.
pub fn handle_file_request(
    allow: &AllowList,
    requester: &str,
    storage: &mut crate::store::Storage,
    model: &mut crate::recommend::NCFModel,
    file_bytes: &Vec<u8>,
    msg: &P2PMessage,
) -> (r: Option<P2PMessage>)
    requires
        old(model).wf(),
    ensures
        final(model).wf(),
        msg matches P2PMessage::FileChunkRequest {
            ref file_id,
            chunk_index,
            chunk_size,
            ..
        } ==> {
            &&& *final(storage) == *old(storage)
            &&& *final(model) == *old(model)
            &&& (r matches Some(reply) && reply matches P2PMessage::FileChunkResponse {
                file_id: ref rf,
                chunk_index: rc,
                data: ref rd,
            } && rf@ == file_id@ && rc == chunk_index && (crate::util::seq_has_string(
                allow.peers@,
                requester@,
            ) ==> rd@ == crate::filestore::spec_chunk(
                file_bytes@,
                chunk_index as nat,
                chunk_size as nat,
            )) && (!crate::util::seq_has_string(allow.peers@, requester@) ==> rd@.len() == 0))
        },
        msg matches P2PMessage::ModelUpdate { ref weights, .. } ==> {
            &&& *final(storage) == *old(storage)
            &&& r is None
            &&& (crate::recommend::dec_model(weights@) is None ==> *final(model) == *old(model))
        },
        msg is FileKeyExchange ==> *final(model) == *old(model) && r is None,
        !(msg is FileChunkRequest) && !(msg is ModelUpdate) && !(msg is FileKeyExchange) ==> r
            is None && *final(storage) == *old(storage) && *final(model) == *old(model),
{
    match msg {
        P2PMessage::FileChunkRequest { file_id, chunk_index, chunk_size, signature: _ } => {
            let data = answer_chunk_request(allow, requester, file_bytes, *chunk_index, *chunk_size);
            Some(
                P2PMessage::FileChunkResponse {
                    file_id: file_id.clone(),
                    chunk_index: *chunk_index,
                    data,
                },
            )
        },
        P2PMessage::FileKeyExchange { file_id, encrypted_key, from: _, to } => {
            match storage.get_metadata(file_id.as_str()) {
                Ok(Some(mut meta)) => {
                    crate::filestore::accept_shared_key(
                        &mut meta,
                        to.as_str(),
                        crate::models::clone_bytes(encrypted_key),
                    );
                    let _ = storage.insert_metadata(&meta);
                },
                _ => {},
            }
            None
        },
        P2PMessage::ModelUpdate { weights, epoch: _ } => {
            let _ = crate::recommend::aggregate_model_bytes(model, weights);
            None
        },
        _ => None,
    }
}

} // verus!
