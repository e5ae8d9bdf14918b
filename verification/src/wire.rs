//! The wire format of the overlay: every `P2PMessage` variant as a
//! self-describing tagged binary payload, with a proved round trip.
//!
//! Nested records (messages, rooms, identities, file records) are framed as
//! length-prefixed blobs of their own encodings, so each decoder reads its
//! frame and hands the bytes to the record's decoder.

use vstd::prelude::*;
use crate::codec::{
    dec_bool, dec_bytes, dec_opt_bytes, dec_opt_str, dec_str, dec_u32, dec_u64, dec_u8, enc_bool,
    enc_bytes, enc_opt_bytes, enc_opt_str, enc_str, enc_u32, enc_u64, enc_u8, lemma_dec_bool,
    lemma_dec_bytes, lemma_dec_opt_bytes, lemma_dec_opt_str, lemma_dec_str, lemma_dec_u32,
    lemma_dec_u64, lemma_dec_u8, lemma_subrange_split, put_bool, put_bytes, put_opt_bytes,
    put_opt_str, put_str, put_u32, put_u64, put_u8, take_bool, take_bytes, take_opt_bytes,
    take_opt_str, take_str, take_u32, take_u64, take_u8,
};
use crate::models::{
    DeviceType, EncryptedMessage, MessageAck, MessageType, UserDevice, UserIdentity, UserStatus,
    ChatRoom,
};

verus! {

// ---- lists of length-prefixed blobs, the container for nested records ----

pub open spec fn enc_blobs(l: Seq<Seq<u8>>) -> Seq<u8>
    decreases l.len(),
{
    if l.len() == 0 {
        Seq::empty()
    } else {
        enc_blobs(l.drop_last()) + enc_bytes(l.last())
    }
}

pub open spec fn enc_blob_list(l: Seq<Seq<u8>>) -> Seq<u8> {
    enc_u64(l.len() as u64) + enc_blobs(l)
}

pub open spec fn dec_blobs(s: Seq<u8>, pos: int, n: nat) -> Option<(Seq<Seq<u8>>, int)>
    decreases n,
{
    if n == 0 {
        if 0 <= pos && pos <= s.len() {
            Some((Seq::empty(), pos))
        } else {
            None
        }
    } else {
        match dec_blobs(s, pos, (n - 1) as nat) {
            Some((l, p)) => match dec_bytes(s, p) {
                Some((v, p2)) => Some((l.push(v), p2)),
                None => None,
            },
            None => None,
        }
    }
}

pub open spec fn dec_blob_list(s: Seq<u8>, pos: int) -> Option<(Seq<Seq<u8>>, int)> {
    match dec_u64(s, pos) {
        Some((n, p)) => dec_blobs(s, p, n as nat),
        None => None,
    }
}

pub open spec fn bounded_blobs(l: Seq<Seq<u8>>) -> bool {
    forall|i: int| 0 <= i < l.len() ==> (#[trigger] l[i]).len() <= u64::MAX
}

pub proof fn lemma_dec_blobs(s: Seq<u8>, pos: int, l: Seq<Seq<u8>>)
    requires
        0 <= pos,
        bounded_blobs(l),
        pos + enc_blobs(l).len() <= s.len(),
        s.subrange(pos, pos + enc_blobs(l).len()) == enc_blobs(l),
    ensures
        dec_blobs(s, pos, l.len()) == Some((l, pos + enc_blobs(l).len())),
    decreases l.len(),
{
    if l.len() > 0 {
        let w = l.drop_last();
        vstd::bytes::lemma_auto_spec_u64_to_from_le_bytes();
        lemma_subrange_split(s, pos, enc_blobs(w), enc_bytes(l.last()));
        lemma_dec_blobs(s, pos, w);
        lemma_dec_bytes(s, pos + enc_blobs(w).len() as int, l.last());
        assert(w.push(l.last()) =~= l);
    }
}

pub proof fn lemma_dec_blob_list(s: Seq<u8>, pos: int, l: Seq<Seq<u8>>)
    requires
        0 <= pos,
        l.len() <= u64::MAX,
        bounded_blobs(l),
        pos + enc_blob_list(l).len() <= s.len(),
        s.subrange(pos, pos + enc_blob_list(l).len()) == enc_blob_list(l),
    ensures
        dec_blob_list(s, pos) == Some((l, pos + enc_blob_list(l).len())),
{
    vstd::bytes::lemma_auto_spec_u64_to_from_le_bytes();
    lemma_subrange_split(s, pos, enc_u64(l.len() as u64), enc_blobs(l));
    lemma_dec_u64(s, pos, l.len() as u64);
    lemma_dec_blobs(s, pos + 8, l);
}

/// Writes a list of blobs, each length-prefixed.
pub fn put_blob_list(out: &mut Vec<u8>, l: &Vec<Vec<u8>>)
    ensures
        final(out)@ == old(out)@ + enc_blob_list(l@.map_values(|b: Vec<u8>| b@)),
        bounded_blobs(l@.map_values(|b: Vec<u8>| b@)),
        l@.map_values(|b: Vec<u8>| b@).len() <= u64::MAX,
{
    let ghost lv = l@.map_values(|b: Vec<u8>| b@);
    put_u64(out, l.len() as u64);
    let n = l.len();
    for i in 0..n
        invariant
            n == l@.len(),
            lv == l@.map_values(|b: Vec<u8>| b@),
            out@ == old(out)@ + enc_u64(lv.len() as u64) + enc_blobs(lv.take(i as int)),
            bounded_blobs(lv.take(i as int)),
    {
        put_bytes(out, &l[i]);
        proof {
            assert(lv.take(i + 1).drop_last() =~= lv.take(i as int));
            assert(lv.take(i + 1).last() == lv[i as int]);
            assert(out@ =~= old(out)@ + enc_u64(lv.len() as u64) + enc_blobs(lv.take(i + 1)));
            assert(bounded_blobs(lv.take(i + 1)));
        }
    }
    proof {
        assert(lv.take(n as int) =~= lv);
        assert(final(out)@ =~= old(out)@ + enc_blob_list(lv));
    }
}

/// Reads a list of blobs.
pub fn take_blob_list(s: &Vec<u8>, pos: usize) -> (r: Option<(Vec<Vec<u8>>, usize)>)
    ensures
        match r {
            Some((v, p)) => dec_blob_list(s@, pos as int) == Some(
                (v@.map_values(|b: Vec<u8>| b@), p as int),
            ),
            None => dec_blob_list(s@, pos as int) is None,
        },
{
    let (n64, p0) = match take_u64(s, pos) {
        Some(x) => x,
        None => {
            return None;
        },
    };
    let ghost n_spec = n64 as nat;
    let buf_len = s.len();
    if n64 > (usize::MAX as u64) / 8 {
        proof {
            assert(s@.len() == buf_len as nat);
            assert(8 * n_spec > usize::MAX as nat);
            lemma_dec_blobs_min(s@, p0 as int, n_spec);
        }
        return None;
    }
    let n = n64 as usize;
    let mut out: Vec<Vec<u8>> = Vec::new();
    let mut p = p0;
    let mut i: usize = 0;
    while i < n
        invariant
            i <= n,
            n_spec == n as nat,
            n_spec == n64 as nat,
            dec_u64(s@, pos as int) == Some((n64, p0 as int)),
            dec_blobs(s@, p0 as int, i as nat) == Some(
                (out@.map_values(|b: Vec<u8>| b@), p as int),
            ),
        decreases n - i,
    {
        let (v, p2) = match take_bytes(s, p) {
            Some(x) => x,
            None => {
                proof {
                    lemma_dec_blobs_stuck(s@, p0 as int, i as nat, n_spec, p as int);
                }
                return None;
            },
        };
        out.push(v);
        p = p2;
        i = i + 1;
        proof {
            assert(out@.map_values(|b: Vec<u8>| b@) =~= out@.map_values(
                |b: Vec<u8>| b@,
            ).drop_last().push(out@.last()@));
            assert(out@.map_values(|b: Vec<u8>| b@).drop_last() =~= out@.drop_last().map_values(
                |b: Vec<u8>| b@,
            ));
        }
    }
    Some((out, p))
}

proof fn lemma_dec_blobs_stuck(s: Seq<u8>, pos: int, i: nat, n: nat, p: int)
    requires
        i < n,
        dec_blobs(s, pos, i) matches Some(x) && x.1 == p,
        dec_bytes(s, p) is None,
    ensures
        dec_blobs(s, pos, n) is None,
    decreases n,
{
    if n == i + 1 {
    } else {
        lemma_dec_blobs_stuck(s, pos, i, (n - 1) as nat, p);
    }
}

proof fn lemma_dec_blobs_advance(s: Seq<u8>, pos: int, n: nat)
    requires
        dec_blobs(s, pos, n) is Some,
    ensures
        dec_blobs(s, pos, n) matches Some(x) && x.1 >= pos + 8 * n && x.1 <= s.len() && pos >= 0,
    decreases n,
{
    if n > 0 {
        lemma_dec_blobs_advance(s, pos, (n - 1) as nat);
    }
}

proof fn lemma_dec_blobs_min(s: Seq<u8>, pos: int, n: nat)
    requires
        8 * n > s.len(),
    ensures
        dec_blobs(s, pos, n) is None,
{
    if dec_blobs(s, pos, n) is Some {
        lemma_dec_blobs_advance(s, pos, n);
    }
}

} // verus!

verus! {

// ---- enum tags ----

pub open spec fn mtype_tag(t: MessageType) -> u8 {
    match t {
        MessageType::Text => 0,
        MessageType::File => 1,
        MessageType::Image => 2,
        MessageType::Voice => 3,
        MessageType::System => 4,
    }
}

pub open spec fn dec_mtype(s: Seq<u8>, pos: int) -> Option<(MessageType, int)> {
    match dec_u8(s, pos) {
        Some((t, p)) => if t == 0 {
            Some((MessageType::Text, p))
        } else if t == 1 {
            Some((MessageType::File, p))
        } else if t == 2 {
            Some((MessageType::Image, p))
        } else if t == 3 {
            Some((MessageType::Voice, p))
        } else if t == 4 {
            Some((MessageType::System, p))
        } else {
            None
        },
        None => None,
    }
}

fn put_mtype(out: &mut Vec<u8>, t: MessageType)
    ensures
        final(out)@ == old(out)@ + enc_u8(mtype_tag(t)),
{
    let tag: u8 = match t {
        MessageType::Text => 0,
        MessageType::File => 1,
        MessageType::Image => 2,
        MessageType::Voice => 3,
        MessageType::System => 4,
    };
    put_u8(out, tag);
}

fn take_mtype(s: &Vec<u8>, pos: usize) -> (r: Option<(MessageType, usize)>)
    ensures
        match r {
            Some((v, p)) => dec_mtype(s@, pos as int) == Some((v, p as int)),
            None => dec_mtype(s@, pos as int) is None,
        },
{
    match take_u8(s, pos) {
        Some((0, p)) => Some((MessageType::Text, p)),
        Some((1, p)) => Some((MessageType::File, p)),
        Some((2, p)) => Some((MessageType::Image, p)),
        Some((3, p)) => Some((MessageType::Voice, p)),
        Some((4, p)) => Some((MessageType::System, p)),
        _ => None,
    }
}

pub proof fn lemma_dec_mtype(s: Seq<u8>, pos: int, t: MessageType)
    requires
        0 <= pos,
        pos + 1 <= s.len(),
        s.subrange(pos, pos + 1) == enc_u8(mtype_tag(t)),
    ensures
        dec_mtype(s, pos) == Some((t, pos + 1)),
{
    lemma_dec_u8(s, pos, mtype_tag(t));
}

pub open spec fn dtype_tag(t: DeviceType) -> u8 {
    match t {
        DeviceType::Desktop => 0,
        DeviceType::Laptop => 1,
        DeviceType::Mobile => 2,
        DeviceType::Tablet => 3,
        DeviceType::Server => 4,
        DeviceType::Unknown => 5,
    }
}

pub open spec fn dec_dtype(s: Seq<u8>, pos: int) -> Option<(DeviceType, int)> {
    match dec_u8(s, pos) {
        Some((t, p)) => if t == 0 {
            Some((DeviceType::Desktop, p))
        } else if t == 1 {
            Some((DeviceType::Laptop, p))
        } else if t == 2 {
            Some((DeviceType::Mobile, p))
        } else if t == 3 {
            Some((DeviceType::Tablet, p))
        } else if t == 4 {
            Some((DeviceType::Server, p))
        } else if t == 5 {
            Some((DeviceType::Unknown, p))
        } else {
            None
        },
        None => None,
    }
}

fn put_dtype(out: &mut Vec<u8>, t: DeviceType)
    ensures
        final(out)@ == old(out)@ + enc_u8(dtype_tag(t)),
{
    let tag: u8 = match t {
        DeviceType::Desktop => 0,
        DeviceType::Laptop => 1,
        DeviceType::Mobile => 2,
        DeviceType::Tablet => 3,
        DeviceType::Server => 4,
        DeviceType::Unknown => 5,
    };
    put_u8(out, tag);
}

fn take_dtype(s: &Vec<u8>, pos: usize) -> (r: Option<(DeviceType, usize)>)
    ensures
        match r {
            Some((v, p)) => dec_dtype(s@, pos as int) == Some((v, p as int)),
            None => dec_dtype(s@, pos as int) is None,
        },
{
    match take_u8(s, pos) {
        Some((0, p)) => Some((DeviceType::Desktop, p)),
        Some((1, p)) => Some((DeviceType::Laptop, p)),
        Some((2, p)) => Some((DeviceType::Mobile, p)),
        Some((3, p)) => Some((DeviceType::Tablet, p)),
        Some((4, p)) => Some((DeviceType::Server, p)),
        Some((5, p)) => Some((DeviceType::Unknown, p)),
        _ => None,
    }
}

pub proof fn lemma_dec_dtype(s: Seq<u8>, pos: int, t: DeviceType)
    requires
        0 <= pos,
        pos + 1 <= s.len(),
        s.subrange(pos, pos + 1) == enc_u8(dtype_tag(t)),
    ensures
        dec_dtype(s, pos) == Some((t, pos + 1)),
{
    lemma_dec_u8(s, pos, dtype_tag(t));
}

// ---- message records ----

/// The mathematical content of a message record.
#[verifier::ext_equal]
pub struct MsgView {
    pub id: Seq<char>,
    pub sender_id: Seq<char>,
    pub recipient_id: Seq<char>,
    pub encrypted_content: Seq<u8>,
    pub timestamp: u64,
    pub message_type: MessageType,
    pub signature: Option<Seq<u8>>,
    pub device_id: Seq<char>,
}

impl View for EncryptedMessage {
    type V = MsgView;

    open spec fn view(&self) -> MsgView {
        MsgView {
            id: self.id@,
            sender_id: self.sender_id@,
            recipient_id: self.recipient_id@,
            encrypted_content: self.encrypted_content@,
            timestamp: self.timestamp,
            message_type: self.message_type,
            signature: match self.signature {
                Some(ref s) => Some(s@),
                None => None,
            },
            device_id: self.device_id@,
        }
    }
}

pub open spec fn enc_msg(m: MsgView) -> Seq<u8> {
    enc_str(m.id) + enc_str(m.sender_id) + enc_str(m.recipient_id) + enc_bytes(
        m.encrypted_content,
    ) + enc_u64(m.timestamp) + enc_u8(mtype_tag(m.message_type)) + enc_opt_bytes(m.signature)
        + enc_str(m.device_id)
}

pub open spec fn dec_msg(s: Seq<u8>) -> Option<MsgView> {
    match dec_str(s, 0) {
        Some((id, p1)) => match dec_str(s, p1) {
            Some((sender_id, p2)) => match dec_str(s, p2) {
                Some((recipient_id, p3)) => match dec_bytes(s, p3) {
                    Some((encrypted_content, p4)) => match dec_u64(s, p4) {
                        Some((timestamp, p5)) => match dec_mtype(s, p5) {
                            Some((message_type, p6)) => match dec_opt_bytes(s, p6) {
                                Some((signature, p7)) => match dec_str(s, p7) {
                                    Some((device_id, _p8)) => Some(
                                        MsgView {
                                            id,
                                            sender_id,
                                            recipient_id,
                                            encrypted_content,
                                            timestamp,
                                            message_type,
                                            signature,
                                            device_id,
                                        },
                                    ),
                                    None => None,
                                },
                                None => None,
                            },
                            None => None,
                        },
                        None => None,
                    },
                    None => None,
                },
                None => None,
            },
            None => None,
        },
        None => None,
    }
}

pub open spec fn msg_bounded(m: MsgView) -> bool {
    &&& m.id.len() <= u64::MAX
    &&& m.sender_id.len() <= u64::MAX
    &&& m.recipient_id.len() <= u64::MAX
    &&& m.encrypted_content.len() <= u64::MAX
    &&& (m.signature matches Some(v) ==> v.len() <= u64::MAX)
    &&& m.device_id.len() <= u64::MAX
}

/// Law: a message record decodes back from its encoding.
#[verifier::rlimit(60)]
#[verifier::spinoff_prover]
pub proof fn lemma_msg_round_trip(m: MsgView)
    requires
        msg_bounded(m),
    ensures
        dec_msg(enc_msg(m)) == Some(m),
{
    let s = enc_msg(m);
    let e1 = enc_str(m.id);
    let e2 = enc_str(m.sender_id);
    let e3 = enc_str(m.recipient_id);
    let e4 = enc_bytes(m.encrypted_content);
    let e5 = enc_u64(m.timestamp);
    let e6 = enc_u8(mtype_tag(m.message_type));
    let e7 = enc_opt_bytes(m.signature);
    let e8 = enc_str(m.device_id);
    vstd::bytes::lemma_auto_spec_u64_to_from_le_bytes();
    assert(s =~= e1 + (e2 + (e3 + (e4 + (e5 + (e6 + (e7 + e8)))))));
    assert(s.subrange(0, s.len() as int) =~= s);
    let p0: int = 0;
    lemma_subrange_split(s, p0, e1, e2 + (e3 + (e4 + (e5 + (e6 + (e7 + e8))))));
    lemma_dec_str(s, p0, m.id);
    let p1 = p0 + e1.len() as int;
    lemma_subrange_split(s, p1, e2, e3 + (e4 + (e5 + (e6 + (e7 + e8)))));
    lemma_dec_str(s, p1, m.sender_id);
    let p2 = p1 + e2.len() as int;
    lemma_subrange_split(s, p2, e3, e4 + (e5 + (e6 + (e7 + e8))));
    lemma_dec_str(s, p2, m.recipient_id);
    let p3 = p2 + e3.len() as int;
    lemma_subrange_split(s, p3, e4, e5 + (e6 + (e7 + e8)));
    lemma_dec_bytes(s, p3, m.encrypted_content);
    let p4 = p3 + e4.len() as int;
    lemma_subrange_split(s, p4, e5, e6 + (e7 + e8));
    lemma_dec_u64(s, p4, m.timestamp);
    let p5 = p4 + e5.len() as int;
    lemma_subrange_split(s, p5, e6, e7 + e8);
    lemma_dec_mtype(s, p5, m.message_type);
    let p6 = p5 + e6.len() as int;
    lemma_subrange_split(s, p6, e7, e8);
    lemma_dec_opt_bytes(s, p6, m.signature);
    let p7 = p6 + e7.len() as int;
    assert(s.subrange(p7, p7 + e8.len() as int) =~= e8);
    lemma_dec_str(s, p7, m.device_id);
    assert(dec_msg(s) =~= Some(m));
}

/// Encodes a message record.
pub fn encode_message_record(m: &EncryptedMessage) -> (out: Vec<u8>)
    ensures
        out@ == enc_msg(m@),
        msg_bounded(m@),
{
    let mut out: Vec<u8> = Vec::new();
    put_str(&mut out, m.id.as_str());
    put_str(&mut out, m.sender_id.as_str());
    put_str(&mut out, m.recipient_id.as_str());
    put_bytes(&mut out, &m.encrypted_content);
    put_u64(&mut out, m.timestamp);
    put_mtype(&mut out, m.message_type);
    put_opt_bytes(&mut out, &m.signature);
    put_str(&mut out, m.device_id.as_str());
    proof {
        assert(out@ =~= enc_msg(m@));
    }
    out
}

/// Decodes a message record.
pub fn decode_message_record(s: &Vec<u8>) -> (r: Option<EncryptedMessage>)
    ensures
        r matches Some(m) ==> dec_msg(s@) == Some(m@),
        r is None ==> dec_msg(s@) is None,
{
    let (id, p1) = match take_str(s, 0) {
        Some(x) => x,
        None => {
            return None;
        },
    };
    let (sender_id, p2) = match take_str(s, p1) {
        Some(x) => x,
        None => {
            return None;
        },
    };
    let (recipient_id, p3) = match take_str(s, p2) {
        Some(x) => x,
        None => {
            return None;
        },
    };
    let (encrypted_content, p4) = match take_bytes(s, p3) {
        Some(x) => x,
        None => {
            return None;
        },
    };
    let (timestamp, p5) = match take_u64(s, p4) {
        Some(x) => x,
        None => {
            return None;
        },
    };
    let (message_type, p6) = match take_mtype(s, p5) {
        Some(x) => x,
        None => {
            return None;
        },
    };
    let (signature, p7) = match take_opt_bytes(s, p6) {
        Some(x) => x,
        None => {
            return None;
        },
    };
    let (device_id, _p8) = match take_str(s, p7) {
        Some(x) => x,
        None => {
            return None;
        },
    };
    let m = EncryptedMessage {
        id,
        sender_id,
        recipient_id,
        encrypted_content,
        timestamp,
        message_type,
        signature,
        device_id,
    };
    proof {
        assert(dec_msg(s@) =~= Some(m@));
    }
    Some(m)
}

} // verus!

verus! {

// ---- acknowledgement, presence, room and device records ----

/// The mathematical content of a delivery acknowledgement.
#[verifier::ext_equal]
pub struct AckView {
    pub message_id: Seq<char>,
    pub delivered: bool,
    pub timestamp: u64,
    pub recipient_device_id: Seq<char>,
}

impl View for MessageAck {
    type V = AckView;

    open spec fn view(&self) -> AckView {
        AckView {
            message_id: self.message_id@,
            delivered: self.delivered,
            timestamp: self.timestamp,
            recipient_device_id: self.recipient_device_id@,
        }
    }
}

pub open spec fn enc_ack(a: AckView) -> Seq<u8> {
    enc_str(a.message_id) + enc_bool(a.delivered) + enc_u64(a.timestamp) + enc_str(
        a.recipient_device_id,
    )
}

pub open spec fn dec_ack(s: Seq<u8>) -> Option<AckView> {
    match dec_str(s, 0) {
        Some((message_id, p1)) => match dec_bool(s, p1) {
            Some((delivered, p2)) => match dec_u64(s, p2) {
                Some((timestamp, p3)) => match dec_str(s, p3) {
                    Some((recipient_device_id, _p4)) => Some(
                        AckView { message_id, delivered, timestamp, recipient_device_id },
                    ),
                    None => None,
                },
                None => None,
            },
            None => None,
        },
        None => None,
    }
}

pub open spec fn ack_bounded(a: AckView) -> bool {
    a.message_id.len() <= u64::MAX && a.recipient_device_id.len() <= u64::MAX
}

/// Law: an acknowledgement decodes back from its encoding.
pub proof fn lemma_ack_round_trip(a: AckView)
    requires
        ack_bounded(a),
    ensures
        dec_ack(enc_ack(a)) == Some(a),
{
    let s = enc_ack(a);
    let e1 = enc_str(a.message_id);
    let e2 = enc_bool(a.delivered);
    let e3 = enc_u64(a.timestamp);
    let e4 = enc_str(a.recipient_device_id);
    vstd::bytes::lemma_auto_spec_u64_to_from_le_bytes();
    assert(s =~= e1 + (e2 + (e3 + e4)));
    assert(s.subrange(0, s.len() as int) =~= s);
    lemma_subrange_split(s, 0, e1, e2 + (e3 + e4));
    lemma_dec_str(s, 0, a.message_id);
    let p1 = e1.len() as int;
    lemma_subrange_split(s, p1, e2, e3 + e4);
    lemma_dec_bool(s, p1, a.delivered);
    let p2 = p1 + e2.len() as int;
    lemma_subrange_split(s, p2, e3, e4);
    lemma_dec_u64(s, p2, a.timestamp);
    let p3 = p2 + e3.len() as int;
    assert(s.subrange(p3, p3 + e4.len() as int) =~= e4);
    lemma_dec_str(s, p3, a.recipient_device_id);
    assert(dec_ack(s) =~= Some(a));
}

pub fn encode_ack_record(a: &MessageAck) -> (out: Vec<u8>)
    ensures
        out@ == enc_ack(a@),
        ack_bounded(a@),
{
    let mut out: Vec<u8> = Vec::new();
    put_str(&mut out, a.message_id.as_str());
    put_bool(&mut out, a.delivered);
    put_u64(&mut out, a.timestamp);
    put_str(&mut out, a.recipient_device_id.as_str());
    proof {
        assert(out@ =~= enc_ack(a@));
    }
    out
}

pub fn decode_ack_record(s: &Vec<u8>) -> (r: Option<MessageAck>)
    ensures
        r matches Some(a) ==> dec_ack(s@) == Some(a@),
        r is None ==> dec_ack(s@) is None,
{
    let (message_id, p1) = match take_str(s, 0) {
        Some(x) => x,
        None => {
            return None;
        },
    };
    let (delivered, p2) = match take_bool(s, p1) {
        Some(x) => x,
        None => {
            return None;
        },
    };
    let (timestamp, p3) = match take_u64(s, p2) {
        Some(x) => x,
        None => {
            return None;
        },
    };
    let (recipient_device_id, _p4) = match take_str(s, p3) {
        Some(x) => x,
        None => {
            return None;
        },
    };
    let a = MessageAck { message_id, delivered, timestamp, recipient_device_id };
    proof {
        assert(dec_ack(s@) =~= Some(a@));
    }
    Some(a)
}

/// The mathematical content of a presence record.
#[verifier::ext_equal]
pub struct StatusView {
    pub user_id: Seq<char>,
    pub username: Seq<char>,
    pub online: bool,
    pub last_seen: u64,
    pub status_message: Option<Seq<char>>,
    pub current_device: Option<Seq<char>>,
}

impl View for UserStatus {
    type V = StatusView;

    open spec fn view(&self) -> StatusView {
        StatusView {
            user_id: self.user_id@,
            username: self.username@,
            online: self.online,
            last_seen: self.last_seen,
            status_message: match self.status_message {
                Some(ref s) => Some(s@),
                None => None,
            },
            current_device: match self.current_device {
                Some(ref s) => Some(s@),
                None => None,
            },
        }
    }
}

pub open spec fn enc_status(v: StatusView) -> Seq<u8> {
    enc_str(v.user_id) + enc_str(v.username) + enc_bool(v.online) + enc_u64(v.last_seen)
        + enc_opt_str(v.status_message) + enc_opt_str(v.current_device)
}

pub open spec fn dec_status(s: Seq<u8>) -> Option<StatusView> {
    match dec_str(s, 0) {
        Some((user_id, p1)) => match dec_str(s, p1) {
            Some((username, p2)) => match dec_bool(s, p2) {
                Some((online, p3)) => match dec_u64(s, p3) {
                    Some((last_seen, p4)) => match dec_opt_str(s, p4) {
                        Some((status_message, p5)) => match dec_opt_str(s, p5) {
                            Some((current_device, _p6)) => Some(
                                StatusView {
                                    user_id,
                                    username,
                                    online,
                                    last_seen,
                                    status_message,
                                    current_device,
                                },
                            ),
                            None => None,
                        },
                        None => None,
                    },
                    None => None,
                },
                None => None,
            },
            None => None,
        },
        None => None,
    }
}

pub open spec fn status_bounded(v: StatusView) -> bool {
    &&& v.user_id.len() <= u64::MAX
    &&& v.username.len() <= u64::MAX
    &&& (v.status_message matches Some(m) ==> m.len() <= u64::MAX)
    &&& (v.current_device matches Some(m) ==> m.len() <= u64::MAX)
}

/// Law: a presence record decodes back from its encoding.
#[verifier::rlimit(60)]
pub proof fn lemma_status_round_trip(v: StatusView)
    requires
        status_bounded(v),
    ensures
        dec_status(enc_status(v)) == Some(v),
{
    let s = enc_status(v);
    let e1 = enc_str(v.user_id);
    let e2 = enc_str(v.username);
    let e3 = enc_bool(v.online);
    let e4 = enc_u64(v.last_seen);
    let e5 = enc_opt_str(v.status_message);
    let e6 = enc_opt_str(v.current_device);
    vstd::bytes::lemma_auto_spec_u64_to_from_le_bytes();
    assert(s =~= e1 + (e2 + (e3 + (e4 + (e5 + e6)))));
    assert(s.subrange(0, s.len() as int) =~= s);
    lemma_subrange_split(s, 0, e1, e2 + (e3 + (e4 + (e5 + e6))));
    lemma_dec_str(s, 0, v.user_id);
    let p1 = e1.len() as int;
    lemma_subrange_split(s, p1, e2, e3 + (e4 + (e5 + e6)));
    lemma_dec_str(s, p1, v.username);
    let p2 = p1 + e2.len() as int;
    lemma_subrange_split(s, p2, e3, e4 + (e5 + e6));
    lemma_dec_bool(s, p2, v.online);
    let p3 = p2 + e3.len() as int;
    lemma_subrange_split(s, p3, e4, e5 + e6);
    lemma_dec_u64(s, p3, v.last_seen);
    let p4 = p3 + e4.len() as int;
    lemma_subrange_split(s, p4, e5, e6);
    lemma_dec_opt_str(s, p4, v.status_message);
    let p5 = p4 + e5.len() as int;
    assert(s.subrange(p5, p5 + e6.len() as int) =~= e6);
    lemma_dec_opt_str(s, p5, v.current_device);
    assert(dec_status(s) =~= Some(v));
}

pub fn encode_status_record(v: &UserStatus) -> (out: Vec<u8>)
    ensures
        out@ == enc_status(v@),
        status_bounded(v@),
{
    let mut out: Vec<u8> = Vec::new();
    put_str(&mut out, v.user_id.as_str());
    put_str(&mut out, v.username.as_str());
    put_bool(&mut out, v.online);
    put_u64(&mut out, v.last_seen);
    put_opt_str(&mut out, &v.status_message);
    put_opt_str(&mut out, &v.current_device);
    proof {
        assert(out@ =~= enc_status(v@));
    }
    out
}

pub fn decode_status_record(s: &Vec<u8>) -> (r: Option<UserStatus>)
    ensures
        r matches Some(v) ==> dec_status(s@) == Some(v@),
        r is None ==> dec_status(s@) is None,
{
    let (user_id, p1) = match take_str(s, 0) {
        Some(x) => x,
        None => {
            return None;
        },
    };
    let (username, p2) = match take_str(s, p1) {
        Some(x) => x,
        None => {
            return None;
        },
    };
    let (online, p3) = match take_bool(s, p2) {
        Some(x) => x,
        None => {
            return None;
        },
    };
    let (last_seen, p4) = match take_u64(s, p3) {
        Some(x) => x,
        None => {
            return None;
        },
    };
    let (status_message, p5) = match take_opt_str(s, p4) {
        Some(x) => x,
        None => {
            return None;
        },
    };
    let (current_device, _p6) = match take_opt_str(s, p5) {
        Some(x) => x,
        None => {
            return None;
        },
    };
    let v = UserStatus { user_id, username, online, last_seen, status_message, current_device };
    proof {
        assert(dec_status(s@) =~= Some(v@));
    }
    Some(v)
}

/// The mathematical content of a room record.
#[verifier::ext_equal]
pub struct RoomView {
    pub id: Seq<char>,
    pub name: Seq<char>,
    pub participants: Seq<Seq<char>>,
    pub created_at: u64,
    pub last_message_at: u64,
    pub created_by: Seq<char>,
    pub is_private: bool,
}

impl View for ChatRoom {
    type V = RoomView;

    open spec fn view(&self) -> RoomView {
        RoomView {
            id: self.id@,
            name: self.name@,
            participants: self.participants@.map_values(|p: String| p@),
            created_at: self.created_at,
            last_message_at: self.last_message_at,
            created_by: self.created_by@,
            is_private: self.is_private,
        }
    }
}

pub open spec fn enc_room(v: RoomView) -> Seq<u8> {
    enc_str(v.id) + enc_str(v.name) + crate::store::enc_str_list(v.participants) + enc_u64(
        v.created_at,
    ) + enc_u64(v.last_message_at) + enc_str(v.created_by) + enc_bool(v.is_private)
}

pub open spec fn dec_room(s: Seq<u8>) -> Option<RoomView> {
    match dec_str(s, 0) {
        Some((id, p1)) => match dec_str(s, p1) {
            Some((name, p2)) => match crate::store::dec_str_list(s, p2) {
                Some((participants, p3)) => match dec_u64(s, p3) {
                    Some((created_at, p4)) => match dec_u64(s, p4) {
                        Some((last_message_at, p5)) => match dec_str(s, p5) {
                            Some((created_by, p6)) => match dec_bool(s, p6) {
                                Some((is_private, _p7)) => Some(
                                    RoomView {
                                        id,
                                        name,
                                        participants,
                                        created_at,
                                        last_message_at,
                                        created_by,
                                        is_private,
                                    },
                                ),
                                None => None,
                            },
                            None => None,
                        },
                        None => None,
                    },
                    None => None,
                },
                None => None,
            },
            None => None,
        },
        None => None,
    }
}

pub open spec fn room_bounded(v: RoomView) -> bool {
    &&& v.id.len() <= u64::MAX
    &&& v.name.len() <= u64::MAX
    &&& v.participants.len() <= u64::MAX
    &&& crate::store::bounded_strs(v.participants)
    &&& v.created_by.len() <= u64::MAX
}

/// Law: a room record decodes back from its encoding.
#[verifier::rlimit(60)]
pub proof fn lemma_room_round_trip(v: RoomView)
    requires
        room_bounded(v),
    ensures
        dec_room(enc_room(v)) == Some(v),
{
    let s = enc_room(v);
    let e1 = enc_str(v.id);
    let e2 = enc_str(v.name);
    let e3 = crate::store::enc_str_list(v.participants);
    let e4 = enc_u64(v.created_at);
    let e5 = enc_u64(v.last_message_at);
    let e6 = enc_str(v.created_by);
    let e7 = enc_bool(v.is_private);
    vstd::bytes::lemma_auto_spec_u64_to_from_le_bytes();
    assert(s =~= e1 + (e2 + (e3 + (e4 + (e5 + (e6 + e7))))));
    assert(s.subrange(0, s.len() as int) =~= s);
    lemma_subrange_split(s, 0, e1, e2 + (e3 + (e4 + (e5 + (e6 + e7)))));
    lemma_dec_str(s, 0, v.id);
    let p1 = e1.len() as int;
    lemma_subrange_split(s, p1, e2, e3 + (e4 + (e5 + (e6 + e7))));
    lemma_dec_str(s, p1, v.name);
    let p2 = p1 + e2.len() as int;
    lemma_subrange_split(s, p2, e3, e4 + (e5 + (e6 + e7)));
    crate::store::lemma_dec_str_list(s, p2, v.participants);
    let p3 = p2 + e3.len() as int;
    lemma_subrange_split(s, p3, e4, e5 + (e6 + e7));
    lemma_dec_u64(s, p3, v.created_at);
    let p4 = p3 + e4.len() as int;
    lemma_subrange_split(s, p4, e5, e6 + e7);
    lemma_dec_u64(s, p4, v.last_message_at);
    let p5 = p4 + e5.len() as int;
    lemma_subrange_split(s, p5, e6, e7);
    lemma_dec_str(s, p5, v.created_by);
    let p6 = p5 + e6.len() as int;
    assert(s.subrange(p6, p6 + e7.len() as int) =~= e7);
    lemma_dec_bool(s, p6, v.is_private);
    assert(dec_room(s) =~= Some(v));
}

pub fn encode_room_record(v: &ChatRoom) -> (out: Vec<u8>)
    ensures
        out@ == enc_room(v@),
        room_bounded(v@),
{
    let mut out: Vec<u8> = Vec::new();
    put_str(&mut out, v.id.as_str());
    put_str(&mut out, v.name.as_str());
    crate::store::put_str_list(&mut out, &v.participants);
    put_u64(&mut out, v.created_at);
    put_u64(&mut out, v.last_message_at);
    put_str(&mut out, v.created_by.as_str());
    put_bool(&mut out, v.is_private);
    proof {
        assert(out@ =~= enc_room(v@));
    }
    out
}

pub fn decode_room_record(s: &Vec<u8>) -> (r: Option<ChatRoom>)
    ensures
        r matches Some(v) ==> dec_room(s@) == Some(v@),
        r is None ==> dec_room(s@) is None,
{
    let (id, p1) = match take_str(s, 0) {
        Some(x) => x,
        None => {
            return None;
        },
    };
    let (name, p2) = match take_str(s, p1) {
        Some(x) => x,
        None => {
            return None;
        },
    };
    let (participants, p3) = match crate::store::take_str_list(s, p2) {
        Some(x) => x,
        None => {
            return None;
        },
    };
    let (created_at, p4) = match take_u64(s, p3) {
        Some(x) => x,
        None => {
            return None;
        },
    };
    let (last_message_at, p5) = match take_u64(s, p4) {
        Some(x) => x,
        None => {
            return None;
        },
    };
    let (created_by, p6) = match take_str(s, p5) {
        Some(x) => x,
        None => {
            return None;
        },
    };
    let (is_private, _p7) = match take_bool(s, p6) {
        Some(x) => x,
        None => {
            return None;
        },
    };
    let v = ChatRoom {
        id,
        name,
        participants,
        created_at,
        last_message_at,
        created_by,
        is_private,
    };
    proof {
        assert(dec_room(s@) =~= Some(v@));
    }
    Some(v)
}

} // verus!

verus! {

// ---- device and identity records ----

/// The mathematical content of a device record.
#[verifier::ext_equal]
pub struct DevView {
    pub device_id: Seq<char>,
    pub device_name: Seq<char>,
    pub device_type: DeviceType,
    pub last_login: u64,
    pub is_current: bool,
    pub ip_address: Option<Seq<char>>,
    pub user_agent: Option<Seq<char>>,
}

impl View for UserDevice {
    type V = DevView;

    open spec fn view(&self) -> DevView {
        DevView {
            device_id: self.device_id@,
            device_name: self.device_name@,
            device_type: self.device_type,
            last_login: self.last_login,
            is_current: self.is_current,
            ip_address: match self.ip_address {
                Some(ref s) => Some(s@),
                None => None,
            },
            user_agent: match self.user_agent {
                Some(ref s) => Some(s@),
                None => None,
            },
        }
    }
}

pub open spec fn enc_device(v: DevView) -> Seq<u8> {
    enc_str(v.device_id) + enc_str(v.device_name) + enc_u8(dtype_tag(v.device_type)) + enc_u64(
        v.last_login,
    ) + enc_bool(v.is_current) + enc_opt_str(v.ip_address) + enc_opt_str(v.user_agent)
}

pub open spec fn dec_device(s: Seq<u8>) -> Option<DevView> {
    match dec_str(s, 0) {
        Some((device_id, p1)) => match dec_str(s, p1) {
            Some((device_name, p2)) => match dec_dtype(s, p2) {
                Some((device_type, p3)) => match dec_u64(s, p3) {
                    Some((last_login, p4)) => match dec_bool(s, p4) {
                        Some((is_current, p5)) => match dec_opt_str(s, p5) {
                            Some((ip_address, p6)) => match dec_opt_str(s, p6) {
                                Some((user_agent, _p7)) => Some(
                                    DevView {
                                        device_id,
                                        device_name,
                                        device_type,
                                        last_login,
                                        is_current,
                                        ip_address,
                                        user_agent,
                                    },
                                ),
                                None => None,
                            },
                            None => None,
                        },
                        None => None,
                    },
                    None => None,
                },
                None => None,
            },
            None => None,
        },
        None => None,
    }
}

pub open spec fn device_bounded(v: DevView) -> bool {
    &&& v.device_id.len() <= u64::MAX
    &&& v.device_name.len() <= u64::MAX
    &&& (v.ip_address matches Some(m) ==> m.len() <= u64::MAX)
    &&& (v.user_agent matches Some(m) ==> m.len() <= u64::MAX)
}

/// Law: a device record decodes back from its encoding.
#[verifier::rlimit(60)]
pub proof fn lemma_device_round_trip(v: DevView)
    requires
        device_bounded(v),
    ensures
        dec_device(enc_device(v)) == Some(v),
{
    let s = enc_device(v);
    let e1 = enc_str(v.device_id);
    let e2 = enc_str(v.device_name);
    let e3 = enc_u8(dtype_tag(v.device_type));
    let e4 = enc_u64(v.last_login);
    let e5 = enc_bool(v.is_current);
    let e6 = enc_opt_str(v.ip_address);
    let e7 = enc_opt_str(v.user_agent);
    vstd::bytes::lemma_auto_spec_u64_to_from_le_bytes();
    assert(s =~= e1 + (e2 + (e3 + (e4 + (e5 + (e6 + e7))))));
    assert(s.subrange(0, s.len() as int) =~= s);
    lemma_subrange_split(s, 0, e1, e2 + (e3 + (e4 + (e5 + (e6 + e7)))));
    lemma_dec_str(s, 0, v.device_id);
    let p1 = e1.len() as int;
    lemma_subrange_split(s, p1, e2, e3 + (e4 + (e5 + (e6 + e7))));
    lemma_dec_str(s, p1, v.device_name);
    let p2 = p1 + e2.len() as int;
    lemma_subrange_split(s, p2, e3, e4 + (e5 + (e6 + e7)));
    lemma_dec_dtype(s, p2, v.device_type);
    let p3 = p2 + e3.len() as int;
    lemma_subrange_split(s, p3, e4, e5 + (e6 + e7));
    lemma_dec_u64(s, p3, v.last_login);
    let p4 = p3 + e4.len() as int;
    lemma_subrange_split(s, p4, e5, e6 + e7);
    lemma_dec_bool(s, p4, v.is_current);
    let p5 = p4 + e5.len() as int;
    lemma_subrange_split(s, p5, e6, e7);
    lemma_dec_opt_str(s, p5, v.ip_address);
    let p6 = p5 + e6.len() as int;
    assert(s.subrange(p6, p6 + e7.len() as int) =~= e7);
    lemma_dec_opt_str(s, p6, v.user_agent);
    assert(dec_device(s) =~= Some(v));
}

pub fn encode_device_record(v: &UserDevice) -> (out: Vec<u8>)
    ensures
        out@ == enc_device(v@),
        device_bounded(v@),
{
    let mut out: Vec<u8> = Vec::new();
    put_str(&mut out, v.device_id.as_str());
    put_str(&mut out, v.device_name.as_str());
    put_dtype(&mut out, v.device_type);
    put_u64(&mut out, v.last_login);
    put_bool(&mut out, v.is_current);
    put_opt_str(&mut out, &v.ip_address);
    put_opt_str(&mut out, &v.user_agent);
    proof {
        assert(out@ =~= enc_device(v@));
    }
    out
}

pub fn decode_device_record(s: &Vec<u8>) -> (r: Option<UserDevice>)
    ensures
        r matches Some(v) ==> dec_device(s@) == Some(v@),
        r is None ==> dec_device(s@) is None,
{
    let (device_id, p1) = match take_str(s, 0) {
        Some(x) => x,
        None => {
            return None;
        },
    };
    let (device_name, p2) = match take_str(s, p1) {
        Some(x) => x,
        None => {
            return None;
        },
    };
    let (device_type, p3) = match take_dtype(s, p2) {
        Some(x) => x,
        None => {
            return None;
        },
    };
    let (last_login, p4) = match take_u64(s, p3) {
        Some(x) => x,
        None => {
            return None;
        },
    };
    let (is_current, p5) = match take_bool(s, p4) {
        Some(x) => x,
        None => {
            return None;
        },
    };
    let (ip_address, p6) = match take_opt_str(s, p5) {
        Some(x) => x,
        None => {
            return None;
        },
    };
    let (user_agent, _p7) = match take_opt_str(s, p6) {
        Some(x) => x,
        None => {
            return None;
        },
    };
    let v = UserDevice {
        device_id,
        device_name,
        device_type,
        last_login,
        is_current,
        ip_address,
        user_agent,
    };
    proof {
        assert(dec_device(s@) =~= Some(v@));
    }
    Some(v)
}

/// The mathematical content of an identity record.
#[verifier::ext_equal]
pub struct IdView {
    pub user_id: Seq<char>,
    pub username: Seq<char>,
    pub display_name: Seq<char>,
    pub email: Option<Seq<char>>,
    pub created_at: u64,
    pub last_seen: u64,
    pub devices: Seq<DevView>,
    pub public_key: Seq<u8>,
    pub is_active: bool,
}

impl View for UserIdentity {
    type V = IdView;

    open spec fn view(&self) -> IdView {
        IdView {
            user_id: self.user_id@,
            username: self.username@,
            display_name: self.display_name@,
            email: match self.email {
                Some(ref s) => Some(s@),
                None => None,
            },
            created_at: self.created_at,
            last_seen: self.last_seen,
            devices: self.devices@.map_values(|d: UserDevice| d@),
            public_key: self.public_key@,
            is_active: self.is_active,
        }
    }
}

/// Decodes each framed device blob; fails when any blob does.
pub open spec fn dec_device_blobs(blobs: Seq<Seq<u8>>) -> Option<Seq<DevView>>
    decreases blobs.len(),
{
    if blobs.len() == 0 {
        Some(Seq::empty())
    } else {
        match dec_device_blobs(blobs.drop_last()) {
            Some(l) => match dec_device(blobs.last()) {
                Some(d) => Some(l.push(d)),
                None => None,
            },
            None => None,
        }
    }
}

/// Framed device encodings round-trip pointwise.
pub proof fn lemma_dec_device_blobs(devs: Seq<DevView>)
    requires
        forall|i: int| 0 <= i < devs.len() ==> device_bounded(#[trigger] devs[i]),
    ensures
        dec_device_blobs(devs.map_values(|d: DevView| enc_device(d))) == Some(devs),
    decreases devs.len(),
{
    let blobs = devs.map_values(|d: DevView| enc_device(d));
    if devs.len() > 0 {
        assert(blobs.drop_last() =~= devs.drop_last().map_values(|d: DevView| enc_device(d)));
        lemma_dec_device_blobs(devs.drop_last());
        lemma_device_round_trip(devs.last());
        assert(blobs.last() == enc_device(devs.last()));
        assert(devs.drop_last().push(devs.last()) =~= devs);
    } else {
        assert(blobs =~= Seq::<Seq<u8>>::empty());
    }
}

/// If one framed device fails to decode, the whole list does.
pub proof fn lemma_dec_device_blobs_stuck(blobs: Seq<Seq<u8>>, j: int)
    requires
        0 <= j < blobs.len(),
        dec_device(blobs[j]) is None,
    ensures
        dec_device_blobs(blobs) is None,
    decreases blobs.len(),
{
    if j == blobs.len() - 1 {
    } else {
        lemma_dec_device_blobs_stuck(blobs.drop_last(), j);
    }
}

pub open spec fn enc_identity(v: IdView) -> Seq<u8> {
    enc_str(v.user_id) + enc_str(v.username) + enc_str(v.display_name) + enc_opt_str(v.email)
        + enc_u64(v.created_at) + enc_u64(v.last_seen) + enc_blob_list(
        v.devices.map_values(|d: DevView| enc_device(d)),
    ) + enc_bytes(v.public_key) + enc_bool(v.is_active)
}

pub open spec fn dec_identity(s: Seq<u8>) -> Option<IdView> {
    match dec_str(s, 0) {
        Some((user_id, p1)) => match dec_str(s, p1) {
            Some((username, p2)) => match dec_str(s, p2) {
                Some((display_name, p3)) => match dec_opt_str(s, p3) {
                    Some((email, p4)) => match dec_u64(s, p4) {
                        Some((created_at, p5)) => match dec_u64(s, p5) {
                            Some((last_seen, p6)) => match dec_blob_list(s, p6) {
                                Some((blobs, p7)) => match dec_device_blobs(blobs) {
                                    Some(devices) => match dec_bytes(s, p7) {
                                        Some((public_key, p8)) => if public_key.len() == 32 {
                                            match dec_bool(s, p8) {
                                                Some((is_active, _p9)) => Some(
                                                    IdView {
                                                        user_id,
                                                        username,
                                                        display_name,
                                                        email,
                                                        created_at,
                                                        last_seen,
                                                        devices,
                                                        public_key,
                                                        is_active,
                                                    },
                                                ),
                                                None => None,
                                            }
                                        } else {
                                            None
                                        },
                                        None => None,
                                    },
                                    None => None,
                                },
                                None => None,
                            },
                            None => None,
                        },
                        None => None,
                    },
                    None => None,
                },
                None => None,
            },
            None => None,
        },
        None => None,
    }
}

pub open spec fn identity_bounded(v: IdView) -> bool {
    &&& v.user_id.len() <= u64::MAX
    &&& v.username.len() <= u64::MAX
    &&& v.display_name.len() <= u64::MAX
    &&& (v.email matches Some(m) ==> m.len() <= u64::MAX)
    &&& v.devices.len() <= u64::MAX
    &&& (forall|i: int| 0 <= i < v.devices.len() ==> device_bounded(#[trigger] v.devices[i]))
    &&& (forall|i: int|
        0 <= i < v.devices.len() ==> enc_device(#[trigger] v.devices[i]).len() <= u64::MAX)
    &&& v.public_key.len() == 32
}

/// Law: an identity record decodes back from its encoding.
#[verifier::rlimit(90)]
#[verifier::spinoff_prover]
pub proof fn lemma_identity_round_trip(v: IdView)
    requires
        identity_bounded(v),
    ensures
        dec_identity(enc_identity(v)) == Some(v),
{
    let s = enc_identity(v);
    let blobs = v.devices.map_values(|d: DevView| enc_device(d));
    let e1 = enc_str(v.user_id);
    let e2 = enc_str(v.username);
    let e3 = enc_str(v.display_name);
    let e4 = enc_opt_str(v.email);
    let e5 = enc_u64(v.created_at);
    let e6 = enc_u64(v.last_seen);
    let e7 = enc_blob_list(blobs);
    let e8 = enc_bytes(v.public_key);
    let e9 = enc_bool(v.is_active);
    vstd::bytes::lemma_auto_spec_u64_to_from_le_bytes();
    assert(s =~= e1 + (e2 + (e3 + (e4 + (e5 + (e6 + (e7 + (e8 + e9))))))));
    assert(s.subrange(0, s.len() as int) =~= s);
    lemma_subrange_split(s, 0, e1, e2 + (e3 + (e4 + (e5 + (e6 + (e7 + (e8 + e9)))))));
    lemma_dec_str(s, 0, v.user_id);
    let p1 = e1.len() as int;
    lemma_subrange_split(s, p1, e2, e3 + (e4 + (e5 + (e6 + (e7 + (e8 + e9))))));
    lemma_dec_str(s, p1, v.username);
    let p2 = p1 + e2.len() as int;
    lemma_subrange_split(s, p2, e3, e4 + (e5 + (e6 + (e7 + (e8 + e9)))));
    lemma_dec_str(s, p2, v.display_name);
    let p3 = p2 + e3.len() as int;
    lemma_subrange_split(s, p3, e4, e5 + (e6 + (e7 + (e8 + e9))));
    lemma_dec_opt_str(s, p3, v.email);
    let p4 = p3 + e4.len() as int;
    lemma_subrange_split(s, p4, e5, e6 + (e7 + (e8 + e9)));
    lemma_dec_u64(s, p4, v.created_at);
    let p5 = p4 + e5.len() as int;
    lemma_subrange_split(s, p5, e6, e7 + (e8 + e9));
    lemma_dec_u64(s, p5, v.last_seen);
    let p6 = p5 + e6.len() as int;
    lemma_subrange_split(s, p6, e7, e8 + e9);
    assert(bounded_blobs(blobs)) by {
        assert forall|i: int| 0 <= i < blobs.len() implies (#[trigger] blobs[i]).len()
            <= u64::MAX by {
            assert(blobs[i] == enc_device(v.devices[i]));
        }
    }
    lemma_dec_blob_list(s, p6, blobs);
    lemma_dec_device_blobs(v.devices);
    let p7 = p6 + e7.len() as int;
    lemma_subrange_split(s, p7, e8, e9);
    lemma_dec_bytes(s, p7, v.public_key);
    let p8 = p7 + e8.len() as int;
    assert(s.subrange(p8, p8 + e9.len() as int) =~= e9);
    lemma_dec_bool(s, p8, v.is_active);
    assert(dec_identity(s) =~= Some(v));
}

#[verifier::loop_isolation(false)]
#[verifier::rlimit(60)]
pub fn encode_identity_record(v: &UserIdentity) -> (out: Vec<u8>)
    ensures
        out@ == enc_identity(v@),
        identity_bounded(v@),
{
    let mut blobs: Vec<Vec<u8>> = Vec::new();
    let n = v.devices.len();
    for i in 0..n
        invariant
            blobs@.len() == i,
            forall|a: int|
                0 <= a < i ==> (#[trigger] blobs@[a])@ == enc_device(v.devices@[a]@)
                    && device_bounded(v.devices@[a]@) && blobs@[a]@.len() <= u64::MAX,
    {
        let b = encode_device_record(&v.devices[i]);
        let bl = b.len();
        proof {
            assert(b@.len() == bl as nat);
            assert(b@.len() <= u64::MAX);
        }
        blobs.push(b);
        proof {
            assert(blobs@[i as int]@ == enc_device(v.devices@[i as int]@));
            assert(forall|a: int| 0 <= a < i ==> blobs@[a] == blobs@.drop_last()[a]);
        }
    }
    proof {
        assert(blobs@.map_values(|b: Vec<u8>| b@) =~= v.devices@.map_values(
            |d: UserDevice| d@,
        ).map_values(|d: DevView| enc_device(d)));
    }
    let mut out: Vec<u8> = Vec::new();
    put_str(&mut out, v.user_id.as_str());
    put_str(&mut out, v.username.as_str());
    put_str(&mut out, v.display_name.as_str());
    put_opt_str(&mut out, &v.email);
    put_u64(&mut out, v.created_at);
    put_u64(&mut out, v.last_seen);
    put_blob_list(&mut out, &blobs);
    let pk = vstd::slice::slice_to_vec(vstd::array::array_as_slice(&v.public_key));
    put_bytes(&mut out, &pk);
    put_bool(&mut out, v.is_active);
    proof {
        assert(out@ =~= enc_identity(v@));
        assert forall|i: int| 0 <= i < v@.devices.len() implies enc_device(
            #[trigger] v@.devices[i],
        ).len() <= u64::MAX && device_bounded(v@.devices[i]) by {
            assert(v@.devices[i] == v.devices@[i]@);
            assert(blobs@[i]@ == enc_device(v.devices@[i]@));
            assert(blobs@[i]@.len() <= u64::MAX);
        }
    }
    out
}

#[verifier::loop_isolation(false)]
#[verifier::rlimit(100)]
#[verifier::spinoff_prover]
pub fn decode_identity_record(s: &Vec<u8>) -> (r: Option<UserIdentity>)
    ensures
        r matches Some(v) ==> dec_identity(s@) == Some(v@),
        r is None ==> dec_identity(s@) is None,
{
    let (user_id, p1) = match take_str(s, 0) {
        Some(x) => x,
        None => {
            return None;
        },
    };
    let (username, p2) = match take_str(s, p1) {
        Some(x) => x,
        None => {
            return None;
        },
    };
    let (display_name, p3) = match take_str(s, p2) {
        Some(x) => x,
        None => {
            return None;
        },
    };
    let (email, p4) = match take_opt_str(s, p3) {
        Some(x) => x,
        None => {
            return None;
        },
    };
    let (created_at, p5) = match take_u64(s, p4) {
        Some(x) => x,
        None => {
            return None;
        },
    };
    let (last_seen, p6) = match take_u64(s, p5) {
        Some(x) => x,
        None => {
            return None;
        },
    };
    let (blobs, p7) = match take_blob_list(s, p6) {
        Some(x) => x,
        None => {
            return None;
        },
    };
    let mut devices: Vec<UserDevice> = Vec::new();
    let bn = blobs.len();
    let ghost blob_views = blobs@.map_values(|b: Vec<u8>| b@);
    for i in 0..bn
        invariant
            bn == blobs@.len(),
            blob_views == blobs@.map_values(|b: Vec<u8>| b@),
            dec_device_blobs(blob_views.take(i as int)) == Some(
                devices@.map_values(|d: UserDevice| d@),
            ),
    {
        let d = match decode_device_record(&blobs[i]) {
            Some(d) => d,
            None => {
                proof {
                    lemma_dec_device_blobs_stuck(blob_views, i as int);
                }
                return None;
            },
        };
        devices.push(d);
        proof {
            assert(blob_views.take(i + 1).drop_last() =~= blob_views.take(i as int));
            assert(blob_views.take(i + 1).last() == blob_views[i as int]);
            assert(devices@.map_values(|d2: UserDevice| d2@) =~= devices@.drop_last().map_values(
                |d2: UserDevice| d2@,
            ).push(devices@.last()@));
        }
    }
    proof {
        assert(blob_views.take(bn as int) =~= blob_views);
    }
    let (public_key_bytes, p8) = match take_bytes(s, p7) {
        Some(x) => x,
        None => {
            return None;
        },
    };
    if public_key_bytes.len() != 32 {
        return None;
    }
    let public_key = crate::crypto::bytes_to_key32(&public_key_bytes);
    let (is_active, _p9) = match take_bool(s, p8) {
        Some(x) => x,
        None => {
            return None;
        },
    };
    let v = UserIdentity {
        user_id,
        username,
        display_name,
        email,
        created_at,
        last_seen,
        devices,
        public_key,
        is_active,
    };
    proof {
        assert(dec_identity(s@) =~= Some(v@));
    }
    Some(v)
}

} // verus!

verus! {

// ---- the tagged payload: every protocol message as one self-describing blob ----

/// The mathematical content of a protocol payload.
#[verifier::ext_equal]
pub enum PayloadView {
    FileKeyExchange { file_id: Seq<char>, encrypted_key: Seq<u8>, from: Seq<char>, to: Seq<char> },
    FileChunkRequest {
        file_id: Seq<char>,
        chunk_index: usize,
        chunk_size: usize,
        signature: Option<Seq<u8>>,
    },
    FileChunkResponse { file_id: Seq<char>, chunk_index: usize, data: Seq<u8> },
    FileListRequest { signature: Option<Seq<u8>> },
    FileListResponse { files: Seq<crate::store::MetaView> },
    ModelUpdate { weights: Seq<u8>, epoch: u32 },
    EncryptedDirectMessage { message: MsgView },
    DeliveryAck { ack: AckView },
    PresenceUpdate { status: StatusView },
    ChatRoomCreate { room: RoomView },
    ChatRoomJoin { room_id: Seq<char>, username: Seq<char> },
    ChatRoomLeave { room_id: Seq<char>, username: Seq<char> },
    ChatRoomMessage { room_id: Seq<char>, message: MsgView },
    TypingIndicator { room_id: Seq<char>, username: Seq<char>, is_typing: bool },
    PeerDiscovery { peer_id: Seq<char>, addresses: Seq<Seq<char>>, user_info: Option<IdView> },
    PeerPing { timestamp: u64, peer_id: Seq<char> },
    PeerPong { timestamp: u64, peer_id: Seq<char> },
}

impl View for crate::peer::P2PMessage {
    type V = PayloadView;

    open spec fn view(&self) -> PayloadView {
        match self {
            crate::peer::P2PMessage::FileKeyExchange { file_id, encrypted_key, from, to } => PayloadView::FileKeyExchange {
                file_id: file_id@,
                encrypted_key: encrypted_key@,
                from: from@,
                to: to@,
            },
            crate::peer::P2PMessage::FileChunkRequest {
                file_id,
                chunk_index,
                chunk_size,
                signature,
            } => PayloadView::FileChunkRequest {
                file_id: file_id@,
                chunk_index: *chunk_index,
                chunk_size: *chunk_size,
                signature: match signature {
                    Some(s) => Some(s@),
                    None => None,
                },
            },
            crate::peer::P2PMessage::FileChunkResponse { file_id, chunk_index, data } => PayloadView::FileChunkResponse {
                file_id: file_id@,
                chunk_index: *chunk_index,
                data: data@,
            },
            crate::peer::P2PMessage::FileListRequest { signature } => PayloadView::FileListRequest {
                signature: match signature {
                    Some(s) => Some(s@),
                    None => None,
                },
            },
            crate::peer::P2PMessage::FileListResponse { files } => PayloadView::FileListResponse {
                files: files@.map_values(|f: crate::store::FileMetadata| f@),
            },
            crate::peer::P2PMessage::ModelUpdate { weights, epoch } => PayloadView::ModelUpdate {
                weights: weights@,
                epoch: *epoch,
            },
            crate::peer::P2PMessage::EncryptedDirectMessage { message } => PayloadView::EncryptedDirectMessage {
                message: message@,
            },
            crate::peer::P2PMessage::DeliveryAck { ack } => PayloadView::DeliveryAck {
                ack: ack@,
            },
            crate::peer::P2PMessage::PresenceUpdate { status } => PayloadView::PresenceUpdate {
                status: status@,
            },
            crate::peer::P2PMessage::ChatRoomCreate { room } => PayloadView::ChatRoomCreate {
                room: room@,
            },
            crate::peer::P2PMessage::ChatRoomJoin { room_id, username } => PayloadView::ChatRoomJoin {
                room_id: room_id@,
                username: username@,
            },
            crate::peer::P2PMessage::ChatRoomLeave { room_id, username } => PayloadView::ChatRoomLeave {
                room_id: room_id@,
                username: username@,
            },
            crate::peer::P2PMessage::ChatRoomMessage { room_id, message } => PayloadView::ChatRoomMessage {
                room_id: room_id@,
                message: message@,
            },
            crate::peer::P2PMessage::TypingIndicator { room_id, username, is_typing } => PayloadView::TypingIndicator {
                room_id: room_id@,
                username: username@,
                is_typing: *is_typing,
            },
            crate::peer::P2PMessage::PeerDiscovery { peer_id, addresses, user_info } => PayloadView::PeerDiscovery {
                peer_id: peer_id@,
                addresses: addresses@.map_values(|a: String| a@),
                user_info: match user_info {
                    Some(u) => Some(u@),
                    None => None,
                },
            },
            crate::peer::P2PMessage::PeerPing { timestamp, peer_id } => PayloadView::PeerPing {
                timestamp: *timestamp,
                peer_id: peer_id@,
            },
            crate::peer::P2PMessage::PeerPong { timestamp, peer_id } => PayloadView::PeerPong {
                timestamp: *timestamp,
                peer_id: peer_id@,
            },
        }
    }
}

/// Decodes each framed record blob; fails when any blob does.
pub open spec fn dec_meta_blobs(blobs: Seq<Seq<u8>>) -> Option<Seq<crate::store::MetaView>>
    decreases blobs.len(),
{
    if blobs.len() == 0 {
        Some(Seq::empty())
    } else {
        match dec_meta_blobs(blobs.drop_last()) {
            Some(l) => match crate::store::dec_meta(blobs.last()) {
                Some(m) => Some(l.push(m)),
                None => None,
            },
            None => None,
        }
    }
}

/// Framed record encodings round-trip pointwise.
pub proof fn lemma_dec_meta_blobs(metas: Seq<crate::store::MetaView>)
    requires
        forall|i: int| 0 <= i < metas.len() ==> crate::store::meta_bounded(#[trigger] metas[i]),
    ensures
        dec_meta_blobs(metas.map_values(|m: crate::store::MetaView| crate::store::enc_meta(m)))
            == Some(metas),
    decreases metas.len(),
{
    let blobs = metas.map_values(|m: crate::store::MetaView| crate::store::enc_meta(m));
    if metas.len() > 0 {
        assert(blobs.drop_last() =~= metas.drop_last().map_values(
            |m: crate::store::MetaView| crate::store::enc_meta(m),
        ));
        lemma_dec_meta_blobs(metas.drop_last());
        crate::store::lemma_meta_round_trip(metas.last());
        assert(blobs.last() == crate::store::enc_meta(metas.last()));
        assert(metas.drop_last().push(metas.last()) =~= metas);
    } else {
        assert(blobs =~= Seq::<Seq<u8>>::empty());
    }
}

/// If one framed record fails to decode, the whole list does.
pub proof fn lemma_dec_meta_blobs_stuck(blobs: Seq<Seq<u8>>, j: int)
    requires
        0 <= j < blobs.len(),
        crate::store::dec_meta(blobs[j]) is None,
    ensures
        dec_meta_blobs(blobs) is None,
    decreases blobs.len(),
{
    if j == blobs.len() - 1 {
    } else {
        lemma_dec_meta_blobs_stuck(blobs.drop_last(), j);
    }
}

/// The encoding of a protocol payload: one tag byte, then the fields, nested
/// records framed as blobs of their own encodings.
pub open spec fn enc_payload(v: PayloadView) -> Seq<u8> {
    match v {
        PayloadView::FileKeyExchange { file_id, encrypted_key, from, to } => enc_u8(0) + enc_str(
            file_id,
        ) + enc_bytes(encrypted_key) + enc_str(from) + enc_str(to),
        PayloadView::FileChunkRequest { file_id, chunk_index, chunk_size, signature } => enc_u8(1)
            + enc_str(file_id) + enc_u64(chunk_index as u64) + enc_u64(chunk_size as u64)
            + enc_opt_bytes(signature),
        PayloadView::FileChunkResponse { file_id, chunk_index, data } => enc_u8(2) + enc_str(
            file_id,
        ) + enc_u64(chunk_index as u64) + enc_bytes(data),
        PayloadView::FileListRequest { signature } => enc_u8(3) + enc_opt_bytes(signature),
        PayloadView::FileListResponse { files } => enc_u8(4) + enc_blob_list(
            files.map_values(|m: crate::store::MetaView| crate::store::enc_meta(m)),
        ),
        PayloadView::ModelUpdate { weights, epoch } => enc_u8(5) + enc_bytes(weights) + enc_u32(
            epoch,
        ),
        PayloadView::EncryptedDirectMessage { message } => enc_u8(6) + enc_bytes(enc_msg(message)),
        PayloadView::DeliveryAck { ack } => enc_u8(7) + enc_bytes(enc_ack(ack)),
        PayloadView::PresenceUpdate { status } => enc_u8(8) + enc_bytes(enc_status(status)),
        PayloadView::ChatRoomCreate { room } => enc_u8(9) + enc_bytes(enc_room(room)),
        PayloadView::ChatRoomJoin { room_id, username } => enc_u8(10) + enc_str(room_id) + enc_str(
            username,
        ),
        PayloadView::ChatRoomLeave { room_id, username } => enc_u8(11) + enc_str(room_id)
            + enc_str(username),
        PayloadView::ChatRoomMessage { room_id, message } => enc_u8(12) + enc_str(room_id)
            + enc_bytes(enc_msg(message)),
        PayloadView::TypingIndicator { room_id, username, is_typing } => enc_u8(13) + enc_str(
            room_id,
        ) + enc_str(username) + enc_bool(is_typing),
        PayloadView::PeerDiscovery { peer_id, addresses, user_info } => enc_u8(14) + enc_str(
            peer_id,
        ) + crate::store::enc_str_list(addresses) + enc_opt_bytes(
            match user_info {
                Some(u) => Some(enc_identity(u)),
                None => None,
            },
        ),
        PayloadView::PeerPing { timestamp, peer_id } => enc_u8(15) + enc_u64(timestamp) + enc_str(
            peer_id,
        ),
        PayloadView::PeerPong { timestamp, peer_id } => enc_u8(16) + enc_u64(timestamp) + enc_str(
            peer_id,
        ),
    }
}

/// What decoding a payload blob yields.
pub open spec fn dec_payload(s: Seq<u8>) -> Option<PayloadView> {
    match dec_u8(s, 0) {
        Some((tag, p0)) => if tag == 0 {
            match dec_str(s, p0) {
                Some((file_id, p1)) => match dec_bytes(s, p1) {
                    Some((encrypted_key, p2)) => match dec_str(s, p2) {
                        Some((from, p3)) => match dec_str(s, p3) {
                            Some((to, _)) => Some(
                                PayloadView::FileKeyExchange { file_id, encrypted_key, from, to },
                            ),
                            None => None,
                        },
                        None => None,
                    },
                    None => None,
                },
                None => None,
            }
        } else if tag == 1 {
            match dec_str(s, p0) {
                Some((file_id, p1)) => match dec_u64(s, p1) {
                    Some((ci, p2)) => match dec_u64(s, p2) {
                        Some((cs, p3)) => match dec_opt_bytes(s, p3) {
                            Some((signature, _)) => if ci <= usize::MAX as u64 && cs
                                <= usize::MAX as u64 {
                                Some(
                                    PayloadView::FileChunkRequest {
                                        file_id,
                                        chunk_index: ci as usize,
                                        chunk_size: cs as usize,
                                        signature,
                                    },
                                )
                            } else {
                                None
                            },
                            None => None,
                        },
                        None => None,
                    },
                    None => None,
                },
                None => None,
            }
        } else if tag == 2 {
            match dec_str(s, p0) {
                Some((file_id, p1)) => match dec_u64(s, p1) {
                    Some((ci, p2)) => match dec_bytes(s, p2) {
                        Some((data, _)) => if ci <= usize::MAX as u64 {
                            Some(
                                PayloadView::FileChunkResponse {
                                    file_id,
                                    chunk_index: ci as usize,
                                    data,
                                },
                            )
                        } else {
                            None
                        },
                        None => None,
                    },
                    None => None,
                },
                None => None,
            }
        } else if tag == 3 {
            match dec_opt_bytes(s, p0) {
                Some((signature, _)) => Some(PayloadView::FileListRequest { signature }),
                None => None,
            }
        } else if tag == 4 {
            match dec_blob_list(s, p0) {
                Some((blobs, _)) => match dec_meta_blobs(blobs) {
                    Some(files) => Some(PayloadView::FileListResponse { files }),
                    None => None,
                },
                None => None,
            }
        } else if tag == 5 {
            match dec_bytes(s, p0) {
                Some((weights, p1)) => match dec_u32(s, p1) {
                    Some((epoch, _)) => Some(PayloadView::ModelUpdate { weights, epoch }),
                    None => None,
                },
                None => None,
            }
        } else if tag == 6 {
            match dec_bytes(s, p0) {
                Some((blob, _)) => match dec_msg(blob) {
                    Some(message) => Some(PayloadView::EncryptedDirectMessage { message }),
                    None => None,
                },
                None => None,
            }
        } else if tag == 7 {
            match dec_bytes(s, p0) {
                Some((blob, _)) => match dec_ack(blob) {
                    Some(ack) => Some(PayloadView::DeliveryAck { ack }),
                    None => None,
                },
                None => None,
            }
        } else if tag == 8 {
            match dec_bytes(s, p0) {
                Some((blob, _)) => match dec_status(blob) {
                    Some(status) => Some(PayloadView::PresenceUpdate { status }),
                    None => None,
                },
                None => None,
            }
        } else if tag == 9 {
            match dec_bytes(s, p0) {
                Some((blob, _)) => match dec_room(blob) {
                    Some(room) => Some(PayloadView::ChatRoomCreate { room }),
                    None => None,
                },
                None => None,
            }
        } else if tag == 10 {
            match dec_str(s, p0) {
                Some((room_id, p1)) => match dec_str(s, p1) {
                    Some((username, _)) => Some(PayloadView::ChatRoomJoin { room_id, username }),
                    None => None,
                },
                None => None,
            }
        } else if tag == 11 {
            match dec_str(s, p0) {
                Some((room_id, p1)) => match dec_str(s, p1) {
                    Some((username, _)) => Some(PayloadView::ChatRoomLeave { room_id, username }),
                    None => None,
                },
                None => None,
            }
        } else if tag == 12 {
            match dec_str(s, p0) {
                Some((room_id, p1)) => match dec_bytes(s, p1) {
                    Some((blob, _)) => match dec_msg(blob) {
                        Some(message) => Some(PayloadView::ChatRoomMessage { room_id, message }),
                        None => None,
                    },
                    None => None,
                },
                None => None,
            }
        } else if tag == 13 {
            match dec_str(s, p0) {
                Some((room_id, p1)) => match dec_str(s, p1) {
                    Some((username, p2)) => match dec_bool(s, p2) {
                        Some((is_typing, _)) => Some(
                            PayloadView::TypingIndicator { room_id, username, is_typing },
                        ),
                        None => None,
                    },
                    None => None,
                },
                None => None,
            }
        } else if tag == 14 {
            match dec_str(s, p0) {
                Some((peer_id, p1)) => match crate::store::dec_str_list(s, p1) {
                    Some((addresses, p2)) => match dec_opt_bytes(s, p2) {
                        Some((frame, _)) => match frame {
                            Some(blob) => match dec_identity(blob) {
                                Some(u) => Some(
                                    PayloadView::PeerDiscovery {
                                        peer_id,
                                        addresses,
                                        user_info: Some(u),
                                    },
                                ),
                                None => None,
                            },
                            None => Some(
                                PayloadView::PeerDiscovery { peer_id, addresses, user_info: None },
                            ),
                        },
                        None => None,
                    },
                    None => None,
                },
                None => None,
            }
        } else if tag == 15 {
            match dec_u64(s, p0) {
                Some((timestamp, p1)) => match dec_str(s, p1) {
                    Some((peer_id, _)) => Some(PayloadView::PeerPing { timestamp, peer_id }),
                    None => None,
                },
                None => None,
            }
        } else if tag == 16 {
            match dec_u64(s, p0) {
                Some((timestamp, p1)) => match dec_str(s, p1) {
                    Some((peer_id, _)) => Some(PayloadView::PeerPong { timestamp, peer_id }),
                    None => None,
                },
                None => None,
            }
        } else {
            None
        },
        None => None,
    }
}

/// Every piece of a payload fits its length prefix.
pub open spec fn payload_bounded(v: PayloadView) -> bool {
    match v {
        PayloadView::FileKeyExchange { file_id, encrypted_key, from, to } => file_id.len()
            <= u64::MAX && encrypted_key.len() <= u64::MAX && from.len() <= u64::MAX && to.len()
            <= u64::MAX,
        PayloadView::FileChunkRequest { file_id, chunk_index, chunk_size, signature } => file_id.len()
            <= u64::MAX && (signature matches Some(b) ==> b.len() <= u64::MAX),
        PayloadView::FileChunkResponse { file_id, chunk_index, data } => file_id.len() <= u64::MAX
            && data.len() <= u64::MAX,
        PayloadView::FileListRequest { signature } => (signature matches Some(b) ==> b.len()
            <= u64::MAX),
        PayloadView::FileListResponse { files } => files.len() <= u64::MAX && (forall|i: int|
            0 <= i < files.len() ==> crate::store::meta_bounded(#[trigger] files[i])
                && crate::store::enc_meta(files[i]).len() <= u64::MAX),
        PayloadView::ModelUpdate { weights, epoch } => weights.len() <= u64::MAX,
        PayloadView::EncryptedDirectMessage { message } => msg_bounded(message) && enc_msg(
            message,
        ).len() <= u64::MAX,
        PayloadView::DeliveryAck { ack } => ack_bounded(ack) && enc_ack(ack).len() <= u64::MAX,
        PayloadView::PresenceUpdate { status } => status_bounded(status) && enc_status(
            status,
        ).len() <= u64::MAX,
        PayloadView::ChatRoomCreate { room } => room_bounded(room) && enc_room(room).len()
            <= u64::MAX,
        PayloadView::ChatRoomJoin { room_id, username } => room_id.len() <= u64::MAX
            && username.len() <= u64::MAX,
        PayloadView::ChatRoomLeave { room_id, username } => room_id.len() <= u64::MAX
            && username.len() <= u64::MAX,
        PayloadView::ChatRoomMessage { room_id, message } => room_id.len() <= u64::MAX
            && msg_bounded(message) && enc_msg(message).len() <= u64::MAX,
        PayloadView::TypingIndicator { room_id, username, is_typing } => room_id.len() <= u64::MAX
            && username.len() <= u64::MAX,
        PayloadView::PeerDiscovery { peer_id, addresses, user_info } => peer_id.len() <= u64::MAX
            && addresses.len() <= u64::MAX && crate::store::bounded_strs(addresses) && (
        user_info matches Some(u) ==> identity_bounded(u) && enc_identity(u).len() <= u64::MAX),
        PayloadView::PeerPing { timestamp, peer_id } => peer_id.len() <= u64::MAX,
        PayloadView::PeerPong { timestamp, peer_id } => peer_id.len() <= u64::MAX,
    }
}

} // verus!

verus! {

/// Law: every protocol payload decodes back from its encoding.
pub proof fn lemma_payload_round_trip(v: PayloadView)
    requires
        payload_bounded(v),
    ensures
        dec_payload(enc_payload(v)) == Some(v),
{
    match v {
        PayloadView::FileKeyExchange { .. } => {
            lemma_payload_rt_filekeyexchange(v);
        },
        PayloadView::FileChunkRequest { .. } => {
            lemma_payload_rt_filechunkrequest(v);
        },
        PayloadView::FileChunkResponse { .. } => {
            lemma_payload_rt_filechunkresponse(v);
        },
        PayloadView::FileListRequest { .. } => {
            lemma_payload_rt_filelistrequest(v);
        },
        PayloadView::FileListResponse { .. } => {
            lemma_payload_rt_filelistresponse(v);
        },
        PayloadView::ModelUpdate { .. } => {
            lemma_payload_rt_modelupdate(v);
        },
        PayloadView::EncryptedDirectMessage { .. } => {
            lemma_payload_rt_encrypteddirectmessage(v);
        },
        PayloadView::DeliveryAck { .. } => {
            lemma_payload_rt_deliveryack(v);
        },
        PayloadView::PresenceUpdate { .. } => {
            lemma_payload_rt_presenceupdate(v);
        },
        PayloadView::ChatRoomCreate { .. } => {
            lemma_payload_rt_chatroomcreate(v);
        },
        PayloadView::ChatRoomJoin { .. } => {
            lemma_payload_rt_chatroomjoin(v);
        },
        PayloadView::ChatRoomLeave { .. } => {
            lemma_payload_rt_chatroomleave(v);
        },
        PayloadView::ChatRoomMessage { .. } => {
            lemma_payload_rt_chatroommessage(v);
        },
        PayloadView::TypingIndicator { .. } => {
            lemma_payload_rt_typingindicator(v);
        },
        PayloadView::PeerDiscovery { .. } => {
            lemma_payload_rt_peerdiscovery(v);
        },
        PayloadView::PeerPing { .. } => {
            lemma_payload_rt_peerping(v);
        },
        PayloadView::PeerPong { .. } => {
            lemma_payload_rt_peerpong(v);
        },
    }
}

/// One case of the payload round trip.
#[verifier::rlimit(80)]
#[verifier::spinoff_prover]
proof fn lemma_payload_rt_filekeyexchange(v: PayloadView)
    requires
        payload_bounded(v),
        v is FileKeyExchange,
    ensures
        dec_payload(enc_payload(v)) == Some(v),
{
    let s = enc_payload(v);
    vstd::bytes::lemma_auto_spec_u64_to_from_le_bytes();
    vstd::bytes::lemma_auto_spec_u32_to_from_le_bytes();
    assert(s.subrange(0, s.len() as int) =~= s);
    match v {
        PayloadView::FileKeyExchange { file_id, encrypted_key, from, to } => {
            let e1 = enc_str(file_id);
            let e2 = enc_bytes(encrypted_key);
            let e3 = enc_str(from);
            let e4 = enc_str(to);
            assert(s =~= enc_u8(0) + (e1 + (e2 + (e3 + e4))));
            lemma_subrange_split(s, 0, enc_u8(0), e1 + (e2 + (e3 + e4)));
            lemma_dec_u8(s, 0, 0);
            lemma_subrange_split(s, 1, e1, e2 + (e3 + e4));
            lemma_dec_str(s, 1, file_id);
            let p1 = 1 + e1.len() as int;
            lemma_subrange_split(s, p1, e2, e3 + e4);
            lemma_dec_bytes(s, p1, encrypted_key);
            let p2 = p1 + e2.len() as int;
            lemma_subrange_split(s, p2, e3, e4);
            lemma_dec_str(s, p2, from);
            let p3 = p2 + e3.len() as int;
            assert(s.subrange(p3, p3 + e4.len() as int) =~= e4);
            lemma_dec_str(s, p3, to);
            assert(dec_payload(s) =~= Some(v));
        },
        _ => {},
    }
}

/// One case of the payload round trip.
#[verifier::rlimit(80)]
#[verifier::spinoff_prover]
proof fn lemma_payload_rt_filechunkrequest(v: PayloadView)
    requires
        payload_bounded(v),
        v is FileChunkRequest,
    ensures
        dec_payload(enc_payload(v)) == Some(v),
{
    let s = enc_payload(v);
    vstd::bytes::lemma_auto_spec_u64_to_from_le_bytes();
    vstd::bytes::lemma_auto_spec_u32_to_from_le_bytes();
    assert(s.subrange(0, s.len() as int) =~= s);
    match v {
        PayloadView::FileChunkRequest { file_id, chunk_index, chunk_size, signature } => {
            let e1 = enc_str(file_id);
            let e2 = enc_u64(chunk_index as u64);
            let e3 = enc_u64(chunk_size as u64);
            let e4 = enc_opt_bytes(signature);
            assert(s =~= enc_u8(1) + (e1 + (e2 + (e3 + e4))));
            lemma_subrange_split(s, 0, enc_u8(1), e1 + (e2 + (e3 + e4)));
            lemma_dec_u8(s, 0, 1);
            lemma_subrange_split(s, 1, e1, e2 + (e3 + e4));
            lemma_dec_str(s, 1, file_id);
            let p1 = 1 + e1.len() as int;
            lemma_subrange_split(s, p1, e2, e3 + e4);
            lemma_dec_u64(s, p1, chunk_index as u64);
            let p2 = p1 + e2.len() as int;
            lemma_subrange_split(s, p2, e3, e4);
            lemma_dec_u64(s, p2, chunk_size as u64);
            let p3 = p2 + e3.len() as int;
            assert(s.subrange(p3, p3 + e4.len() as int) =~= e4);
            lemma_dec_opt_bytes(s, p3, signature);
            assert(dec_payload(s) =~= Some(v));
        },
        _ => {},
    }
}

/// One case of the payload round trip.
#[verifier::rlimit(80)]
#[verifier::spinoff_prover]
proof fn lemma_payload_rt_filechunkresponse(v: PayloadView)
    requires
        payload_bounded(v),
        v is FileChunkResponse,
    ensures
        dec_payload(enc_payload(v)) == Some(v),
{
    let s = enc_payload(v);
    vstd::bytes::lemma_auto_spec_u64_to_from_le_bytes();
    vstd::bytes::lemma_auto_spec_u32_to_from_le_bytes();
    assert(s.subrange(0, s.len() as int) =~= s);
    match v {
        PayloadView::FileChunkResponse { file_id, chunk_index, data } => {
            let e1 = enc_str(file_id);
            let e2 = enc_u64(chunk_index as u64);
            let e3 = enc_bytes(data);
            assert(s =~= enc_u8(2) + (e1 + (e2 + e3)));
            lemma_subrange_split(s, 0, enc_u8(2), e1 + (e2 + e3));
            lemma_dec_u8(s, 0, 2);
            lemma_subrange_split(s, 1, e1, e2 + e3);
            lemma_dec_str(s, 1, file_id);
            let p1 = 1 + e1.len() as int;
            lemma_subrange_split(s, p1, e2, e3);
            lemma_dec_u64(s, p1, chunk_index as u64);
            let p2 = p1 + e2.len() as int;
            assert(s.subrange(p2, p2 + e3.len() as int) =~= e3);
            lemma_dec_bytes(s, p2, data);
            assert(dec_payload(s) =~= Some(v));
        },
        _ => {},
    }
}

/// One case of the payload round trip.
#[verifier::rlimit(80)]
#[verifier::spinoff_prover]
proof fn lemma_payload_rt_filelistrequest(v: PayloadView)
    requires
        payload_bounded(v),
        v is FileListRequest,
    ensures
        dec_payload(enc_payload(v)) == Some(v),
{
    let s = enc_payload(v);
    vstd::bytes::lemma_auto_spec_u64_to_from_le_bytes();
    vstd::bytes::lemma_auto_spec_u32_to_from_le_bytes();
    assert(s.subrange(0, s.len() as int) =~= s);
    match v {
        PayloadView::FileListRequest { signature } => {
            let e1 = enc_opt_bytes(signature);
            assert(s =~= enc_u8(3) + e1);
            lemma_subrange_split(s, 0, enc_u8(3), e1);
            lemma_dec_u8(s, 0, 3);
            assert(s.subrange(1, 1 + e1.len() as int) =~= e1);
            lemma_dec_opt_bytes(s, 1, signature);
            assert(dec_payload(s) =~= Some(v));
        },
        _ => {},
    }
}

/// One case of the payload round trip.
#[verifier::rlimit(80)]
#[verifier::spinoff_prover]
proof fn lemma_payload_rt_filelistresponse(v: PayloadView)
    requires
        payload_bounded(v),
        v is FileListResponse,
    ensures
        dec_payload(enc_payload(v)) == Some(v),
{
    let s = enc_payload(v);
    vstd::bytes::lemma_auto_spec_u64_to_from_le_bytes();
    vstd::bytes::lemma_auto_spec_u32_to_from_le_bytes();
    assert(s.subrange(0, s.len() as int) =~= s);
    match v {
        PayloadView::FileListResponse { files } => {
            let blobs = files.map_values(|m: crate::store::MetaView| crate::store::enc_meta(m));
            let e1 = enc_blob_list(blobs);
            assert(s =~= enc_u8(4) + e1);
            lemma_subrange_split(s, 0, enc_u8(4), e1);
            lemma_dec_u8(s, 0, 4);
            assert(bounded_blobs(blobs)) by {
                assert forall|i: int| 0 <= i < blobs.len() implies (#[trigger] blobs[i]).len()
                    <= u64::MAX by {
                    assert(blobs[i] == crate::store::enc_meta(files[i]));
                }
            }
            assert(s.subrange(1, 1 + e1.len() as int) =~= e1);
            lemma_dec_blob_list(s, 1, blobs);
            lemma_dec_meta_blobs(files);
            assert(dec_payload(s) =~= Some(v));
        },
        _ => {},
    }
}

/// One case of the payload round trip.
#[verifier::rlimit(80)]
#[verifier::spinoff_prover]
proof fn lemma_payload_rt_modelupdate(v: PayloadView)
    requires
        payload_bounded(v),
        v is ModelUpdate,
    ensures
        dec_payload(enc_payload(v)) == Some(v),
{
    let s = enc_payload(v);
    vstd::bytes::lemma_auto_spec_u64_to_from_le_bytes();
    vstd::bytes::lemma_auto_spec_u32_to_from_le_bytes();
    assert(s.subrange(0, s.len() as int) =~= s);
    match v {
        PayloadView::ModelUpdate { weights, epoch } => {
            let e1 = enc_bytes(weights);
            let e2 = enc_u32(epoch);
            assert(s =~= enc_u8(5) + (e1 + e2));
            lemma_subrange_split(s, 0, enc_u8(5), e1 + e2);
            lemma_dec_u8(s, 0, 5);
            lemma_subrange_split(s, 1, e1, e2);
            lemma_dec_bytes(s, 1, weights);
            let p1 = 1 + e1.len() as int;
            assert(s.subrange(p1, p1 + e2.len() as int) =~= e2);
            lemma_dec_u32(s, p1, epoch);
            assert(dec_payload(s) =~= Some(v));
        },
        _ => {},
    }
}

/// One case of the payload round trip.
#[verifier::rlimit(80)]
#[verifier::spinoff_prover]
proof fn lemma_payload_rt_encrypteddirectmessage(v: PayloadView)
    requires
        payload_bounded(v),
        v is EncryptedDirectMessage,
    ensures
        dec_payload(enc_payload(v)) == Some(v),
{
    let s = enc_payload(v);
    vstd::bytes::lemma_auto_spec_u64_to_from_le_bytes();
    vstd::bytes::lemma_auto_spec_u32_to_from_le_bytes();
    assert(s.subrange(0, s.len() as int) =~= s);
    match v {
        PayloadView::EncryptedDirectMessage { message } => {
            let e1 = enc_bytes(enc_msg(message));
            assert(s =~= enc_u8(6) + e1);
            lemma_subrange_split(s, 0, enc_u8(6), e1);
            lemma_dec_u8(s, 0, 6);
            assert(s.subrange(1, 1 + e1.len() as int) =~= e1);
            lemma_dec_bytes(s, 1, enc_msg(message));
            lemma_msg_round_trip(message);
            assert(dec_payload(s) =~= Some(v));
        },
        _ => {},
    }
}

/// One case of the payload round trip.
#[verifier::rlimit(80)]
#[verifier::spinoff_prover]
proof fn lemma_payload_rt_deliveryack(v: PayloadView)
    requires
        payload_bounded(v),
        v is DeliveryAck,
    ensures
        dec_payload(enc_payload(v)) == Some(v),
{
    let s = enc_payload(v);
    vstd::bytes::lemma_auto_spec_u64_to_from_le_bytes();
    vstd::bytes::lemma_auto_spec_u32_to_from_le_bytes();
    assert(s.subrange(0, s.len() as int) =~= s);
    match v {
        PayloadView::DeliveryAck { ack } => {
            let e1 = enc_bytes(enc_ack(ack));
            assert(s =~= enc_u8(7) + e1);
            lemma_subrange_split(s, 0, enc_u8(7), e1);
            lemma_dec_u8(s, 0, 7);
            assert(s.subrange(1, 1 + e1.len() as int) =~= e1);
            lemma_dec_bytes(s, 1, enc_ack(ack));
            lemma_ack_round_trip(ack);
            assert(dec_payload(s) =~= Some(v));
        },
        _ => {},
    }
}

/// One case of the payload round trip.
#[verifier::rlimit(80)]
#[verifier::spinoff_prover]
proof fn lemma_payload_rt_presenceupdate(v: PayloadView)
    requires
        payload_bounded(v),
        v is PresenceUpdate,
    ensures
        dec_payload(enc_payload(v)) == Some(v),
{
    let s = enc_payload(v);
    vstd::bytes::lemma_auto_spec_u64_to_from_le_bytes();
    vstd::bytes::lemma_auto_spec_u32_to_from_le_bytes();
    assert(s.subrange(0, s.len() as int) =~= s);
    match v {
        PayloadView::PresenceUpdate { status } => {
            let e1 = enc_bytes(enc_status(status));
            assert(s =~= enc_u8(8) + e1);
            lemma_subrange_split(s, 0, enc_u8(8), e1);
            lemma_dec_u8(s, 0, 8);
            assert(s.subrange(1, 1 + e1.len() as int) =~= e1);
            lemma_dec_bytes(s, 1, enc_status(status));
            lemma_status_round_trip(status);
            assert(dec_payload(s) =~= Some(v));
        },
        _ => {},
    }
}

/// One case of the payload round trip.
#[verifier::rlimit(80)]
#[verifier::spinoff_prover]
proof fn lemma_payload_rt_chatroomcreate(v: PayloadView)
    requires
        payload_bounded(v),
        v is ChatRoomCreate,
    ensures
        dec_payload(enc_payload(v)) == Some(v),
{
    let s = enc_payload(v);
    vstd::bytes::lemma_auto_spec_u64_to_from_le_bytes();
    vstd::bytes::lemma_auto_spec_u32_to_from_le_bytes();
    assert(s.subrange(0, s.len() as int) =~= s);
    match v {
        PayloadView::ChatRoomCreate { room } => {
            let e1 = enc_bytes(enc_room(room));
            assert(s =~= enc_u8(9) + e1);
            lemma_subrange_split(s, 0, enc_u8(9), e1);
            lemma_dec_u8(s, 0, 9);
            assert(s.subrange(1, 1 + e1.len() as int) =~= e1);
            lemma_dec_bytes(s, 1, enc_room(room));
            lemma_room_round_trip(room);
            assert(dec_payload(s) =~= Some(v));
        },
        _ => {},
    }
}

/// One case of the payload round trip.
#[verifier::rlimit(80)]
#[verifier::spinoff_prover]
proof fn lemma_payload_rt_chatroomjoin(v: PayloadView)
    requires
        payload_bounded(v),
        v is ChatRoomJoin,
    ensures
        dec_payload(enc_payload(v)) == Some(v),
{
    let s = enc_payload(v);
    vstd::bytes::lemma_auto_spec_u64_to_from_le_bytes();
    vstd::bytes::lemma_auto_spec_u32_to_from_le_bytes();
    assert(s.subrange(0, s.len() as int) =~= s);
    match v {
        PayloadView::ChatRoomJoin { room_id, username } => {
            let e1 = enc_str(room_id);
            let e2 = enc_str(username);
            assert(s =~= enc_u8(10) + (e1 + e2));
            lemma_subrange_split(s, 0, enc_u8(10), e1 + e2);
            lemma_dec_u8(s, 0, 10);
            lemma_subrange_split(s, 1, e1, e2);
            lemma_dec_str(s, 1, room_id);
            let p1 = 1 + e1.len() as int;
            assert(s.subrange(p1, p1 + e2.len() as int) =~= e2);
            lemma_dec_str(s, p1, username);
            assert(dec_payload(s) =~= Some(v));
        },
        _ => {},
    }
}

/// One case of the payload round trip.
#[verifier::rlimit(80)]
#[verifier::spinoff_prover]
proof fn lemma_payload_rt_chatroomleave(v: PayloadView)
    requires
        payload_bounded(v),
        v is ChatRoomLeave,
    ensures
        dec_payload(enc_payload(v)) == Some(v),
{
    let s = enc_payload(v);
    vstd::bytes::lemma_auto_spec_u64_to_from_le_bytes();
    vstd::bytes::lemma_auto_spec_u32_to_from_le_bytes();
    assert(s.subrange(0, s.len() as int) =~= s);
    match v {
        PayloadView::ChatRoomLeave { room_id, username } => {
            let e1 = enc_str(room_id);
            let e2 = enc_str(username);
            assert(s =~= enc_u8(11) + (e1 + e2));
            lemma_subrange_split(s, 0, enc_u8(11), e1 + e2);
            lemma_dec_u8(s, 0, 11);
            lemma_subrange_split(s, 1, e1, e2);
            lemma_dec_str(s, 1, room_id);
            let p1 = 1 + e1.len() as int;
            assert(s.subrange(p1, p1 + e2.len() as int) =~= e2);
            lemma_dec_str(s, p1, username);
            assert(dec_payload(s) =~= Some(v));
        },
        _ => {},
    }
}

/// One case of the payload round trip.
#[verifier::rlimit(80)]
#[verifier::spinoff_prover]
proof fn lemma_payload_rt_chatroommessage(v: PayloadView)
    requires
        payload_bounded(v),
        v is ChatRoomMessage,
    ensures
        dec_payload(enc_payload(v)) == Some(v),
{
    let s = enc_payload(v);
    vstd::bytes::lemma_auto_spec_u64_to_from_le_bytes();
    vstd::bytes::lemma_auto_spec_u32_to_from_le_bytes();
    assert(s.subrange(0, s.len() as int) =~= s);
    match v {
        PayloadView::ChatRoomMessage { room_id, message } => {
            let e1 = enc_str(room_id);
            let e2 = enc_bytes(enc_msg(message));
            assert(s =~= enc_u8(12) + (e1 + e2));
            lemma_subrange_split(s, 0, enc_u8(12), e1 + e2);
            lemma_dec_u8(s, 0, 12);
            lemma_subrange_split(s, 1, e1, e2);
            lemma_dec_str(s, 1, room_id);
            let p1 = 1 + e1.len() as int;
            assert(s.subrange(p1, p1 + e2.len() as int) =~= e2);
            lemma_dec_bytes(s, p1, enc_msg(message));
            lemma_msg_round_trip(message);
            assert(dec_payload(s) =~= Some(v));
        },
        _ => {},
    }
}

/// One case of the payload round trip.
#[verifier::rlimit(80)]
#[verifier::spinoff_prover]
proof fn lemma_payload_rt_typingindicator(v: PayloadView)
    requires
        payload_bounded(v),
        v is TypingIndicator,
    ensures
        dec_payload(enc_payload(v)) == Some(v),
{
    let s = enc_payload(v);
    vstd::bytes::lemma_auto_spec_u64_to_from_le_bytes();
    vstd::bytes::lemma_auto_spec_u32_to_from_le_bytes();
    assert(s.subrange(0, s.len() as int) =~= s);
    match v {
        PayloadView::TypingIndicator { room_id, username, is_typing } => {
            let e1 = enc_str(room_id);
            let e2 = enc_str(username);
            let e3 = enc_bool(is_typing);
            assert(s =~= enc_u8(13) + (e1 + (e2 + e3)));
            lemma_subrange_split(s, 0, enc_u8(13), e1 + (e2 + e3));
            lemma_dec_u8(s, 0, 13);
            lemma_subrange_split(s, 1, e1, e2 + e3);
            lemma_dec_str(s, 1, room_id);
            let p1 = 1 + e1.len() as int;
            lemma_subrange_split(s, p1, e2, e3);
            lemma_dec_str(s, p1, username);
            let p2 = p1 + e2.len() as int;
            assert(s.subrange(p2, p2 + e3.len() as int) =~= e3);
            lemma_dec_bool(s, p2, is_typing);
            assert(dec_payload(s) =~= Some(v));
        },
        _ => {},
    }
}

/// One case of the payload round trip.
#[verifier::rlimit(80)]
#[verifier::spinoff_prover]
proof fn lemma_payload_rt_peerdiscovery(v: PayloadView)
    requires
        payload_bounded(v),
        v is PeerDiscovery,
    ensures
        dec_payload(enc_payload(v)) == Some(v),
{
    let s = enc_payload(v);
    vstd::bytes::lemma_auto_spec_u64_to_from_le_bytes();
    vstd::bytes::lemma_auto_spec_u32_to_from_le_bytes();
    assert(s.subrange(0, s.len() as int) =~= s);
    match v {
        PayloadView::PeerDiscovery { peer_id, addresses, user_info } => {
            let e1 = enc_str(peer_id);
            let e2 = crate::store::enc_str_list(addresses);
            let frame = match user_info {
                Some(u) => Some(enc_identity(u)),
                None => None,
            };
            let e3 = enc_opt_bytes(frame);
            assert(s =~= enc_u8(14) + (e1 + (e2 + e3)));
            lemma_subrange_split(s, 0, enc_u8(14), e1 + (e2 + e3));
            lemma_dec_u8(s, 0, 14);
            lemma_subrange_split(s, 1, e1, e2 + e3);
            lemma_dec_str(s, 1, peer_id);
            let p1 = 1 + e1.len() as int;
            lemma_subrange_split(s, p1, e2, e3);
            crate::store::lemma_dec_str_list(s, p1, addresses);
            let p2 = p1 + e2.len() as int;
            assert(s.subrange(p2, p2 + e3.len() as int) =~= e3);
            lemma_dec_opt_bytes(s, p2, frame);
            match user_info {
                Some(u) => {
                    lemma_identity_round_trip(u);
                },
                None => {},
            }
            assert(dec_payload(s) =~= Some(v));
        },
        _ => {},
    }
}

/// One case of the payload round trip.
#[verifier::rlimit(80)]
#[verifier::spinoff_prover]
proof fn lemma_payload_rt_peerping(v: PayloadView)
    requires
        payload_bounded(v),
        v is PeerPing,
    ensures
        dec_payload(enc_payload(v)) == Some(v),
{
    let s = enc_payload(v);
    vstd::bytes::lemma_auto_spec_u64_to_from_le_bytes();
    vstd::bytes::lemma_auto_spec_u32_to_from_le_bytes();
    assert(s.subrange(0, s.len() as int) =~= s);
    match v {
        PayloadView::PeerPing { timestamp, peer_id } => {
            let e1 = enc_u64(timestamp);
            let e2 = enc_str(peer_id);
            assert(s =~= enc_u8(15) + (e1 + e2));
            lemma_subrange_split(s, 0, enc_u8(15), e1 + e2);
            lemma_dec_u8(s, 0, 15);
            lemma_subrange_split(s, 1, e1, e2);
            lemma_dec_u64(s, 1, timestamp);
            let p1 = 1 + e1.len() as int;
            assert(s.subrange(p1, p1 + e2.len() as int) =~= e2);
            lemma_dec_str(s, p1, peer_id);
            assert(dec_payload(s) =~= Some(v));
        },
        _ => {},
    }
}

/// One case of the payload round trip.
#[verifier::rlimit(80)]
#[verifier::spinoff_prover]
proof fn lemma_payload_rt_peerpong(v: PayloadView)
    requires
        payload_bounded(v),
        v is PeerPong,
    ensures
        dec_payload(enc_payload(v)) == Some(v),
{
    let s = enc_payload(v);
    vstd::bytes::lemma_auto_spec_u64_to_from_le_bytes();
    vstd::bytes::lemma_auto_spec_u32_to_from_le_bytes();
    assert(s.subrange(0, s.len() as int) =~= s);
    match v {
        PayloadView::PeerPong { timestamp, peer_id } => {
            let e1 = enc_u64(timestamp);
            let e2 = enc_str(peer_id);
            assert(s =~= enc_u8(16) + (e1 + e2));
            lemma_subrange_split(s, 0, enc_u8(16), e1 + e2);
            lemma_dec_u8(s, 0, 16);
            lemma_subrange_split(s, 1, e1, e2);
            lemma_dec_u64(s, 1, timestamp);
            let p1 = 1 + e1.len() as int;
            assert(s.subrange(p1, p1 + e2.len() as int) =~= e2);
            lemma_dec_str(s, p1, peer_id);
            assert(dec_payload(s) =~= Some(v));
        },
        _ => {},
    }
}

} // verus!

verus! {

/// Encodes a protocol payload as one self-describing blob.
#[verifier::loop_isolation(false)]
#[verifier::rlimit(100)]
#[verifier::spinoff_prover]
pub fn encode_payload(m: &crate::peer::P2PMessage) -> (out: Vec<u8>)
    ensures
        out@ == enc_payload(m@),
        payload_bounded(m@),
{
    let mut out: Vec<u8> = Vec::new();
    match m {
        crate::peer::P2PMessage::FileKeyExchange { file_id, encrypted_key, from, to } => {
            put_u8(&mut out, 0);
            put_str(&mut out, file_id.as_str());
            put_bytes(&mut out, encrypted_key);
            put_str(&mut out, from.as_str());
            put_str(&mut out, to.as_str());
            proof {
                assert(out@ =~= enc_payload(m@));
            }
        },
        crate::peer::P2PMessage::FileChunkRequest {
            file_id,
            chunk_index,
            chunk_size,
            signature,
        } => {
            put_u8(&mut out, 1);
            put_str(&mut out, file_id.as_str());
            put_u64(&mut out, *chunk_index as u64);
            put_u64(&mut out, *chunk_size as u64);
            put_opt_bytes(&mut out, signature);
            proof {
                assert(out@ =~= enc_payload(m@));
            }
        },
        crate::peer::P2PMessage::FileChunkResponse { file_id, chunk_index, data } => {
            put_u8(&mut out, 2);
            put_str(&mut out, file_id.as_str());
            put_u64(&mut out, *chunk_index as u64);
            put_bytes(&mut out, data);
            proof {
                assert(out@ =~= enc_payload(m@));
            }
        },
        crate::peer::P2PMessage::FileListRequest { signature } => {
            put_u8(&mut out, 3);
            put_opt_bytes(&mut out, signature);
            proof {
                assert(out@ =~= enc_payload(m@));
            }
        },
        crate::peer::P2PMessage::FileListResponse { files } => {
            put_u8(&mut out, 4);
            let mut blobs: Vec<Vec<u8>> = Vec::new();
            let n = files.len();
            for i in 0..n
                invariant
                    blobs@.len() == i,
                    forall|a: int|
                        0 <= a < i ==> (#[trigger] blobs@[a])@ == crate::store::enc_meta(
                            files@[a]@,
                        ) && crate::store::meta_bounded(files@[a]@) && blobs@[a]@.len()
                            <= u64::MAX,
            {
                let b = crate::store::encode_metadata(&files[i]);
                let bl = b.len();
                proof {
                    assert(b@.len() == bl as nat);
                    assert(b@.len() <= u64::MAX);
                }
                blobs.push(b);
                proof {
                    assert(blobs@[i as int]@ == crate::store::enc_meta(files@[i as int]@));
                }
            }
            proof {
                assert(blobs@.map_values(|b: Vec<u8>| b@) =~= files@.map_values(
                    |f: crate::store::FileMetadata| f@,
                ).map_values(|mv: crate::store::MetaView| crate::store::enc_meta(mv)));
            }
            put_blob_list(&mut out, &blobs);
            proof {
                assert(out@ =~= enc_payload(m@));
                assert forall|i: int|
                    0 <= i < m@->FileListResponse_files.len() implies crate::store::meta_bounded(
                    #[trigger] m@->FileListResponse_files[i],
                ) && crate::store::enc_meta(m@->FileListResponse_files[i]).len() <= u64::MAX by {
                    assert(m@->FileListResponse_files[i] == files@[i]@);
                    assert(blobs@[i]@ == crate::store::enc_meta(files@[i]@));
                    assert(blobs@[i]@.len() <= u64::MAX);
                }
            }
        },
        crate::peer::P2PMessage::ModelUpdate { weights, epoch } => {
            put_u8(&mut out, 5);
            put_bytes(&mut out, weights);
            put_u32(&mut out, *epoch);
            proof {
                assert(out@ =~= enc_payload(m@));
            }
        },
        crate::peer::P2PMessage::EncryptedDirectMessage { message } => {
            put_u8(&mut out, 6);
            let frame = encode_message_record(message);
            let fl = frame.len();
            proof {
                assert(frame@.len() == fl as nat);
            }
            put_bytes(&mut out, &frame);
            proof {
                assert(out@ =~= enc_payload(m@));
            }
        },
        crate::peer::P2PMessage::DeliveryAck { ack } => {
            put_u8(&mut out, 7);
            let frame = encode_ack_record(ack);
            let fl = frame.len();
            proof {
                assert(frame@.len() == fl as nat);
            }
            put_bytes(&mut out, &frame);
            proof {
                assert(out@ =~= enc_payload(m@));
            }
        },
        crate::peer::P2PMessage::PresenceUpdate { status } => {
            put_u8(&mut out, 8);
            let frame = encode_status_record(status);
            let fl = frame.len();
            proof {
                assert(frame@.len() == fl as nat);
            }
            put_bytes(&mut out, &frame);
            proof {
                assert(out@ =~= enc_payload(m@));
            }
        },
        crate::peer::P2PMessage::ChatRoomCreate { room } => {
            put_u8(&mut out, 9);
            let frame = encode_room_record(room);
            let fl = frame.len();
            proof {
                assert(frame@.len() == fl as nat);
            }
            put_bytes(&mut out, &frame);
            proof {
                assert(out@ =~= enc_payload(m@));
            }
        },
        crate::peer::P2PMessage::ChatRoomJoin { room_id, username } => {
            put_u8(&mut out, 10);
            put_str(&mut out, room_id.as_str());
            put_str(&mut out, username.as_str());
            proof {
                assert(out@ =~= enc_payload(m@));
            }
        },
        crate::peer::P2PMessage::ChatRoomLeave { room_id, username } => {
            put_u8(&mut out, 11);
            put_str(&mut out, room_id.as_str());
            put_str(&mut out, username.as_str());
            proof {
                assert(out@ =~= enc_payload(m@));
            }
        },
        crate::peer::P2PMessage::ChatRoomMessage { room_id, message } => {
            put_u8(&mut out, 12);
            put_str(&mut out, room_id.as_str());
            let frame = encode_message_record(message);
            let fl = frame.len();
            proof {
                assert(frame@.len() == fl as nat);
            }
            put_bytes(&mut out, &frame);
            proof {
                assert(out@ =~= enc_payload(m@));
            }
        },
        crate::peer::P2PMessage::TypingIndicator { room_id, username, is_typing } => {
            put_u8(&mut out, 13);
            put_str(&mut out, room_id.as_str());
            put_str(&mut out, username.as_str());
            put_bool(&mut out, *is_typing);
            proof {
                assert(out@ =~= enc_payload(m@));
            }
        },
        crate::peer::P2PMessage::PeerDiscovery { peer_id, addresses, user_info } => {
            put_u8(&mut out, 14);
            put_str(&mut out, peer_id.as_str());
            crate::store::put_str_list(&mut out, addresses);
            let frame: Option<Vec<u8>> = match user_info {
                Some(u) => {
                    let b = encode_identity_record(u);
                    let bl = b.len();
                    proof {
                        assert(b@.len() == bl as nat);
                    }
                    Some(b)
                },
                None => None,
            };
            put_opt_bytes(&mut out, &frame);
            proof {
                assert(out@ =~= enc_payload(m@));
            }
        },
        crate::peer::P2PMessage::PeerPing { timestamp, peer_id } => {
            put_u8(&mut out, 15);
            put_u64(&mut out, *timestamp);
            put_str(&mut out, peer_id.as_str());
            proof {
                assert(out@ =~= enc_payload(m@));
            }
        },
        crate::peer::P2PMessage::PeerPong { timestamp, peer_id } => {
            put_u8(&mut out, 16);
            put_u64(&mut out, *timestamp);
            put_str(&mut out, peer_id.as_str());
            proof {
                assert(out@ =~= enc_payload(m@));
            }
        },
    }
    out
}

} // verus!

verus! {

/// Decodes a protocol payload blob back to a message; `None` exactly when
/// the blob is not a well-formed payload.
#[verifier::loop_isolation(false)]
#[verifier::rlimit(100)]
#[verifier::spinoff_prover]
pub fn decode_payload(s: &Vec<u8>) -> (r: Option<crate::peer::P2PMessage>)
    ensures
        r matches Some(m) ==> dec_payload(s@) == Some(m@),
        r is None ==> dec_payload(s@) is None,
{
    let (tag, p0) = match take_u8(s, 0) {
        Some(x) => x,
        None => {
            return None;
        },
    };
    if tag == 0 {
        let (file_id, p1) = match take_str(s, p0) {
            Some(x) => x,
            None => {
                return None;
            },
        };
        let (encrypted_key, p2) = match take_bytes(s, p1) {
            Some(x) => x,
            None => {
                return None;
            },
        };
        let (from, p3) = match take_str(s, p2) {
            Some(x) => x,
            None => {
                return None;
            },
        };
        let (to, _p4) = match take_str(s, p3) {
            Some(x) => x,
            None => {
                return None;
            },
        };
        let m = crate::peer::P2PMessage::FileKeyExchange { file_id, encrypted_key, from, to };
        proof {
            assert(dec_payload(s@) =~= Some(m@));
        }
        Some(m)
    } else if tag == 1 {
        let (file_id, p1) = match take_str(s, p0) {
            Some(x) => x,
            None => {
                return None;
            },
        };
        let (ci, p2) = match take_u64(s, p1) {
            Some(x) => x,
            None => {
                return None;
            },
        };
        let (cs, p3) = match take_u64(s, p2) {
            Some(x) => x,
            None => {
                return None;
            },
        };
        let (signature, _p4) = match take_opt_bytes(s, p3) {
            Some(x) => x,
            None => {
                return None;
            },
        };
        if ci > usize::MAX as u64 || cs > usize::MAX as u64 {
            return None;
        }
        let m = crate::peer::P2PMessage::FileChunkRequest {
            file_id,
            chunk_index: ci as usize,
            chunk_size: cs as usize,
            signature,
        };
        proof {
            assert(dec_payload(s@) =~= Some(m@));
        }
        Some(m)
    } else if tag == 2 {
        let (file_id, p1) = match take_str(s, p0) {
            Some(x) => x,
            None => {
                return None;
            },
        };
        let (ci, p2) = match take_u64(s, p1) {
            Some(x) => x,
            None => {
                return None;
            },
        };
        let (data, _p3) = match take_bytes(s, p2) {
            Some(x) => x,
            None => {
                return None;
            },
        };
        if ci > usize::MAX as u64 {
            return None;
        }
        let m = crate::peer::P2PMessage::FileChunkResponse {
            file_id,
            chunk_index: ci as usize,
            data,
        };
        proof {
            assert(dec_payload(s@) =~= Some(m@));
        }
        Some(m)
    } else if tag == 3 {
        let (signature, _p1) = match take_opt_bytes(s, p0) {
            Some(x) => x,
            None => {
                return None;
            },
        };
        let m = crate::peer::P2PMessage::FileListRequest { signature };
        proof {
            assert(dec_payload(s@) =~= Some(m@));
        }
        Some(m)
    } else if tag == 4 {
        let (blobs, _p1) = match take_blob_list(s, p0) {
            Some(x) => x,
            None => {
                return None;
            },
        };
        let mut files: Vec<crate::store::FileMetadata> = Vec::new();
        let bn = blobs.len();
        let ghost blob_views = blobs@.map_values(|b: Vec<u8>| b@);
        for i in 0..bn
            invariant
                bn == blobs@.len(),
                blob_views == blobs@.map_values(|b: Vec<u8>| b@),
                dec_meta_blobs(blob_views.take(i as int)) == Some(
                    files@.map_values(|f: crate::store::FileMetadata| f@),
                ),
        {
            let f = match crate::store::decode_metadata(&blobs[i]) {
                Some(f) => f,
                None => {
                    proof {
                        lemma_dec_meta_blobs_stuck(blob_views, i as int);
                    }
                    return None;
                },
            };
            files.push(f);
            proof {
                assert(blob_views.take(i + 1).drop_last() =~= blob_views.take(i as int));
                assert(blob_views.take(i + 1).last() == blob_views[i as int]);
                assert(files@.map_values(|f2: crate::store::FileMetadata| f2@)
                    =~= files@.drop_last().map_values(
                    |f2: crate::store::FileMetadata| f2@,
                ).push(files@.last()@));
            }
        }
        proof {
            assert(blob_views.take(bn as int) =~= blob_views);
        }
        let m = crate::peer::P2PMessage::FileListResponse { files };
        proof {
            assert(dec_payload(s@) =~= Some(m@));
        }
        Some(m)
    } else if tag == 5 {
        let (weights, p1) = match take_bytes(s, p0) {
            Some(x) => x,
            None => {
                return None;
            },
        };
        let (epoch, _p2) = match take_u32(s, p1) {
            Some(x) => x,
            None => {
                return None;
            },
        };
        let m = crate::peer::P2PMessage::ModelUpdate { weights, epoch };
        proof {
            assert(dec_payload(s@) =~= Some(m@));
        }
        Some(m)
    } else if tag == 6 {
        let (frame, _p1) = match take_bytes(s, p0) {
            Some(x) => x,
            None => {
                return None;
            },
        };
        let message = match decode_message_record(&frame) {
            Some(v) => v,
            None => {
                return None;
            },
        };
        let m = crate::peer::P2PMessage::EncryptedDirectMessage { message };
        proof {
            assert(dec_payload(s@) =~= Some(m@));
        }
        Some(m)
    } else if tag == 7 {
        let (frame, _p1) = match take_bytes(s, p0) {
            Some(x) => x,
            None => {
                return None;
            },
        };
        let ack = match decode_ack_record(&frame) {
            Some(v) => v,
            None => {
                return None;
            },
        };
        let m = crate::peer::P2PMessage::DeliveryAck { ack };
        proof {
            assert(dec_payload(s@) =~= Some(m@));
        }
        Some(m)
    } else if tag == 8 {
        let (frame, _p1) = match take_bytes(s, p0) {
            Some(x) => x,
            None => {
                return None;
            },
        };
        let status = match decode_status_record(&frame) {
            Some(v) => v,
            None => {
                return None;
            },
        };
        let m = crate::peer::P2PMessage::PresenceUpdate { status };
        proof {
            assert(dec_payload(s@) =~= Some(m@));
        }
        Some(m)
    } else if tag == 9 {
        let (frame, _p1) = match take_bytes(s, p0) {
            Some(x) => x,
            None => {
                return None;
            },
        };
        let room = match decode_room_record(&frame) {
            Some(v) => v,
            None => {
                return None;
            },
        };
        let m = crate::peer::P2PMessage::ChatRoomCreate { room };
        proof {
            assert(dec_payload(s@) =~= Some(m@));
        }
        Some(m)
    } else if tag == 10 {
        let (room_id, p1) = match take_str(s, p0) {
            Some(x) => x,
            None => {
                return None;
            },
        };
        let (username, _p2) = match take_str(s, p1) {
            Some(x) => x,
            None => {
                return None;
            },
        };
        let m = crate::peer::P2PMessage::ChatRoomJoin { room_id, username };
        proof {
            assert(dec_payload(s@) =~= Some(m@));
        }
        Some(m)
    } else if tag == 11 {
        let (room_id, p1) = match take_str(s, p0) {
            Some(x) => x,
            None => {
                return None;
            },
        };
        let (username, _p2) = match take_str(s, p1) {
            Some(x) => x,
            None => {
                return None;
            },
        };
        let m = crate::peer::P2PMessage::ChatRoomLeave { room_id, username };
        proof {
            assert(dec_payload(s@) =~= Some(m@));
        }
        Some(m)
    } else if tag == 12 {
        let (room_id, p1) = match take_str(s, p0) {
            Some(x) => x,
            None => {
                return None;
            },
        };
        let (frame, _p2) = match take_bytes(s, p1) {
            Some(x) => x,
            None => {
                return None;
            },
        };
        let message = match decode_message_record(&frame) {
            Some(v) => v,
            None => {
                return None;
            },
        };
        let m = crate::peer::P2PMessage::ChatRoomMessage { room_id, message };
        proof {
            assert(dec_payload(s@) =~= Some(m@));
        }
        Some(m)
    } else if tag == 13 {
        let (room_id, p1) = match take_str(s, p0) {
            Some(x) => x,
            None => {
                return None;
            },
        };
        let (username, p2) = match take_str(s, p1) {
            Some(x) => x,
            None => {
                return None;
            },
        };
        let (is_typing, _p3) = match take_bool(s, p2) {
            Some(x) => x,
            None => {
                return None;
            },
        };
        let m = crate::peer::P2PMessage::TypingIndicator { room_id, username, is_typing };
        proof {
            assert(dec_payload(s@) =~= Some(m@));
        }
        Some(m)
    } else if tag == 14 {
        let (peer_id, p1) = match take_str(s, p0) {
            Some(x) => x,
            None => {
                return None;
            },
        };
        let (addresses, p2) = match crate::store::take_str_list(s, p1) {
            Some(x) => x,
            None => {
                return None;
            },
        };
        let (frame, _p3) = match take_opt_bytes(s, p2) {
            Some(x) => x,
            None => {
                return None;
            },
        };
        let user_info = match frame {
            Some(blob) => {
                match decode_identity_record(&blob) {
                    Some(u) => Some(u),
                    None => {
                        return None;
                    },
                }
            },
            None => None,
        };
        let m = crate::peer::P2PMessage::PeerDiscovery { peer_id, addresses, user_info };
        proof {
            assert(dec_payload(s@) =~= Some(m@));
        }
        Some(m)
    } else if tag == 15 {
        let (timestamp, p1) = match take_u64(s, p0) {
            Some(x) => x,
            None => {
                return None;
            },
        };
        let (peer_id, _p2) = match take_str(s, p1) {
            Some(x) => x,
            None => {
                return None;
            },
        };
        let m = crate::peer::P2PMessage::PeerPing { timestamp, peer_id };
        proof {
            assert(dec_payload(s@) =~= Some(m@));
        }
        Some(m)
    } else if tag == 16 {
        let (timestamp, p1) = match take_u64(s, p0) {
            Some(x) => x,
            None => {
                return None;
            },
        };
        let (peer_id, _p2) = match take_str(s, p1) {
            Some(x) => x,
            None => {
                return None;
            },
        };
        let m = crate::peer::P2PMessage::PeerPong { timestamp, peer_id };
        proof {
            assert(dec_payload(s@) =~= Some(m@));
        }
        Some(m)
    } else {
        None
    }
}

} // verus!
