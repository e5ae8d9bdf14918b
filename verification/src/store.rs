//! The persistent metadata store: file metadata records, their binary
//! encoding, and a persistent ordered map (sled) behind trusted wrappers.

use vstd::prelude::*;
use crate::codec::{
    dec_bytes, dec_str, dec_u64, enc_bytes, enc_str, enc_u64, lemma_dec_bytes, lemma_dec_str,
    lemma_dec_u64, lemma_subrange_split, put_bytes, put_str, put_u64, take_bytes, take_str,
    take_u64,
};
use crate::errors::DafsError;
use crate::util::{seq_has_string, StringMap};

verus! {

/// Metadata of one stored file. The wrapped file key in `encrypted_file_key`
/// is the owner's copy; `shared_keys` maps each recipient to their own
/// wrapped copy, and `allowed_peers` is the access list.
pub struct FileMetadata {
    pub file_id: String,
    pub filename: String,
    pub tags: Vec<String>,
    pub owner_peer_id: String,
    pub checksum: String,
    pub size: u64,
    pub encrypted_file_key: Vec<u8>,
    pub shared_keys: StringMap<Vec<u8>>,
    pub allowed_peers: Vec<String>,
}

/// The mathematical content of a metadata record.
#[verifier::ext_equal]
pub struct MetaView {
    pub file_id: Seq<char>,
    pub filename: Seq<char>,
    pub tags: Seq<Seq<char>>,
    pub owner_peer_id: Seq<char>,
    pub checksum: Seq<char>,
    pub size: u64,
    pub encrypted_file_key: Seq<u8>,
    pub shared_keys: Seq<(Seq<char>, Seq<u8>)>,
    pub allowed_peers: Seq<Seq<char>>,
}

impl View for FileMetadata {
    type V = MetaView;

    open spec fn view(&self) -> MetaView {
        MetaView {
            file_id: self.file_id@,
            filename: self.filename@,
            tags: self.tags@.map_values(|t: String| t@),
            owner_peer_id: self.owner_peer_id@,
            checksum: self.checksum@,
            size: self.size,
            encrypted_file_key: self.encrypted_file_key@,
            shared_keys: self.shared_keys.entries@.map_values(|e: (String, Vec<u8>)| (e.0@, e.1@)),
            allowed_peers: self.allowed_peers@.map_values(|t: String| t@),
        }
    }
}

impl FileMetadata {
    /// Structural consistency: the recipient map has distinct keys, the owner
    /// is in the access list, and so is every recipient that holds a key.
    pub open spec fn wf(&self) -> bool {
        &&& self.shared_keys.wf()
        &&& seq_has_string(self.allowed_peers@, self.owner_peer_id@)
        &&& forall|u: Seq<char>|
            #[trigger] self.shared_keys@.contains_key(u) ==> seq_has_string(
                self.allowed_peers@,
                u,
            )
    }
}

/// Every piece of a record fits in a length prefix.
pub open spec fn meta_bounded(m: MetaView) -> bool {
    &&& m.file_id.len() <= u64::MAX
    &&& m.filename.len() <= u64::MAX
    &&& m.tags.len() <= u64::MAX
    &&& (forall|i: int| 0 <= i < m.tags.len() ==> (#[trigger] m.tags[i]).len() <= u64::MAX)
    &&& m.owner_peer_id.len() <= u64::MAX
    &&& m.checksum.len() <= u64::MAX
    &&& m.encrypted_file_key.len() <= u64::MAX
    &&& m.shared_keys.len() <= u64::MAX
    &&& (forall|i: int|
        0 <= i < m.shared_keys.len() ==> (#[trigger] m.shared_keys[i]).0.len() <= u64::MAX && m.shared_keys[i].1.len()
            <= u64::MAX)
    &&& m.allowed_peers.len() <= u64::MAX
    &&& (forall|i: int|
        0 <= i < m.allowed_peers.len() ==> (#[trigger] m.allowed_peers[i]).len() <= u64::MAX)
}

// ---- encoding of string lists and key lists ----

pub open spec fn enc_strs(l: Seq<Seq<char>>) -> Seq<u8>
    decreases l.len(),
{
    if l.len() == 0 {
        Seq::empty()
    } else {
        enc_strs(l.drop_last()) + enc_str(l.last())
    }
}

pub open spec fn enc_str_list(l: Seq<Seq<char>>) -> Seq<u8> {
    enc_u64(l.len() as u64) + enc_strs(l)
}

pub open spec fn enc_pairs(l: Seq<(Seq<char>, Seq<u8>)>) -> Seq<u8>
    decreases l.len(),
{
    if l.len() == 0 {
        Seq::empty()
    } else {
        enc_pairs(l.drop_last()) + enc_str(l.last().0) + enc_bytes(l.last().1)
    }
}

pub open spec fn enc_pair_list(l: Seq<(Seq<char>, Seq<u8>)>) -> Seq<u8> {
    enc_u64(l.len() as u64) + enc_pairs(l)
}

pub open spec fn dec_strs(s: Seq<u8>, pos: int, n: nat) -> Option<(Seq<Seq<char>>, int)>
    decreases n,
{
    if n == 0 {
        if 0 <= pos && pos <= s.len() {
            Some((Seq::empty(), pos))
        } else {
            None
        }
    } else {
        match dec_strs(s, pos, (n - 1) as nat) {
            Some((l, p)) => match dec_str(s, p) {
                Some((v, p2)) => Some((l.push(v), p2)),
                None => None,
            },
            None => None,
        }
    }
}

pub open spec fn dec_str_list(s: Seq<u8>, pos: int) -> Option<(Seq<Seq<char>>, int)> {
    match dec_u64(s, pos) {
        Some((n, p)) => dec_strs(s, p, n as nat),
        None => None,
    }
}

pub open spec fn dec_pairs(s: Seq<u8>, pos: int, n: nat) -> Option<
    (Seq<(Seq<char>, Seq<u8>)>, int),
>
    decreases n,
{
    if n == 0 {
        if 0 <= pos && pos <= s.len() {
            Some((Seq::empty(), pos))
        } else {
            None
        }
    } else {
        match dec_pairs(s, pos, (n - 1) as nat) {
            Some((l, p)) => match dec_str(s, p) {
                Some((k, p2)) => match dec_bytes(s, p2) {
                    Some((v, p3)) => Some((l.push((k, v)), p3)),
                    None => None,
                },
                None => None,
            },
            None => None,
        }
    }
}

pub open spec fn dec_pair_list(s: Seq<u8>, pos: int) -> Option<(Seq<(Seq<char>, Seq<u8>)>, int)> {
    match dec_u64(s, pos) {
        Some((n, p)) => dec_pairs(s, p, n as nat),
        None => None,
    }
}

pub open spec fn bounded_strs(l: Seq<Seq<char>>) -> bool {
    forall|i: int| 0 <= i < l.len() ==> (#[trigger] l[i]).len() <= u64::MAX
}

pub open spec fn bounded_pairs(l: Seq<(Seq<char>, Seq<u8>)>) -> bool {
    forall|i: int|
        0 <= i < l.len() ==> (#[trigger] l[i]).0.len() <= u64::MAX && l[i].1.len() <= u64::MAX
}

pub proof fn lemma_dec_strs(s: Seq<u8>, pos: int, l: Seq<Seq<char>>)
    requires
        0 <= pos,
        bounded_strs(l),
        pos + enc_strs(l).len() <= s.len(),
        s.subrange(pos, pos + enc_strs(l).len()) == enc_strs(l),
    ensures
        dec_strs(s, pos, l.len()) == Some((l, pos + enc_strs(l).len())),
    decreases l.len(),
{
    if l.len() > 0 {
        let w = l.drop_last();
        let ew = enc_strs(w);
        let el = enc_str(l.last());
        lemma_subrange_split(s, pos, ew, el);
        lemma_dec_strs(s, pos, w);
        lemma_dec_str(s, pos + ew.len() as int, l.last());
        assert(w.push(l.last()) =~= l);
    }
}

pub proof fn lemma_dec_str_list(s: Seq<u8>, pos: int, l: Seq<Seq<char>>)
    requires
        0 <= pos,
        l.len() <= u64::MAX,
        bounded_strs(l),
        pos + enc_str_list(l).len() <= s.len(),
        s.subrange(pos, pos + enc_str_list(l).len()) == enc_str_list(l),
    ensures
        dec_str_list(s, pos) == Some((l, pos + enc_str_list(l).len())),
{
    vstd::bytes::lemma_auto_spec_u64_to_from_le_bytes();
    lemma_subrange_split(s, pos, enc_u64(l.len() as u64), enc_strs(l));
    lemma_dec_u64(s, pos, l.len() as u64);
    lemma_dec_strs(s, pos + 8, l);
}

pub proof fn lemma_dec_pairs(s: Seq<u8>, pos: int, l: Seq<(Seq<char>, Seq<u8>)>)
    requires
        0 <= pos,
        bounded_pairs(l),
        pos + enc_pairs(l).len() <= s.len(),
        s.subrange(pos, pos + enc_pairs(l).len()) == enc_pairs(l),
    ensures
        dec_pairs(s, pos, l.len()) == Some((l, pos + enc_pairs(l).len())),
    decreases l.len(),
{
    if l.len() > 0 {
        let w = l.drop_last();
        let ew = enc_pairs(w);
        let ek = enc_str(l.last().0);
        let ev = enc_bytes(l.last().1);
        assert(enc_pairs(l) == ew + ek + ev);
        assert(ew + ek + ev =~= ew + (ek + ev));
        lemma_subrange_split(s, pos, ew, ek + ev);
        lemma_dec_pairs(s, pos, w);
        lemma_subrange_split(s, pos + ew.len() as int, ek, ev);
        lemma_dec_str(s, pos + ew.len() as int, l.last().0);
        lemma_dec_bytes(s, pos + ew.len() + ek.len() as int, l.last().1);
        assert(w.push(l.last()) =~= l);
    }
}

pub proof fn lemma_dec_pair_list(s: Seq<u8>, pos: int, l: Seq<(Seq<char>, Seq<u8>)>)
    requires
        0 <= pos,
        l.len() <= u64::MAX,
        bounded_pairs(l),
        pos + enc_pair_list(l).len() <= s.len(),
        s.subrange(pos, pos + enc_pair_list(l).len()) == enc_pair_list(l),
    ensures
        dec_pair_list(s, pos) == Some((l, pos + enc_pair_list(l).len())),
{
    vstd::bytes::lemma_auto_spec_u64_to_from_le_bytes();
    lemma_subrange_split(s, pos, enc_u64(l.len() as u64), enc_pairs(l));
    lemma_dec_u64(s, pos, l.len() as u64);
    lemma_dec_pairs(s, pos + 8, l);
}

// ---- the record encoding ----

/// The binary encoding of a metadata record: every field in order, strings
/// and lists length-prefixed.
pub open spec fn enc_meta(m: MetaView) -> Seq<u8> {
    enc_str(m.file_id) + enc_str(m.filename) + enc_str_list(m.tags) + enc_str(m.owner_peer_id)
        + enc_str(m.checksum) + enc_u64(m.size) + enc_bytes(m.encrypted_file_key) + enc_pair_list(
        m.shared_keys,
    ) + enc_str_list(m.allowed_peers)
}

/// What decoding a buffer as a metadata record yields.
pub open spec fn dec_meta(s: Seq<u8>) -> Option<MetaView> {
    match dec_str(s, 0) {
        Some((file_id, p1)) => match dec_str(s, p1) {
            Some((filename, p2)) => match dec_str_list(s, p2) {
                Some((tags, p3)) => match dec_str(s, p3) {
                    Some((owner_peer_id, p4)) => match dec_str(s, p4) {
                        Some((checksum, p5)) => match dec_u64(s, p5) {
                            Some((size, p6)) => match dec_bytes(s, p6) {
                                Some((encrypted_file_key, p7)) => match dec_pair_list(s, p7) {
                                    Some((shared_keys, p8)) => match dec_str_list(s, p8) {
                                        Some((allowed_peers, _p9)) => Some(
                                            MetaView {
                                                file_id,
                                                filename,
                                                tags,
                                                owner_peer_id,
                                                checksum,
                                                size,
                                                encrypted_file_key,
                                                shared_keys,
                                                allowed_peers,
                                            },
                                        ),
                                        None => None,
                                    },
                                    None => None,
                                },
                                None => None,
                            },
                            None => None,
                        },
                        None => None,
                    },
                    None => None,
                },
                None => None,
            },
            None => None,
        },
        None => None,
    }
}

/// Law: decoding an encoded record gives the record back, for every record
/// whose pieces fit their length prefixes.
#[verifier::rlimit(60)]
#[verifier::spinoff_prover]
pub proof fn lemma_meta_round_trip(m: MetaView)
    requires
        meta_bounded(m),
    ensures
        dec_meta(enc_meta(m)) == Some(m),
{
    let s = enc_meta(m);
    let e1 = enc_str(m.file_id);
    let e2 = enc_str(m.filename);
    let e3 = enc_str_list(m.tags);
    let e4 = enc_str(m.owner_peer_id);
    let e5 = enc_str(m.checksum);
    let e6 = enc_u64(m.size);
    let e7 = enc_bytes(m.encrypted_file_key);
    let e8 = enc_pair_list(m.shared_keys);
    let e9 = enc_str_list(m.allowed_peers);
    vstd::bytes::lemma_auto_spec_u64_to_from_le_bytes();
    assert(s =~= e1 + (e2 + (e3 + (e4 + (e5 + (e6 + (e7 + (e8 + e9))))))));
    assert(s.subrange(0, s.len() as int) =~= s);
    let p0: int = 0;
    lemma_subrange_split(s, p0, e1, e2 + (e3 + (e4 + (e5 + (e6 + (e7 + (e8 + e9)))))));
    lemma_dec_str(s, p0, m.file_id);
    let p1 = p0 + e1.len() as int;
    lemma_subrange_split(s, p1, e2, e3 + (e4 + (e5 + (e6 + (e7 + (e8 + e9))))));
    lemma_dec_str(s, p1, m.filename);
    let p2 = p1 + e2.len() as int;
    lemma_subrange_split(s, p2, e3, e4 + (e5 + (e6 + (e7 + (e8 + e9)))));
    lemma_dec_str_list(s, p2, m.tags);
    let p3 = p2 + e3.len() as int;
    lemma_subrange_split(s, p3, e4, e5 + (e6 + (e7 + (e8 + e9))));
    lemma_dec_str(s, p3, m.owner_peer_id);
    let p4 = p3 + e4.len() as int;
    lemma_subrange_split(s, p4, e5, e6 + (e7 + (e8 + e9)));
    lemma_dec_str(s, p4, m.checksum);
    let p5 = p4 + e5.len() as int;
    lemma_subrange_split(s, p5, e6, e7 + (e8 + e9));
    lemma_dec_u64(s, p5, m.size);
    let p6 = p5 + e6.len() as int;
    lemma_subrange_split(s, p6, e7, e8 + e9);
    lemma_dec_bytes(s, p6, m.encrypted_file_key);
    let p7 = p6 + e7.len() as int;
    lemma_subrange_split(s, p7, e8, e9);
    lemma_dec_pair_list(s, p7, m.shared_keys);
    let p8 = p7 + e8.len() as int;
    assert(s.subrange(p8, p8 + e9.len() as int) =~= e9);
    lemma_dec_str_list(s, p8, m.allowed_peers);
    assert(dec_meta(s) =~= Some(m));
}

// ---- exec encode / decode ----

/// Encodes a metadata record.
pub fn encode_metadata(m: &FileMetadata) -> (out: Vec<u8>)
    ensures
        out@ == enc_meta(m@),
        meta_bounded(m@),
{
    let mut out: Vec<u8> = Vec::new();
    put_str(&mut out, m.file_id.as_str());
    put_str(&mut out, m.filename.as_str());
    put_str_list(&mut out, &m.tags);
    put_str(&mut out, m.owner_peer_id.as_str());
    put_str(&mut out, m.checksum.as_str());
    put_u64(&mut out, m.size);
    put_bytes(&mut out, &m.encrypted_file_key);
    put_pair_list(&mut out, &m.shared_keys.entries);
    put_str_list(&mut out, &m.allowed_peers);
    proof {
        assert(out@ =~= enc_meta(m@));
    }
    out
}

/// Appends a length-prefixed list of strings.
pub fn put_str_list(out: &mut Vec<u8>, l: &Vec<String>)
    ensures
        final(out)@ == old(out)@ + enc_str_list(l@.map_values(|t: String| t@)),
        bounded_strs(l@.map_values(|t: String| t@)),
        l@.map_values(|t: String| t@).len() <= u64::MAX,
{
    let ghost lv = l@.map_values(|t: String| t@);
    put_u64(out, l.len() as u64);
    let n = l.len();
    for i in 0..n
        invariant
            n == l@.len(),
            lv == l@.map_values(|t: String| t@),
            out@ == old(out)@ + enc_u64(lv.len() as u64) + enc_strs(lv.take(i as int)),
            bounded_strs(lv.take(i as int)),
    {
        put_str(out, l[i].as_str());
        proof {
            assert(lv.take(i + 1).drop_last() =~= lv.take(i as int));
            assert(lv.take(i + 1).last() == lv[i as int]);
            assert(out@ =~= old(out)@ + enc_u64(lv.len() as u64) + enc_strs(lv.take(i + 1)));
            assert(bounded_strs(lv.take(i + 1)));
        }
    }
    proof {
        assert(lv.take(n as int) =~= lv);
        assert(final(out)@ =~= old(out)@ + enc_str_list(lv));
    }
}

/// Appends a length-prefixed list of string-to-bytes pairs.
pub fn put_pair_list(out: &mut Vec<u8>, l: &Vec<(String, Vec<u8>)>)
    ensures
        final(out)@ == old(out)@ + enc_pair_list(
            l@.map_values(|e: (String, Vec<u8>)| (e.0@, e.1@)),
        ),
        bounded_pairs(l@.map_values(|e: (String, Vec<u8>)| (e.0@, e.1@))),
        l@.map_values(|e: (String, Vec<u8>)| (e.0@, e.1@)).len() <= u64::MAX,
{
    let ghost lv = l@.map_values(|e: (String, Vec<u8>)| (e.0@, e.1@));
    put_u64(out, l.len() as u64);
    let n = l.len();
    for i in 0..n
        invariant
            n == l@.len(),
            lv == l@.map_values(|e: (String, Vec<u8>)| (e.0@, e.1@)),
            out@ == old(out)@ + enc_u64(lv.len() as u64) + enc_pairs(lv.take(i as int)),
            bounded_pairs(lv.take(i as int)),
    {
        put_str(out, l[i].0.as_str());
        put_bytes(out, &l[i].1);
        proof {
            assert(lv.take(i + 1).drop_last() =~= lv.take(i as int));
            assert(lv.take(i + 1).last() == lv[i as int]);
            assert(out@ =~= old(out)@ + enc_u64(lv.len() as u64) + enc_pairs(lv.take(i + 1)));
            assert(bounded_pairs(lv.take(i + 1)));
        }
    }
    proof {
        assert(lv.take(n as int) =~= lv);
        assert(final(out)@ =~= old(out)@ + enc_pair_list(lv));
    }
}

/// Reads a length-prefixed list of strings.
pub fn take_str_list(s: &Vec<u8>, pos: usize) -> (r: Option<(Vec<String>, usize)>)
    ensures
        match r {
            Some((v, p)) => dec_str_list(s@, pos as int) == Some(
                (v@.map_values(|t: String| t@), p as int),
            ),
            None => dec_str_list(s@, pos as int) is None,
        },
{
    let (n64, p0) = match take_u64(s, pos) {
        Some(x) => x,
        None => {
            return None;
        },
    };
    let ghost n_spec = n64 as nat;
    let buf_len = s.len();
    if n64 > (usize::MAX as u64) / 8 {
        proof {
            assert(8 * n_spec > usize::MAX as nat);
            lemma_dec_strs_min(s@, p0 as int, n_spec);
        }
        return None;
    }
    let n = n64 as usize;
    let mut out: Vec<String> = Vec::new();
    let mut p = p0;
    let mut i: usize = 0;
    while i < n
        invariant
            i <= n,
            n_spec == n as nat,
            n_spec == n64 as nat,
            dec_u64(s@, pos as int) == Some((n64, p0 as int)),
            dec_strs(s@, p0 as int, i as nat) == Some(
                (out@.map_values(|t: String| t@), p as int),
            ),
        decreases n - i,
    {
        let (v, p2) = match take_str(s, p) {
            Some(x) => x,
            None => {
                proof {
                    lemma_dec_strs_stuck(s@, p0 as int, i as nat, n_spec, p as int);
                }
                return None;
            },
        };
        out.push(v);
        p = p2;
        i = i + 1;
        proof {
            assert(out@.map_values(|t: String| t@) =~= out@.map_values(
                |t: String| t@,
            ).drop_last().push(out@.last()@));
            assert(out@.map_values(|t: String| t@).drop_last() =~= out@.drop_last().map_values(
                |t: String| t@,
            ));
        }
    }
    Some((out, p))
}

/// Reads a length-prefixed list of string-to-bytes pairs.
pub fn take_pair_list(s: &Vec<u8>, pos: usize) -> (r: Option<(Vec<(String, Vec<u8>)>, usize)>)
    ensures
        match r {
            Some((v, p)) => dec_pair_list(s@, pos as int) == Some(
                (v@.map_values(|e: (String, Vec<u8>)| (e.0@, e.1@)), p as int),
            ),
            None => dec_pair_list(s@, pos as int) is None,
        },
{
    let (n64, p0) = match take_u64(s, pos) {
        Some(x) => x,
        None => {
            return None;
        },
    };
    let ghost n_spec = n64 as nat;
    let buf_len = s.len();
    if n64 > (usize::MAX as u64) / 16 {
        proof {
            assert(16 * n_spec > usize::MAX as nat);
            lemma_dec_pairs_min(s@, p0 as int, n_spec);
        }
        return None;
    }
    let n = n64 as usize;
    let mut out: Vec<(String, Vec<u8>)> = Vec::new();
    let mut p = p0;
    let mut i: usize = 0;
    while i < n
        invariant
            i <= n,
            n_spec == n as nat,
            n_spec == n64 as nat,
            dec_u64(s@, pos as int) == Some((n64, p0 as int)),
            dec_pairs(s@, p0 as int, i as nat) == Some(
                (out@.map_values(|e: (String, Vec<u8>)| (e.0@, e.1@)), p as int),
            ),
        decreases n - i,
    {
        let (k, p2) = match take_str(s, p) {
            Some(x) => x,
            None => {
                proof {
                    lemma_dec_pairs_stuck(s@, p0 as int, i as nat, n_spec, p as int);
                }
                return None;
            },
        };
        let (v, p3) = match take_bytes(s, p2) {
            Some(x) => x,
            None => {
                proof {
                    lemma_dec_pairs_stuck(s@, p0 as int, i as nat, n_spec, p as int);
                }
                return None;
            },
        };
        out.push((k, v));
        p = p3;
        i = i + 1;
        proof {
            assert(out@.map_values(|e: (String, Vec<u8>)| (e.0@, e.1@)) =~= out@.map_values(
                |e: (String, Vec<u8>)| (e.0@, e.1@),
            ).drop_last().push((out@.last().0@, out@.last().1@)));
            assert(out@.map_values(|e: (String, Vec<u8>)| (e.0@, e.1@)).drop_last()
                =~= out@.drop_last().map_values(|e: (String, Vec<u8>)| (e.0@, e.1@)));
        }
    }
    Some((out, p))
}

/// If decoding stalls after `i` of `n` strings, decoding all `n` fails.
proof fn lemma_dec_strs_stuck(s: Seq<u8>, pos: int, i: nat, n: nat, p: int)
    requires
        i < n,
        dec_strs(s, pos, i) matches Some(x) && x.1 == p,
        dec_str(s, p) is None,
    ensures
        dec_strs(s, pos, n) is None,
    decreases n,
{
    if n == i + 1 {
    } else {
        lemma_dec_strs_stuck(s, pos, i, (n - 1) as nat, p);
    }
}

/// If decoding stalls after `i` of `n` pairs, decoding all `n` fails.
proof fn lemma_dec_pairs_stuck(s: Seq<u8>, pos: int, i: nat, n: nat, p: int)
    requires
        i < n,
        dec_pairs(s, pos, i) matches Some(x) && x.1 == p,
        match dec_str(s, p) {
            Some((_, p2)) => dec_bytes(s, p2) is None,
            None => true,
        },
    ensures
        dec_pairs(s, pos, n) is None,
    decreases n,
{
    if n == i + 1 {
    } else {
        lemma_dec_pairs_stuck(s, pos, i, (n - 1) as nat, p);
    }
}

/// Decoding a string advances the position by at least eight bytes.
proof fn lemma_dec_strs_advance(s: Seq<u8>, pos: int, n: nat)
    requires
        dec_strs(s, pos, n) is Some,
    ensures
        dec_strs(s, pos, n) matches Some(x) && x.1 >= pos + 8 * n && x.1 <= s.len() && pos >= 0,
    decreases n,
{
    if n > 0 {
        lemma_dec_strs_advance(s, pos, (n - 1) as nat);
        let (l, p) = dec_strs(s, pos, (n - 1) as nat).unwrap();
        lemma_dec_str_advance(s, p);
    }
}

/// A decoded string occupies at least its eight-byte length prefix.
proof fn lemma_dec_str_advance(s: Seq<u8>, pos: int)
    requires
        dec_str(s, pos) is Some,
    ensures
        dec_str(s, pos) matches Some(x) && x.1 >= pos + 8 && x.1 <= s.len(),
{
    let (n, p) = dec_u64(s, pos).unwrap();
    lemma_dec_chars_bounds(s, p, n as nat);
}

/// Decoded characters stay inside the buffer.
proof fn lemma_dec_chars_bounds(s: Seq<u8>, pos: int, n: nat)
    requires
        crate::codec::dec_chars(s, pos, n) is Some,
    ensures
        crate::codec::dec_chars(s, pos, n) matches Some(x) && x.1 >= pos && x.1 <= s.len(),
    decreases n,
{
    if n > 0 {
        lemma_dec_chars_bounds(s, pos, (n - 1) as nat);
    }
}

/// Decoding more strings than the buffer has room for fails.
proof fn lemma_dec_strs_min(s: Seq<u8>, pos: int, n: nat)
    requires
        8 * n > s.len(),
    ensures
        dec_strs(s, pos, n) is None,
{
    if dec_strs(s, pos, n) is Some {
        lemma_dec_strs_advance(s, pos, n);
    }
}

/// A decoded pair occupies at least sixteen bytes of prefixes.
proof fn lemma_dec_pairs_advance(s: Seq<u8>, pos: int, n: nat)
    requires
        dec_pairs(s, pos, n) is Some,
    ensures
        dec_pairs(s, pos, n) matches Some(x) && x.1 >= pos + 16 * n && x.1 <= s.len() && pos >= 0,
    decreases n,
{
    if n > 0 {
        lemma_dec_pairs_advance(s, pos, (n - 1) as nat);
        let (l, p) = dec_pairs(s, pos, (n - 1) as nat).unwrap();
        lemma_dec_str_advance(s, p);
        let (k, p2) = dec_str(s, p).unwrap();
    }
}

/// Decoding more pairs than the buffer has room for fails.
proof fn lemma_dec_pairs_min(s: Seq<u8>, pos: int, n: nat)
    requires
        16 * n > s.len(),
    ensures
        dec_pairs(s, pos, n) is None,
{
    if dec_pairs(s, pos, n) is Some {
        lemma_dec_pairs_advance(s, pos, n);
    }
}

/// Decodes a metadata record from a buffer.
pub fn decode_metadata(s: &Vec<u8>) -> (r: Option<FileMetadata>)
    ensures
        r matches Some(m) ==> dec_meta(s@) == Some(m@),
        r is None ==> dec_meta(s@) is None,
{
    let (file_id, p1) = match take_str(s, 0) {
        Some(x) => x,
        None => {
            return None;
        },
    };
    let (filename, p2) = match take_str(s, p1) {
        Some(x) => x,
        None => {
            return None;
        },
    };
    let (tags, p3) = match take_str_list(s, p2) {
        Some(x) => x,
        None => {
            return None;
        },
    };
    let (owner_peer_id, p4) = match take_str(s, p3) {
        Some(x) => x,
        None => {
            return None;
        },
    };
    let (checksum, p5) = match take_str(s, p4) {
        Some(x) => x,
        None => {
            return None;
        },
    };
    let (size, p6) = match take_u64(s, p5) {
        Some(x) => x,
        None => {
            return None;
        },
    };
    let (encrypted_file_key, p7) = match take_bytes(s, p6) {
        Some(x) => x,
        None => {
            return None;
        },
    };
    let (shared_entries, p8) = match take_pair_list(s, p7) {
        Some(x) => x,
        None => {
            return None;
        },
    };
    let (allowed_peers, _p9) = match take_str_list(s, p8) {
        Some(x) => x,
        None => {
            return None;
        },
    };
    let m = FileMetadata {
        file_id,
        filename,
        tags,
        owner_peer_id,
        checksum,
        size,
        encrypted_file_key,
        shared_keys: StringMap { entries: shared_entries },
        allowed_peers,
    };
    proof {
        assert(dec_meta(s@) =~= Some(m@));
    }
    Some(m)
}

} // verus!

use vstd::prelude::*;

verus! {

/// The error type of the persistent map's backend.
#[verifier::external_type_specification]
#[verifier::external_body]
pub struct ExSledError(sled::Error);

/// A handle on the persistent ordered map. The handle is opaque; `kv_map`
/// names what it holds. It lives behind `&mut` wrappers because the backend
/// mutates through a shared handle.
#[verifier::external_body]
pub struct KvStore {
    db: sled::Db,
}

/// What the persistent map holds: each key's bytes, keyed by the key's
/// characters (UTF-8 keys, so the keying is injective).
pub uninterp spec fn kv_map(s: KvStore) -> Map<Seq<char>, Seq<u8>>;

/// Relies on `sled::open`: opens (or creates) the on-disk map at the path.
/// Nothing is assumed of the contents found there.
#[verifier::external_body]
pub fn kv_open(path: &str) -> (r: Result<KvStore, sled::Error>) {
    Ok(KvStore { db: sled::open(path)? })
}

/// Relies on `sled::Db::insert` and `flush`: binds the key to the value,
/// durably. On an error the map holds either the old or the new binding.
#[verifier::external_body]
pub fn kv_insert(s: &mut KvStore, key: &str, value: &Vec<u8>) -> (r: Result<(), sled::Error>)
    ensures
        r is Ok ==> kv_map(*final(s)) == kv_map(*old(s)).insert(key@, value@),
        r is Err ==> kv_map(*final(s)) == kv_map(*old(s)) || kv_map(*final(s)) == kv_map(
            *old(s),
        ).insert(key@, value@),
{
    s.db.insert(key.as_bytes(), value.as_slice())?;
    s.db.flush()?;
    Ok(())
}

/// Relies on `sled::Db::get`: the value bound to the key, if any.
#[verifier::external_body]
pub fn kv_get(s: &KvStore, key: &str) -> (r: Result<Option<Vec<u8>>, sled::Error>)
    ensures
        r matches Ok(v) ==> match v {
            Some(b) => kv_map(*s).contains_key(key@) && b@ == kv_map(*s)[key@],
            None => !kv_map(*s).contains_key(key@),
        },
{
    match s.db.get(key.as_bytes())? {
        Some(v) => Ok(Some(v.to_vec())),
        None => Ok(None),
    }
}

/// Relies on `sled::Db::remove` and `flush`: drops the key's binding,
/// durably. On an error the map holds either the old state or the removal.
#[verifier::external_body]
pub fn kv_remove(s: &mut KvStore, key: &str) -> (r: Result<(), sled::Error>)
    ensures
        r is Ok ==> kv_map(*final(s)) == kv_map(*old(s)).remove(key@),
        r is Err ==> kv_map(*final(s)) == kv_map(*old(s)) || kv_map(*final(s)) == kv_map(
            *old(s),
        ).remove(key@),
{
    s.db.remove(key.as_bytes())?;
    s.db.flush()?;
    Ok(())
}

/// Relies on `sled::Db::iter`: a snapshot of every binding of the map, each
/// key once. A key that is not valid UTF-8 (this store never writes one, and
/// `kv_map` reads keys as their characters) is skipped.
#[verifier::external_body]
pub fn kv_entries(s: &KvStore) -> (r: Result<Vec<(String, Vec<u8>)>, sled::Error>)
    ensures
        r matches Ok(pairs) ==> {
            &&& pairs@.len() == kv_map(*s).dom().len()
            &&& forall|i: int|
                0 <= i < pairs@.len() ==> kv_map(*s).contains_key((#[trigger] pairs@[i]).0@)
                    && pairs@[i].1@ == kv_map(*s)[pairs@[i].0@]
            &&& forall|i: int, j: int|
                0 <= i < j < pairs@.len() ==> (#[trigger] pairs@[i]).0@ != (
                #[trigger] pairs@[j]).0@
        },
{
    let mut out = Vec::new();
    for item in s.db.iter() {
        let (k, v) = item?;
        match String::from_utf8(k.to_vec()) {
            Ok(key) => out.push((key, v.to_vec())),
            Err(_) => {},
        }
    }
    Ok(out)
}

/// A record whose recipient map is consistent with its access list is well
/// formed.
pub proof fn lemma_meta_wf_from_map(m: &FileMetadata)
    requires
        m.shared_keys.wf(),
        seq_has_string(m.allowed_peers@, m.owner_peer_id@),
        forall|u: Seq<char>|
            #[trigger] m.shared_keys@.contains_key(u) ==> seq_has_string(m.allowed_peers@, u),
    ensures
        m.wf(),
{
}

/// The per-entry form of the same fact.
pub proof fn lemma_meta_wf_from_entries(m: &FileMetadata)
    requires
        m.shared_keys.wf(),
        seq_has_string(m.allowed_peers@, m.owner_peer_id@),
        forall|a: int|
            0 <= a < m.shared_keys.entries@.len() ==> seq_has_string(
                m.allowed_peers@,
                (#[trigger] m.shared_keys.entries@[a]).0@,
            ),
    ensures
        m.wf(),
{
    assert forall|u: Seq<char>|
        #[trigger] m.shared_keys@.contains_key(u) implies seq_has_string(
        m.allowed_peers@,
        u,
    ) by {
        crate::util::lemma_assoc_contains(m.shared_keys.entries@, u);
        let a = choose|a: int|
            0 <= a < m.shared_keys.entries@.len() && m.shared_keys.entries@[a].0@ == u;
        assert(seq_has_string(m.allowed_peers@, m.shared_keys.entries@[a].0@));
    }
    lemma_meta_wf_from_map(m);
}

/// A record with a keyed recipient missing from the access list is not well
/// formed.
pub proof fn lemma_meta_not_wf(m: &FileMetadata, i: int)
    requires
        m.shared_keys.wf(),
        0 <= i < m.shared_keys.entries@.len(),
        !seq_has_string(m.allowed_peers@, m.shared_keys.entries@[i].0@),
    ensures
        !m.wf(),
{
    crate::util::lemma_assoc_index(m.shared_keys.entries@, i);
    if m.wf() {
        assert(m.shared_keys@.contains_key(m.shared_keys.entries@[i].0@));
        assert(seq_has_string(m.allowed_peers@, m.shared_keys.entries@[i].0@));
    }
}

/// Whether a metadata record passes the structural checks of `wf`.
pub fn check_meta_wf(m: &FileMetadata) -> (r: bool)
    ensures
        r == m.wf(),
{
    let n = m.shared_keys.entries.len();
    for i in 0..n
        invariant
            n == m.shared_keys.entries@.len(),
            forall|a: int, b: int|
                0 <= a < b < i ==> m.shared_keys.entries@[a].0@ != m.shared_keys.entries@[b].0@,
    {
        for j in 0..i
            invariant
                i < n,
                n == m.shared_keys.entries@.len(),
                forall|a: int, b: int|
                    0 <= a < b < i ==> m.shared_keys.entries@[a].0@
                        != m.shared_keys.entries@[b].0@,
                forall|b: int| 0 <= b < j ==> m.shared_keys.entries@[b].0@
                    != m.shared_keys.entries@[i as int].0@,
        {
            if crate::util::str_eq(
                m.shared_keys.entries[j].0.as_str(),
                m.shared_keys.entries[i].0.as_str(),
            ) {
                return false;
            }
        }
    }
    assert(m.shared_keys.wf());
    if !crate::util::vec_contains_string(&m.allowed_peers, m.owner_peer_id.as_str()) {
        return false;
    }
    for i in 0..n
        invariant
            n == m.shared_keys.entries@.len(),
            m.shared_keys.wf(),
            seq_has_string(m.allowed_peers@, m.owner_peer_id@),
            forall|a: int|
                0 <= a < i ==> seq_has_string(
                    m.allowed_peers@,
                    (#[trigger] m.shared_keys.entries@[a]).0@,
                ),
    {
        if !crate::util::vec_contains_string(&m.allowed_peers, m.shared_keys.entries[i].0.as_str())
        {
            proof {
                lemma_meta_not_wf(m, i as int);
            }
            return false;
        }
    }
    proof {
        lemma_meta_wf_from_entries(m);
    }
    true
}

/// The metadata store: a persistent map from file id to the encoded record.
pub struct Storage {
    pub kv: KvStore,
}

impl Storage {
    /// Opens the store at a path. What is already on disk is whatever an
    /// earlier run left there.
    pub fn new(path: &str) -> (r: Result<Storage, DafsError>) {
        match kv_open(path) {
            Ok(kv) => Ok(Storage { kv }),
            Err(_) => Err(DafsError::Storage),
        }
    }

    /// Inserts (or overwrites) a record, keyed by its file id, durably.
    pub fn insert_metadata(&mut self, meta: &FileMetadata) -> (r: Result<(), DafsError>)
        ensures
            r is Ok ==> kv_map(final(self).kv) == kv_map(old(self).kv).insert(
                meta.file_id@,
                enc_meta(meta@),
            ) && meta_bounded(meta@),
            r is Err ==> r == Err::<(), DafsError>(DafsError::Storage) && (kv_map(final(self).kv)
                == kv_map(old(self).kv) || kv_map(final(self).kv) == kv_map(old(self).kv).insert(
                meta.file_id@,
                enc_meta(meta@),
            )),
    {
        let encoded = encode_metadata(meta);
        match kv_insert(&mut self.kv, meta.file_id.as_str(), &encoded) {
            Ok(()) => Ok(()),
            Err(_) => Err(DafsError::Storage),
        }
    }

    /// Looks a record up by file id. A stored record that does not decode to
    /// a well-formed record is a storage fault.
    pub fn get_metadata(&self, file_id: &str) -> (r: Result<Option<FileMetadata>, DafsError>)
        ensures
            r matches Ok(Some(m)) ==> {
                &&& kv_map(self.kv).contains_key(file_id@)
                &&& dec_meta(kv_map(self.kv)[file_id@]) == Some(m@)
                &&& m.wf()
            },
            r matches Ok(o) && o is None ==> !kv_map(self.kv).contains_key(file_id@),
            r is Err ==> r == Err::<Option<FileMetadata>, DafsError>(DafsError::Storage),
    {
        let stored = match kv_get(&self.kv, file_id) {
            Ok(Some(bytes)) => bytes,
            Ok(None) => {
                return Ok(None);
            },
            Err(_) => {
                return Err(DafsError::Storage);
            },
        };
        match decode_metadata(&stored) {
            Some(m) => {
                if check_meta_wf(&m) {
                    Ok(Some(m))
                } else {
                    Err(DafsError::Storage)
                }
            },
            None => Err(DafsError::Storage),
        }
    }

    /// Removes a record; removing an absent record succeeds.
    pub fn delete_metadata(&mut self, file_id: &str) -> (r: Result<(), DafsError>)
        ensures
            r is Ok ==> kv_map(final(self).kv) == kv_map(old(self).kv).remove(file_id@),
            r is Err ==> r == Err::<(), DafsError>(DafsError::Storage) && (kv_map(final(self).kv)
                == kv_map(old(self).kv) || kv_map(final(self).kv) == kv_map(old(self).kv).remove(
                file_id@,
            )),
    {
        match kv_remove(&mut self.kv, file_id) {
            Ok(()) => Ok(()),
            Err(_) => Err(DafsError::Storage),
        }
    }

    /// Every stored record, decoded. A record that does not decode is a
    /// storage fault, as is a backend error.
    #[verifier::loop_isolation(false)]
    #[verifier::rlimit(60)]
    pub fn list_metadata(&self) -> (r: Result<Vec<FileMetadata>, DafsError>)
        ensures
            r is Ok ==> exists|keys: Seq<Seq<char>>|
                #[trigger] listing_with(self.kv, (r->Ok_0)@, keys),
            r is Err ==> r == Err::<Vec<FileMetadata>, DafsError>(DafsError::Storage),
    {
        let entries = match kv_entries(&self.kv) {
            Ok(es) => es,
            Err(_) => {
                return Err(DafsError::Storage);
            },
        };
        let mut out: Vec<FileMetadata> = Vec::new();
        let n = entries.len();
        for i in 0..n
            invariant
                out@.len() == i,
                forall|j: int|
                    0 <= j < i ==> dec_meta(entries@[j].1@) == Some((#[trigger] out@[j])@),
        {
            match decode_metadata(&entries[i].1) {
                Some(m) => {
                    out.push(m);
                },
                None => {
                    return Err(DafsError::Storage);
                },
            }
        }
        let r: Result<Vec<FileMetadata>, DafsError> = Ok(out);
        proof {
            let ms = r->Ok_0;
            let keys = entries@.map_values(|e: (String, Vec<u8>)| e.0@);
            assert forall|i: int|
                0 <= i < ms@.len() implies kv_map(self.kv).contains_key(#[trigger] keys[i])
                    && dec_meta(kv_map(self.kv)[keys[i]]) == Some(ms@[i]@) by {
                assert(keys[i] == entries@[i].0@);
                assert(kv_map(self.kv)[entries@[i].0@] == entries@[i].1@);
            }
            assert forall|i: int, j: int|
                0 <= i < j < keys.len() implies #[trigger] keys[i] != #[trigger] keys[j] by {
                assert(keys[i] == entries@[i].0@);
                assert(keys[j] == entries@[j].0@);
            }
            assert(listing_with(self.kv, (r->Ok_0)@, keys));
            assert(exists|ks: Seq<Seq<char>>| #[trigger] listing_with(self.kv, (r->Ok_0)@, ks));
        }
        r
    }
}

/// The listed records correspond one-to-one, in order, to the stored keys
/// `keys`: each record decodes from its key's stored bytes, and there are
/// exactly as many records as keys in the map.
pub open spec fn listing_with(kv: KvStore, ms: Seq<FileMetadata>, keys: Seq<Seq<char>>) -> bool {
    &&& keys.len() == ms.len()
    &&& ms.len() == kv_map(kv).dom().len()
    &&& forall|i: int, j: int| 0 <= i < j < keys.len() ==> #[trigger] keys[i] != #[trigger] keys[j]
    &&& forall|i: int|
        0 <= i < ms.len() ==> kv_map(kv).contains_key(#[trigger] keys[i]) && dec_meta(
            kv_map(kv)[keys[i]],
        ) == Some(ms[i]@)
}

/// Law: a record stored by `insert_metadata` is read back by `get_metadata`
/// with the same content: inserting binds the key to `enc_meta(meta@)`, and
/// decoding that encoding yields exactly `meta@`.
pub proof fn lemma_store_round_trip(m: MetaView)
    requires
        meta_bounded(m),
    ensures
        dec_meta(enc_meta(m)) == Some(m),
{
    lemma_meta_round_trip(m);
}

} // verus!

verus! {

/// A faithful copy of a metadata record: the same content, and well-formed
/// whenever the original is.
pub fn clone_metadata(m: &FileMetadata) -> (r: FileMetadata)
    ensures
        r@ == m@,
        m.wf() ==> r.wf(),
{
    let mut shared_entries: Vec<(String, Vec<u8>)> = Vec::new();
    let n = m.shared_keys.entries.len();
    for i in 0..n
        invariant
            n == m.shared_keys.entries@.len(),
            shared_entries@.len() == i,
            forall|a: int|
                0 <= a < i ==> (#[trigger] shared_entries@[a]).0 == m.shared_keys.entries@[a].0
                    && shared_entries@[a].1@ == m.shared_keys.entries@[a].1@,
    {
        shared_entries.push(
            (m.shared_keys.entries[i].0.clone(), crate::models::clone_bytes(
                &m.shared_keys.entries[i].1,
            )),
        );
    }
    let mut tags: Vec<String> = Vec::new();
    let tn = m.tags.len();
    for i in 0..tn
        invariant
            tn == m.tags@.len(),
            tags@.len() == i,
            forall|a: int| 0 <= a < i ==> #[trigger] tags@[a] == m.tags@[a],
    {
        tags.push(m.tags[i].clone());
    }
    let mut allowed: Vec<String> = Vec::new();
    let an = m.allowed_peers.len();
    for i in 0..an
        invariant
            an == m.allowed_peers@.len(),
            allowed@.len() == i,
            forall|a: int| 0 <= a < i ==> #[trigger] allowed@[a] == m.allowed_peers@[a],
    {
        allowed.push(m.allowed_peers[i].clone());
    }
    let r = FileMetadata {
        file_id: m.file_id.clone(),
        filename: m.filename.clone(),
        tags,
        owner_peer_id: m.owner_peer_id.clone(),
        checksum: m.checksum.clone(),
        size: m.size,
        encrypted_file_key: crate::models::clone_bytes(&m.encrypted_file_key),
        shared_keys: StringMap { entries: shared_entries },
        allowed_peers: allowed,
    };
    proof {
        assert(r.tags@ =~= m.tags@);
        assert(r.allowed_peers@ =~= m.allowed_peers@);
        assert(r@.tags =~= m@.tags);
        assert(r@.shared_keys =~= m@.shared_keys);
        assert(r@.allowed_peers =~= m@.allowed_peers);
        assert(r@ =~= m@);
        if m.wf() {
            assert(crate::util::distinct_keys(r.shared_keys.entries@)) by {
                assert(forall|a: int|
                    0 <= a < r.shared_keys.entries@.len()
                        ==> (#[trigger] r.shared_keys.entries@[a]).0@
                        == m.shared_keys.entries@[a].0@);
            }
            assert(seq_has_string(r.allowed_peers@, r.owner_peer_id@)) by {
                let i = choose|i: int|
                    0 <= i < m.allowed_peers@.len() && m.allowed_peers@[i]@ == m.owner_peer_id@;
                assert(r.allowed_peers@[i]@ == r.owner_peer_id@);
            }
            assert forall|u: Seq<char>|
                #[trigger] r.shared_keys@.contains_key(u) implies seq_has_string(
                r.allowed_peers@,
                u,
            ) by {
                crate::util::lemma_assoc_contains(r.shared_keys.entries@, u);
                crate::util::lemma_assoc_contains(m.shared_keys.entries@, u);
                let j = choose|j: int|
                    0 <= j < r.shared_keys.entries@.len() && r.shared_keys.entries@[j].0@ == u;
                assert(m.shared_keys.entries@[j].0@ == u);
                assert(m.shared_keys@.contains_key(u));
                assert(seq_has_string(m.allowed_peers@, u));
                let i = choose|i: int|
                    0 <= i < m.allowed_peers@.len() && m.allowed_peers@[i]@ == u;
                assert(r.allowed_peers@[i]@ == u);
            }
            lemma_meta_wf_from_map(&r);
        }
    }
    r
}

} // verus!
