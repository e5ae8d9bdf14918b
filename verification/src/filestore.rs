//! The file store engine: resumable chunked upload, chunked download,
//! at-rest encryption, access control and key-envelope sharing.

use vstd::prelude::*;
use crate::crypto::{
    encrypt_file, envelope_open, opens_to, random_bytes_32, sha256_digest, sha256_of,
    spec_decrypt, unwrap_file_key, wrap_file_key_for, x25519_pub_of,
};
use crate::errors::DafsError;
use crate::host::fresh_uuid;
use crate::store::{FileMetadata, Storage};
use crate::text::{bytes_to_hex, spec_hex};
use crate::util::{seq_has_string, str_eq, vec_contains_string, StringMap};

verus! {

/// The largest chunk the store streams at once: 1 MiB.
pub const MAX_CHUNK_SIZE: usize = 1048576;

// ---- chunk arithmetic ----

/// The bytes of a list of chunks, in index order.
pub open spec fn concat_bytes(l: Seq<Seq<u8>>) -> Seq<u8>
    decreases l.len(),
{
    if l.len() == 0 {
        Seq::empty()
    } else {
        l.first() + concat_bytes(l.drop_first())
    }
}

/// The chunks of `data` cut every `size` bytes, the last chunk shorter.
pub open spec fn split_bytes(data: Seq<u8>, size: nat) -> Seq<Seq<u8>>
    decreases data.len(),
    when size > 0
{
    if data.len() == 0 {
        Seq::empty()
    } else if data.len() <= size {
        seq![data]
    } else {
        seq![data.take(size as int)] + split_bytes(data.skip(size as int), size)
    }
}

/// Appending a chunk appends its bytes.
pub proof fn lemma_concat_push(l: Seq<Seq<u8>>, x: Seq<u8>)
    ensures
        concat_bytes(l.push(x)) == concat_bytes(l) + x,
    decreases l.len(),
{
    if l.len() == 0 {
        assert(l.push(x).drop_first() =~= Seq::<Seq<u8>>::empty());
        assert(l.push(x).first() == x);
        assert(concat_bytes(Seq::<Seq<u8>>::empty()) == Seq::<u8>::empty());
        assert(concat_bytes(l.push(x)) == x + Seq::<u8>::empty());
        assert(x + Seq::<u8>::empty() =~= x);
        assert(concat_bytes(l) + x =~= x);
    } else {
        assert(l.push(x).drop_first() =~= l.drop_first().push(x));
        lemma_concat_push(l.drop_first(), x);
        assert(concat_bytes(l.push(x)) == l.first() + (concat_bytes(l.drop_first()) + x));
        assert(l.first() + (concat_bytes(l.drop_first()) + x) =~= (l.first() + concat_bytes(
            l.drop_first(),
        )) + x);
    }
}

/// Law: concatenating the chunks of `data` in index order reproduces `data`
/// byte for byte.
pub proof fn lemma_split_concat(data: Seq<u8>, size: nat)
    requires
        size > 0,
    ensures
        concat_bytes(split_bytes(data, size)) == data,
    decreases data.len(),
{
    if data.len() == 0 {
        assert(concat_bytes(split_bytes(data, size)) =~= data);
    } else if data.len() <= size {
        assert(split_bytes(data, size) == seq![data]);
        assert(split_bytes(data, size).drop_first() =~= Seq::<Seq<u8>>::empty());
        assert(split_bytes(data, size).first() == data);
        assert(concat_bytes(Seq::<Seq<u8>>::empty()) == Seq::<u8>::empty());
        assert(concat_bytes(split_bytes(data, size)) == data + Seq::<u8>::empty());
        assert(data + Seq::<u8>::empty() =~= data);
    } else {
        let rest = split_bytes(data.skip(size as int), size);
        assert((seq![data.take(size as int)] + rest).first() == data.take(size as int));
        assert((seq![data.take(size as int)] + rest).drop_first() =~= rest);
        lemma_split_concat(data.skip(size as int), size);
        assert(data.take(size as int) + data.skip(size as int) =~= data);
    }
}

/// Law: re-uploading a chunk that is already staged changes nothing.
pub proof fn lemma_reupload_idempotent(chunks: Seq<Option<Seq<u8>>>, i: int, data: Seq<u8>)
    requires
        0 <= i < chunks.len(),
        chunks[i] == Some(data),
    ensures
        chunks.update(i, Some(data)) == chunks,
{
    assert(chunks.update(i, Some(data)) =~= chunks);
}

// ---- resumable upload sessions ----

/// The staging area of one upload: each chunk slot is either still missing
/// or holds the bytes received for that index. Re-sending a chunk overwrites
/// the same slot, so re-uploads are idempotent.
pub struct UploadSession {
    pub file_id: String,
    pub chunks: Vec<Option<Vec<u8>>>,
}

/// The staged bytes per slot.
pub open spec fn staged(chunks: Seq<Option<Vec<u8>>>) -> Seq<Option<Seq<u8>>> {
    chunks.map_values(
        |o: Option<Vec<u8>>|
            match o {
                Some(v) => Some(v@),
                None => None,
            },
    )
}

impl UploadSession {
    pub open spec fn total_chunks(&self) -> nat {
        self.chunks@.len()
    }

    pub open spec fn complete(&self) -> bool {
        forall|i: int| 0 <= i < self.chunks@.len() ==> (#[trigger] self.chunks@[i]) is Some
    }

    /// A fresh session with `total_chunks` empty slots.
    pub fn new(file_id: String, total_chunks: usize) -> (r: UploadSession)
        ensures
            r.file_id == file_id,
            r.chunks@.len() == total_chunks,
            forall|i: int| 0 <= i < total_chunks ==> (#[trigger] r.chunks@[i]) is None,
    {
        let mut chunks: Vec<Option<Vec<u8>>> = Vec::new();
        for i in 0..total_chunks
            invariant
                chunks@.len() == i,
                forall|j: int| 0 <= j < i ==> (#[trigger] chunks@[j]) is None,
        {
            chunks.push(None);
        }
        UploadSession { file_id, chunks }
    }

    /// Stages one chunk; staging the same index again overwrites the slot.
    pub fn put_chunk(&mut self, index: usize, data: Vec<u8>) -> (r: Result<(), DafsError>)
        ensures
            index < old(self).chunks@.len() ==> r is Ok && final(self).chunks@ == old(
                self,
            ).chunks@.update(index as int, Some(data)) && final(self).file_id == old(self).file_id,
            index >= old(self).chunks@.len() ==> r == Err::<(), DafsError>(DafsError::BadRequest)
                && *final(self) == *old(self),
    {
        if index < self.chunks.len() {
            self.chunks.set(index, Some(data));
            Ok(())
        } else {
            Err(DafsError::BadRequest)
        }
    }

    /// Whether every slot has been staged.
    pub fn is_complete(&self) -> (r: bool)
        ensures
            r == self.complete(),
    {
        let n = self.chunks.len();
        for i in 0..n
            invariant
                n == self.chunks@.len(),
                forall|j: int| 0 <= j < i ==> (#[trigger] self.chunks@[j]) is Some,
        {
            if self.chunks[i].is_none() {
                return false;
            }
        }
        true
    }

    /// The staged chunks concatenated in index order.
    pub fn assemble(&self) -> (r: Result<Vec<u8>, DafsError>)
        ensures
            self.complete() ==> (r matches Ok(data) && data@ == concat_bytes(
                staged(self.chunks@).map_values(|o: Option<Seq<u8>>| o->0),
            )),
            !self.complete() ==> r == Err::<Vec<u8>, DafsError>(DafsError::BadRequest),
    {
        let ghost parts = staged(self.chunks@).map_values(|o: Option<Seq<u8>>| o->0);
        let mut out: Vec<u8> = Vec::new();
        let n = self.chunks.len();
        proof {
            assert(parts.take(0int) =~= Seq::<Seq<u8>>::empty());
        }
        for i in 0..n
            invariant
                n == self.chunks@.len(),
                parts == staged(self.chunks@).map_values(|o: Option<Seq<u8>>| o->0),
                forall|j: int| 0 <= j < i ==> (#[trigger] self.chunks@[j]) is Some,
                out@ == concat_bytes(parts.take(i as int)),
        {
            match &self.chunks[i] {
                Some(data) => {
                    let mut copy = crate::models::clone_bytes(data);
                    out.append(&mut copy);
                    proof {
                        assert(parts.take(i + 1) =~= parts.take(i as int).push(
                            parts[i as int],
                        ));
                        lemma_concat_push(parts.take(i as int), parts[i as int]);
                        assert(parts[i as int] == data@);
                    }
                },
                None => {
                    return Err(DafsError::BadRequest);
                },
            }
        }
        proof {
            assert(parts.take(n as int) =~= parts);
        }
        Ok(out)
    }
}

/// One chunk of a stored byte string: up to `chunk_size` bytes starting at
/// `chunk_index * chunk_size`, empty past the end.
pub open spec fn spec_chunk(data: Seq<u8>, index: nat, size: nat) -> Seq<u8> {
    let start = index * size;
    if start >= data.len() {
        Seq::empty()
    } else if start + size >= data.len() {
        data.skip(start as int)
    } else {
        data.subrange(start as int, (start + size) as int)
    }
}

/// Reads one chunk of a byte string, as a responder to a chunk request does.
pub fn read_chunk(data: &Vec<u8>, chunk_index: usize, chunk_size: usize) -> (r: Vec<u8>)
    ensures
        r@ == spec_chunk(data@, chunk_index as nat, chunk_size as nat),
{
    proof {
        assert((chunk_index as u128) * (chunk_size as u128) <= (u64::MAX as u128) * (
        u64::MAX as u128) && (u64::MAX as u128) * (u64::MAX as u128) < u128::MAX) by (nonlinear_arith)
            requires
                chunk_index as u128 <= u64::MAX as u128,
                chunk_size as u128 <= u64::MAX as u128,
        ;
    }
    let start128 = (chunk_index as u128) * (chunk_size as u128);
    proof {
        assert((chunk_index as u128) * (chunk_size as u128) == (chunk_index as nat) * (
        chunk_size as nat)) by (nonlinear_arith);
    }
    if start128 >= data.len() as u128 {
        proof {
            assert(spec_chunk(data@, chunk_index as nat, chunk_size as nat) =~= Seq::<
                u8,
            >::empty());
        }
        return Vec::new();
    }
    let start = start128 as usize;
    let end = if chunk_size > data.len() - start {
        data.len()
    } else {
        start + chunk_size
    };
    let r = vstd::slice::slice_to_vec(vstd::slice::slice_subrange(data.as_slice(), start, end));
    proof {
        assert(r@ =~= spec_chunk(data@, chunk_index as nat, chunk_size as nat));
    }
    r
}

/// Splits a byte string into chunks of `chunk_size`, the last one shorter.
pub fn split_into_chunks(data: &Vec<u8>, chunk_size: usize) -> (r: Result<Vec<Vec<u8>>, DafsError>)
    ensures
        chunk_size == 0 ==> r == Err::<Vec<Vec<u8>>, DafsError>(DafsError::BadRequest),
        chunk_size > 0 ==> (r matches Ok(cs) && cs@.map_values(|c: Vec<u8>| c@) == split_bytes(
            data@,
            chunk_size as nat,
        )),
    {
    if chunk_size == 0 {
        return Err(DafsError::BadRequest);
    }
    let mut out: Vec<Vec<u8>> = Vec::new();
    let mut pos: usize = 0;
    let n = data.len();
    proof {
        assert(data@.skip(0int) =~= data@);
        assert(out@.map_values(|c: Vec<u8>| c@) =~= Seq::<Seq<u8>>::empty());
        assert(Seq::<Seq<u8>>::empty() + split_bytes(data@, chunk_size as nat) =~= split_bytes(
            data@,
            chunk_size as nat,
        ));
    }
    while pos < n
        invariant
            chunk_size > 0,
            pos <= n,
            n == data@.len(),
            pos < n ==> split_bytes(data@, chunk_size as nat) == out@.map_values(
                |c: Vec<u8>| c@,
            ) + split_bytes(data@.skip(pos as int), chunk_size as nat),
            pos == n ==> split_bytes(data@, chunk_size as nat) == out@.map_values(
                |c: Vec<u8>| c@,
            ),
        decreases n - pos,
    {
        let end = if chunk_size > n - pos {
            n
        } else {
            pos + chunk_size
        };
        let chunk = vstd::slice::slice_to_vec(
            vstd::slice::slice_subrange(data.as_slice(), pos, end),
        );
        let ghost rest = data@.skip(pos as int);
        out.push(chunk);
        proof {
            if rest.len() <= chunk_size as nat {
                assert(rest =~= data@.subrange(pos as int, end as int));
                assert(split_bytes(rest, chunk_size as nat) =~= seq![rest]);
                assert(out@.map_values(|c: Vec<u8>| c@) =~= out@.drop_last().map_values(
                    |c: Vec<u8>| c@,
                ).push(rest));
                assert(split_bytes(data@, chunk_size as nat) =~= out@.map_values(
                    |c: Vec<u8>| c@,
                ));
            } else {
                assert(rest.take(chunk_size as int) =~= data@.subrange(pos as int, end as int));
                assert(split_bytes(rest, chunk_size as nat) == seq![rest.take(chunk_size as int)]
                    + split_bytes(rest.skip(chunk_size as int), chunk_size as nat));
                assert(rest.skip(chunk_size as int) =~= data@.skip(end as int));
                assert(out@.map_values(|c: Vec<u8>| c@) =~= out@.drop_last().map_values(
                    |c: Vec<u8>| c@,
                ).push(rest.take(chunk_size as int)));
                assert(out@.drop_last().map_values(|c: Vec<u8>| c@) + (seq![rest.take(
                    chunk_size as int,
                )] + split_bytes(data@.skip(end as int), chunk_size as nat)) =~= out@.map_values(
                    |c: Vec<u8>| c@,
                ) + split_bytes(data@.skip(end as int), chunk_size as nat));
            }
        }
        pos = end;
    }
    proof {
        if n == 0 {
            assert(split_bytes(data@, chunk_size as nat) =~= out@.map_values(|c: Vec<u8>| c@));
        }
    }
    Ok(out)
}

// ---- access control and key handling ----

/// Who may download a file: its owner, and everyone holding a wrapped key.
pub open spec fn can_access(m: &FileMetadata, caller: Seq<char>) -> bool {
    m.owner_peer_id@ == caller || m.shared_keys@.contains_key(caller)
}

/// The wrapped file key the caller is entitled to: the owner's own copy, or
/// the caller's entry among the shared keys.
pub open spec fn envelope_for(m: &FileMetadata, caller: Seq<char>) -> Seq<u8> {
    if m.owner_peer_id@ == caller {
        m.encrypted_file_key@
    } else {
        m.shared_keys@[caller]@
    }
}

/// Picks the wrapped file key for a caller; fails with `AccessDenied` exactly
/// when the caller is neither the owner nor among the shared keys.
pub fn authorize_download<'a>(meta: &'a FileMetadata, caller: &str) -> (r: Result<
    &'a Vec<u8>,
    DafsError,
>)
    requires
        meta.shared_keys.wf(),
    ensures
        r is Ok <==> can_access(meta, caller@),
        r matches Ok(env) ==> env@ == envelope_for(meta, caller@),
        r is Err ==> r == Err::<&'a Vec<u8>, DafsError>(DafsError::AccessDenied),
{
    if str_eq(meta.owner_peer_id.as_str(), caller) {
        Ok(&meta.encrypted_file_key)
    } else {
        match meta.shared_keys.get(caller) {
            Some(env) => Ok(env),
            None => Err(DafsError::AccessDenied),
        }
    }
}

/// What downloading yields, step by step: the access decision, the caller's
/// envelope, the file key it opens to, the decryption, and the checksum.
pub open spec fn spec_download(
    m: &FileMetadata,
    blob: Seq<u8>,
    caller: Seq<char>,
    sk: Seq<u8>,
) -> Result<Seq<u8>, DafsError> {
    if !can_access(m, caller) {
        Err(DafsError::AccessDenied)
    } else {
        match envelope_open(envelope_for(m, caller), sk) {
            Some(k) => if k.len() == 32 {
                match spec_decrypt(blob, k) {
                    Some(p) => if spec_hex(sha256_of(p)) == m.checksum@ {
                        Ok(p)
                    } else {
                        Err(DafsError::BadCiphertext)
                    },
                    None => Err(DafsError::BadCiphertext),
                }
            } else {
                Err(DafsError::BadCiphertext)
            },
            None => Err(DafsError::BadCiphertext),
        }
    }
}

/// Law: downloading succeeds, or fails with anything but `AccessDenied`,
/// exactly when the caller is the owner or holds a shared key.
pub proof fn lemma_acl_enforcement(m: &FileMetadata, blob: Seq<u8>, caller: Seq<char>, sk: Seq<u8>)
    ensures
        spec_download(m, blob, caller, sk) == Err::<Seq<u8>, DafsError>(DafsError::AccessDenied)
            <==> !can_access(m, caller),
{
}

/// Downloads a file: unwraps the caller's file key, decrypts the stored blob
/// and verifies the content checksum.
pub fn download_file(
    meta: &FileMetadata,
    blob: &Vec<u8>,
    caller: &str,
    caller_sk: &[u8; 32],
) -> (r: Result<Vec<u8>, DafsError>)
    requires
        meta.shared_keys.wf(),
    ensures
        r matches Ok(p) ==> spec_download(meta, blob@, caller@, caller_sk@) == Ok::<
            Seq<u8>,
            DafsError,
        >(p@),
        r matches Err(e) ==> spec_download(meta, blob@, caller@, caller_sk@) == Err::<
            Seq<u8>,
            DafsError,
        >(e),
{
    let envelope = match authorize_download(meta, caller) {
        Ok(env) => env,
        Err(e) => {
            return Err(e);
        },
    };
    let key = match unwrap_file_key(envelope.as_slice(), caller_sk) {
        Ok(k) => k,
        Err(e) => {
            return Err(e);
        },
    };
    let plain = match crate::crypto::decrypt_file(blob.as_slice(), &key) {
        Ok(p) => p,
        Err(e) => {
            return Err(e);
        },
    };
    let digest = sha256_digest(plain.as_slice());
    let checksum = bytes_to_hex(&digest);
    if !str_eq(checksum.as_str(), meta.checksum.as_str()) {
        return Err(DafsError::BadCiphertext);
    }
    Ok(plain)
}

/// The outcome of a finished upload: the record to store and the encrypted
/// blob to keep on disk.
pub struct UploadOutcome {
    pub meta: FileMetadata,
    pub blob: Vec<u8>,
}

/// Finishes an upload: generates the file id and a fresh file key, encrypts
/// the assembled plaintext, wraps the key for the owner and builds the
/// metadata record with its checksum.
pub fn finish_upload(
    plaintext: &Vec<u8>,
    filename: String,
    tags: Vec<String>,
    owner: String,
    owner_pub: &[u8; 32],
) -> (r: Result<UploadOutcome, DafsError>)
    ensures
        plaintext@.len() <= crate::crypto::MAX_PLAINTEXT_BYTES ==> r is Ok,
        r is Err ==> plaintext@.len() > crate::crypto::MAX_PLAINTEXT_BYTES,
        r matches Ok(out) ==> {
            &&& out.meta.wf()
            &&& out.meta.file_id@.len() == 36
            &&& out.meta.filename == filename
            &&& out.meta.tags@ == tags@
            &&& out.meta.owner_peer_id == owner
            &&& out.meta.size == plaintext@.len()
            &&& out.meta.checksum@ == spec_hex(sha256_of(plaintext@))
            &&& out.meta.shared_keys@ == Map::<Seq<char>, Vec<u8>>::empty()
            &&& can_access(&out.meta, owner@)
            &&& (exists|k: Seq<u8>|
                {
                    &&& #[trigger] spec_decrypt(out.blob@, k) == Some(plaintext@)
                    &&& k.len() == 32
                    &&& forall|sk: Seq<u8>|
                        x25519_pub_of(sk) == owner_pub@ ==> envelope_open(
                            out.meta.encrypted_file_key@,
                            sk,
                        ) == Some(k)
                })
        },
{
    let file_key = random_bytes_32();
    let blob = match encrypt_file(plaintext.as_slice(), &file_key) {
        Ok(b) => b,
        Err(e) => {
            return Err(e);
        },
    };
    let envelope = match wrap_file_key_for(&file_key, owner_pub) {
        Ok(env) => env,
        Err(e) => {
            return Err(e);
        },
    };
    let digest = sha256_digest(plaintext.as_slice());
    let checksum = bytes_to_hex(&digest);
    let mut allowed_peers: Vec<String> = Vec::new();
    allowed_peers.push(owner.clone());
    let meta = FileMetadata {
        file_id: fresh_uuid(),
        filename,
        tags,
        owner_peer_id: owner,
        checksum,
        size: plaintext.len() as u64,
        encrypted_file_key: envelope,
        shared_keys: StringMap::new(),
        allowed_peers,
    };
    let outcome = UploadOutcome { meta, blob };
    proof {
        assert(outcome.meta.allowed_peers@[0]@ == outcome.meta.owner_peer_id@);
        assert(seq_has_string(outcome.meta.allowed_peers@, outcome.meta.owner_peer_id@));
        crate::store::lemma_meta_wf_from_map(&outcome.meta);
        assert(spec_decrypt(outcome.blob@, file_key@) == Some(plaintext@));
        assert(file_key@.len() == 32);
        assert(forall|sk: Seq<u8>|
            x25519_pub_of(sk) == owner_pub@ ==> envelope_open(
                outcome.meta.encrypted_file_key@,
                sk,
            ) == Some(file_key@));
    }
    Ok(outcome)
}

/// Shares a file with a recipient: owner-only. The owner unwraps their own
/// file key, re-wraps it for the recipient, and the recipient joins both the
/// shared-key map and the access list. No other entry changes.
pub fn share_file(
    meta: &mut FileMetadata,
    caller: &str,
    caller_sk: &[u8; 32],
    recipient: &str,
    recipient_pub: &[u8; 32],
) -> (r: Result<(), DafsError>)
    requires
        old(meta).wf(),
    ensures
        old(meta).owner_peer_id@ != caller@ ==> r == Err::<(), DafsError>(DafsError::AccessDenied)
            && *final(meta) == *old(meta),
        r is Err ==> *final(meta) == *old(meta),
        r is Ok <==> old(meta).owner_peer_id@ == caller@ && (envelope_open(
            old(meta).encrypted_file_key@,
            caller_sk@,
        ) matches Some(k) && k.len() == 32),
        r == Err::<(), DafsError>(DafsError::BadCiphertext) <==> old(meta).owner_peer_id@
            == caller@ && !(envelope_open(old(meta).encrypted_file_key@, caller_sk@) matches
        Some(k) && k.len() == 32),
        r is Ok ==> {
            &&& old(meta).owner_peer_id@ == caller@
            &&& final(meta).wf()
            &&& final(meta).file_id == old(meta).file_id
            &&& final(meta).filename == old(meta).filename
            &&& final(meta).tags@ == old(meta).tags@
            &&& final(meta).owner_peer_id == old(meta).owner_peer_id
            &&& final(meta).checksum == old(meta).checksum
            &&& final(meta).size == old(meta).size
            &&& final(meta).encrypted_file_key@ == old(meta).encrypted_file_key@
            &&& final(meta).shared_keys@.contains_key(recipient@)
            &&& final(meta).shared_keys@.remove(recipient@) == old(meta).shared_keys@.remove(
                recipient@,
            )
            &&& seq_has_string(final(meta).allowed_peers@, recipient@)
            &&& (seq_has_string(old(meta).allowed_peers@, recipient@)
                ==> final(meta).allowed_peers@ == old(meta).allowed_peers@)
            &&& (!seq_has_string(old(meta).allowed_peers@, recipient@)
                ==> final(meta).allowed_peers@ == old(meta).allowed_peers@.push(
                final(meta).allowed_peers@.last(),
            ))
            &&& (exists|k: Seq<u8>|
                {
                    &&& #[trigger] opens_to(old(meta).encrypted_file_key@, caller_sk@, k)
                    &&& forall|sk: Seq<u8>|
                        x25519_pub_of(sk) == recipient_pub@ ==> envelope_open(
                            final(meta).shared_keys@[recipient@]@,
                            sk,
                        ) == Some(k)
                })
        },
{
    if !str_eq(meta.owner_peer_id.as_str(), caller) {
        return Err(DafsError::AccessDenied);
    }
    let file_key = match unwrap_file_key(meta.encrypted_file_key.as_slice(), caller_sk) {
        Ok(k) => k,
        Err(e) => {
            return Err(e);
        },
    };
    let recipient_env = match wrap_file_key_for(&file_key, recipient_pub) {
        Ok(env) => env,
        Err(e) => {
            return Err(e);
        },
    };
    meta.shared_keys.insert(recipient.to_owned(), recipient_env);
    if !vec_contains_string(&meta.allowed_peers, recipient) {
        meta.allowed_peers.push(recipient.to_owned());
        assert(meta.allowed_peers@.last()@ == recipient@);
    }
    proof {
        assert(meta.shared_keys@.remove(recipient@) =~= old(meta).shared_keys@.remove(
            recipient@,
        ));
        assert forall|u: Seq<char>|
            #[trigger] meta.shared_keys@.contains_key(u) implies seq_has_string(
            meta.allowed_peers@,
            u,
        ) by {
            if u != recipient@ {
                assert(old(meta).shared_keys@.contains_key(u));
                assert(seq_has_string(old(meta).allowed_peers@, u));
                let i = choose|i: int|
                    0 <= i < old(meta).allowed_peers@.len() && old(meta).allowed_peers@[i]@ == u;
                assert(meta.allowed_peers@[i]@ == u);
            }
        }
        assert(seq_has_string(meta.allowed_peers@, meta.owner_peer_id@)) by {
            let i = choose|i: int|
                0 <= i < old(meta).allowed_peers@.len() && old(meta).allowed_peers@[i]@ == old(
                    meta,
                ).owner_peer_id@;
            assert(meta.allowed_peers@[i]@ == meta.owner_peer_id@);
        }
        assert(opens_to(old(meta).encrypted_file_key@, caller_sk@, file_key@));
        assert(meta.shared_keys@[recipient@]@ == recipient_env@);
        assert(forall|sk: Seq<u8>|
            x25519_pub_of(sk) == recipient_pub@ ==> envelope_open(
                meta.shared_keys@[recipient@]@,
                sk,
            ) == Some(file_key@));
        crate::store::lemma_meta_wf_from_map(meta);
    }
    Ok(())
}

/// Law: after a share, the recipient is in the access list and holds a
/// wrapped key, and every other shared-key entry is untouched.
pub proof fn lemma_share_monotonic(
    before: Map<Seq<char>, Vec<u8>>,
    after: Map<Seq<char>, Vec<u8>>,
    recipient: Seq<char>,
)
    requires
        after.contains_key(recipient),
        after.remove(recipient) == before.remove(recipient),
    ensures
        forall|u: Seq<char>|
            u != recipient ==> (after.contains_key(u) <==> before.contains_key(u)),
        forall|u: Seq<char>|
            u != recipient && after.contains_key(u) ==> after[u] == before[u],
{
    assert forall|u: Seq<char>| u != recipient implies (after.contains_key(u)
        <==> before.contains_key(u)) by {
        assert(after.remove(recipient).contains_key(u) == after.contains_key(u));
        assert(before.remove(recipient).contains_key(u) == before.contains_key(u));
    }
    assert forall|u: Seq<char>| u != recipient && after.contains_key(u) implies after[u]
        == before[u] by {
        assert(after.remove(recipient)[u] == after[u]);
        assert(before.remove(recipient)[u] == before[u]);
    }
}

/// Accepts a wrapped file key pushed by a file's owner for a local user:
/// the key joins the shared-key map and the user joins the access list.
pub fn accept_shared_key(meta: &mut FileMetadata, username: &str, encrypted_key: Vec<u8>)
    requires
        old(meta).wf(),
    ensures
        final(meta).wf(),
        final(meta).shared_keys@.contains_key(username@),
        final(meta).shared_keys@[username@]@ == encrypted_key@,
        final(meta).shared_keys@.remove(username@) == old(meta).shared_keys@.remove(username@),
        seq_has_string(final(meta).allowed_peers@, username@),
        final(meta).owner_peer_id == old(meta).owner_peer_id,
        final(meta).encrypted_file_key@ == old(meta).encrypted_file_key@,
{
    meta.shared_keys.insert(username.to_owned(), encrypted_key);
    if !vec_contains_string(&meta.allowed_peers, username) {
        meta.allowed_peers.push(username.to_owned());
        assert(meta.allowed_peers@.last()@ == username@);
    }
    proof {
        assert(meta.shared_keys@.remove(username@) =~= old(meta).shared_keys@.remove(username@));
        assert(seq_has_string(meta.allowed_peers@, meta.owner_peer_id@)) by {
            let i = choose|i: int|
                0 <= i < old(meta).allowed_peers@.len() && old(meta).allowed_peers@[i]@ == old(
                    meta,
                ).owner_peer_id@;
            assert(meta.allowed_peers@[i]@ == meta.owner_peer_id@);
        }
        assert forall|u: Seq<char>|
            #[trigger] meta.shared_keys@.contains_key(u) implies seq_has_string(
            meta.allowed_peers@,
            u,
        ) by {
            if u != username@ {
                assert(old(meta).shared_keys@.contains_key(u));
                assert(seq_has_string(old(meta).allowed_peers@, u));
                let i = choose|i: int|
                    0 <= i < old(meta).allowed_peers@.len() && old(meta).allowed_peers@[i]@ == u;
                assert(meta.allowed_peers@[i]@ == u);
            }
        }
        crate::store::lemma_meta_wf_from_map(meta);
    }
}

/// Deletes a file's record: owner-only; a file that is already gone is
/// `NotFound`.
pub fn delete_file(storage: &mut Storage, file_id: &str, caller: &str) -> (r: Result<
    (),
    DafsError,
>)
    ensures
        r is Ok ==> {
            &&& crate::store::kv_map(old(storage).kv).contains_key(file_id@)
            &&& (crate::store::dec_meta(
                crate::store::kv_map(old(storage).kv)[file_id@],
            ) matches Some(mv) && mv.owner_peer_id == caller@)
            &&& crate::store::kv_map(final(storage).kv) == crate::store::kv_map(
                old(storage).kv,
            ).remove(file_id@)
        },
        r == Err::<(), DafsError>(DafsError::NotFound) ==> !crate::store::kv_map(
            old(storage).kv,
        ).contains_key(file_id@) && *final(storage) == *old(storage),
        r == Err::<(), DafsError>(DafsError::AccessDenied) ==> {
            &&& crate::store::kv_map(old(storage).kv).contains_key(file_id@)
            &&& (crate::store::dec_meta(
                crate::store::kv_map(old(storage).kv)[file_id@],
            ) matches Some(mv) && mv.owner_peer_id != caller@)
            &&& *final(storage) == *old(storage)
        },
{
    let meta = match storage.get_metadata(file_id) {
        Ok(Some(m)) => m,
        Ok(None) => {
            return Err(DafsError::NotFound);
        },
        Err(e) => {
            return Err(e);
        },
    };
    if !str_eq(meta.owner_peer_id.as_str(), caller) {
        return Err(DafsError::AccessDenied);
    }
    storage.delete_metadata(file_id)
}

} // verus!
