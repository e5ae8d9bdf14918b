//! Cryptographic primitives: AES-256-GCM file encryption, X25519 key
//! agreement, key envelopes for recipients, and password-wrapped identity
//! keys (PBKDF2-HMAC-SHA256 at 100,000 rounds over a 16-byte salt).
//!
//! Blob layouts: an encrypted file is `nonce(12) || ciphertext || tag(16)`;
//! a key envelope is `ephemeral_pub(32) || nonce(12) || ciphertext || tag(16)`;
//! a password-wrapped identity key is `salt(16) || nonce(12) || ciphertext || tag(16)`.

use vstd::prelude::*;
use vstd::slice::{slice_subrange, slice_to_vec};
use crate::errors::DafsError;

use aes_gcm::aead::Aead;
use aes_gcm::KeyInit;
use sha2::Digest;

verus! {

/// The largest plaintext AES-GCM encrypts: longer inputs are refused by the
/// cipher itself.
pub const MAX_PLAINTEXT_BYTES: u64 = 0x10_0000_0000;

/// What AES-256-GCM decryption returns for a blob `nonce || ciphertext || tag`
/// under a key: the plaintext, or nothing when the tag does not verify.
pub uninterp spec fn aead_open(blob: Seq<u8>, key: Seq<u8>) -> Option<Seq<u8>>;

/// The X25519 public key derived from 32 secret bytes.
pub uninterp spec fn x25519_pub_of(sk: Seq<u8>) -> Seq<u8>;

/// The X25519 shared secret of a key pair, as a function of the two public
/// keys: both sides of a Diffie-Hellman exchange compute the same value.
pub uninterp spec fn x25519_shared_of(a_pub: Seq<u8>, b_pub: Seq<u8>) -> Seq<u8>;

/// The PBKDF2-HMAC-SHA256 key derived from a password and salt at the fixed
/// round count of 100,000.
pub uninterp spec fn pbkdf2_key(password: Seq<char>, salt: Seq<u8>) -> Seq<u8>;

/// The SHA-256 digest of a byte string.
pub uninterp spec fn sha256_of(data: Seq<u8>) -> Seq<u8>;

/// Relies on `rand::random`: 32 fresh random bytes; nothing is assumed of them.
#[verifier::external_body]
pub fn random_bytes_32() -> [u8; 32] {
    rand::random()
}

/// Relies on `rand::random`: 16 fresh random bytes; nothing is assumed of them.
#[verifier::external_body]
fn random_bytes_16() -> [u8; 16] {
    rand::random()
}

/// Relies on `rand::random`: 12 fresh random bytes; nothing is assumed of them.
#[verifier::external_body]
fn random_bytes_12() -> [u8; 12] {
    rand::random()
}

/// Relies on `aes_gcm::Aes256Gcm::encrypt` (AES-256-GCM): the emitted blob is
/// the nonce, the ciphertext of the plaintext, and a 16-byte tag; decrypting
/// it under the same key returns exactly the plaintext. Encryption succeeds
/// for every plaintext up to the cipher's length limit.
#[verifier::external_body]
fn aead_seal(plaintext: &[u8], key: &[u8; 32], nonce: &[u8; 12]) -> (r: Option<Vec<u8>>)
    ensures
        r matches Some(blob) ==> blob@.len() == plaintext@.len() + 28 && aead_open(blob@, key@)
            == Some(plaintext@),
        plaintext@.len() <= MAX_PLAINTEXT_BYTES ==> r is Some,
{
    let cipher = aes_gcm::Aes256Gcm::new(aes_gcm::Key::<aes_gcm::Aes256Gcm>::from_slice(key));
    match cipher.encrypt(aes_gcm::Nonce::from_slice(nonce), plaintext) {
        Ok(ciphertext) => {
            let mut blob = nonce.to_vec();
            blob.extend_from_slice(&ciphertext);
            Some(blob)
        },
        Err(_) => None,
    }
}

/// Relies on `aes_gcm::Aes256Gcm::decrypt` (AES-256-GCM): deterministic in
/// the blob and key; `aead_open` names its result.
#[verifier::external_body]
fn aead_unseal(blob: &[u8], key: &[u8; 32]) -> (r: Option<Vec<u8>>)
    requires
        blob@.len() >= 12,
    ensures
        r matches Some(p) ==> aead_open(blob@, key@) == Some(p@),
        r is None ==> aead_open(blob@, key@) is None,
{
    let (nonce, ciphertext) = blob.split_at(12);
    let cipher = aes_gcm::Aes256Gcm::new(aes_gcm::Key::<aes_gcm::Aes256Gcm>::from_slice(key));
    cipher.decrypt(aes_gcm::Nonce::from_slice(nonce), ciphertext).ok()
}

/// Relies on `x25519_dalek::PublicKey::from(&StaticSecret)`: the public key
/// is a function of the secret bytes alone.
#[verifier::external_body]
pub fn x25519_public_key(sk: &[u8; 32]) -> (r: [u8; 32])
    ensures
        r@ == x25519_pub_of(sk@),
{
    let secret = x25519_dalek::StaticSecret::from(*sk);
    *x25519_dalek::PublicKey::from(&secret).as_bytes()
}

/// Relies on `x25519_dalek::StaticSecret::diffie_hellman`: the shared secret
/// agreed by both sides, a function of the unordered pair of public keys.
#[verifier::external_body]
fn x25519_dh(sk: &[u8; 32], peer_pub: &[u8; 32]) -> (r: [u8; 32])
    ensures
        r@ == x25519_shared_of(x25519_pub_of(sk@), peer_pub@),
        r@ == x25519_shared_of(peer_pub@, x25519_pub_of(sk@)),
{
    let secret = x25519_dalek::StaticSecret::from(*sk);
    let public = x25519_dalek::PublicKey::from(*peer_pub);
    secret.diffie_hellman(&public).to_bytes()
}

/// Relies on `pbkdf2::pbkdf2_hmac` with SHA-256 at 100,000 rounds: the
/// derived 32-byte key is a function of the password and salt alone.
#[verifier::external_body]
fn derive_key(password: &str, salt: &[u8; 16]) -> (r: [u8; 32])
    ensures
        r@ == pbkdf2_key(password@, salt@),
{
    let mut key = [0u8; 32];
    pbkdf2::pbkdf2_hmac::<sha2::Sha256>(password.as_bytes(), salt, 100_000, &mut key);
    key
}

/// Relies on `sha2::Sha256::digest`: the 32-byte digest, a function of the
/// input alone.
#[verifier::external_body]
pub fn sha256_digest(data: &[u8]) -> (r: Vec<u8>)
    ensures
        r@ == sha256_of(data@),
        r@.len() == 32,
{
    sha2::Sha256::digest(data).to_vec()
}

/// What decrypting a blob under a key yields: nothing for a blob shorter than
/// a nonce, otherwise whatever the AEAD opens it to.
pub open spec fn spec_decrypt(blob: Seq<u8>, key: Seq<u8>) -> Option<Seq<u8>> {
    if blob.len() < 12 {
        None
    } else {
        aead_open(blob, key)
    }
}

/// Encrypts `contents` under a 32-byte key with a fresh random nonce; fails
/// only for plaintexts beyond the cipher's length limit.
pub fn encrypt_file(contents: &[u8], key: &[u8; 32]) -> (r: Result<Vec<u8>, DafsError>)
    ensures
        r matches Ok(blob) ==> blob@.len() == contents@.len() + 28 && spec_decrypt(blob@, key@)
            == Some(contents@),
        contents@.len() <= MAX_PLAINTEXT_BYTES ==> r is Ok,
        r is Err ==> r == Err::<Vec<u8>, DafsError>(DafsError::Internal) && contents@.len()
            > MAX_PLAINTEXT_BYTES,
{
    let nonce = random_bytes_12();
    match aead_seal(contents, key, &nonce) {
        Some(blob) => Ok(blob),
        None => Err(DafsError::Internal),
    }
}

/// Decrypts a blob produced by `encrypt_file`. Fails with `BadCiphertext`
/// exactly when the blob is shorter than a nonce or its tag does not verify.
pub fn decrypt_file(blob: &[u8], key: &[u8; 32]) -> (r: Result<Vec<u8>, DafsError>)
    ensures
        r matches Ok(p) ==> spec_decrypt(blob@, key@) == Some(p@),
        r is Err ==> r == Err::<Vec<u8>, DafsError>(DafsError::BadCiphertext) && spec_decrypt(
            blob@,
            key@,
        ) is None,
{
    if blob.len() < 12 {
        return Err(DafsError::BadCiphertext);
    }
    match aead_unseal(blob, key) {
        Some(p) => Ok(p),
        None => Err(DafsError::BadCiphertext),
    }
}

/// A fresh X25519 keypair: 32 random secret bytes and their public key.
pub fn generate_keypair() -> (r: ([u8; 32], [u8; 32]))
    ensures
        r.1@ == x25519_pub_of(r.0@),
{
    let sk = random_bytes_32();
    let pk = x25519_public_key(&sk);
    (sk, pk)
}

/// What unwrapping an envelope with a secret key yields: the envelope is
/// `ephemeral_pub(32) || sealed`, and the sealed part opens under the shared
/// secret of the holder's public key and the ephemeral public key.
pub open spec fn envelope_open(env: Seq<u8>, sk: Seq<u8>) -> Option<Seq<u8>> {
    if env.len() < 44 {
        None
    } else {
        aead_open(env.skip(32), x25519_shared_of(x25519_pub_of(sk), env.take(32)))
    }
}

/// Whether an envelope opens to exactly the key `k` under the secret `sk`.
pub open spec fn opens_to(env: Seq<u8>, sk: Seq<u8>, k: Seq<u8>) -> bool {
    envelope_open(env, sk) == Some(k)
}

/// Wraps a 32-byte file key for a recipient: ephemeral-static Diffie-Hellman,
/// then AEAD under the shared secret. Whoever holds the secret key matching
/// `recipient_pub` can open the envelope back to the file key.
pub fn wrap_file_key_for(file_key: &[u8; 32], recipient_pub: &[u8; 32]) -> (r: Result<
    Vec<u8>,
    DafsError,
>)
    ensures
        r is Ok,
        r matches Ok(env) ==> env@.len() == 92 && forall|sk: Seq<u8>|
            x25519_pub_of(sk) == recipient_pub@ ==> envelope_open(env@, sk) == Some(file_key@),
{
    let eph = random_bytes_32();
    let eph_pub = x25519_public_key(&eph);
    let shared = x25519_dh(&eph, recipient_pub);
    let nonce = random_bytes_12();
    let sealed = match aead_seal(file_key, &shared, &nonce) {
        Some(s) => s,
        None => {
            return Err(DafsError::Internal);
        },
    };
    let mut env: Vec<u8> = Vec::new();
    env.extend_from_slice(vstd::array::array_as_slice(&eph_pub));
    env.extend_from_slice(sealed.as_slice());
    proof {
        assert(env@.take(32) =~= eph_pub@);
        assert(env@.skip(32) =~= sealed@);
        assert forall|sk: Seq<u8>| x25519_pub_of(sk) == recipient_pub@ implies envelope_open(
            env@,
            sk,
        ) == Some(file_key@) by {
            assert(x25519_shared_of(x25519_pub_of(sk), eph_pub@) == shared@);
        }
    }
    Ok(env)
}

/// A 32-byte array holding the same bytes as a 32-byte vector.
pub fn bytes_to_key32(v: &Vec<u8>) -> (r: [u8; 32])
    requires
        v@.len() == 32,
    ensures
        r@ == v@,
{
    let mut r = [0u8; 32];
    for i in 0..32usize
        invariant
            v@.len() == 32,
            r@.len() == 32,
            forall|j: int| 0 <= j < i ==> r@[j] == v@[j],
    {
        r[i] = v[i];
    }
    proof {
        assert(r@ =~= v@);
    }
    r
}

/// Unwraps a key envelope with the holder's secret key. Fails with
/// `BadCiphertext` exactly when the envelope is malformed, its tag does not
/// verify, or its payload is not a 32-byte key.
pub fn unwrap_file_key(envelope: &[u8], sk: &[u8; 32]) -> (r: Result<[u8; 32], DafsError>)
    ensures
        r matches Ok(k) ==> envelope_open(envelope@, sk@) == Some(k@),
        r is Err ==> r == Err::<[u8; 32], DafsError>(DafsError::BadCiphertext),
        r is Err ==> (envelope_open(envelope@, sk@) matches Some(k) ==> k.len() != 32),
{
    if envelope.len() < 44 {
        return Err(DafsError::BadCiphertext);
    }
    let eph_pub_slice = slice_subrange(envelope, 0, 32);
    let eph_pub = bytes_to_key32(&slice_to_vec(eph_pub_slice));
    let shared = x25519_dh(sk, &eph_pub);
    let sealed = slice_subrange(envelope, 32, envelope.len());
    proof {
        assert(eph_pub@ =~= envelope@.take(32));
        assert(sealed@ =~= envelope@.skip(32));
    }
    match aead_unseal(sealed, &shared) {
        Some(p) => {
            if p.len() == 32 {
                Ok(bytes_to_key32(&p))
            } else {
                Err(DafsError::BadCiphertext)
            }
        },
        None => Err(DafsError::BadCiphertext),
    }
}

/// What unwrapping a password-wrapped identity key yields: the blob is
/// `salt(16) || sealed`, and the sealed part opens under the key derived from
/// the password and the salt.
pub open spec fn keyfile_open(blob: Seq<u8>, password: Seq<char>) -> Option<Seq<u8>> {
    if blob.len() < 28 {
        None
    } else {
        aead_open(blob.skip(16), pbkdf2_key(password, blob.take(16)))
    }
}

/// Wraps a 32-byte identity key seed under a password: a fresh salt, a key
/// derived from the password, and AEAD over the seed.
pub fn wrap_identity_key(seed: &[u8; 32], password: &str) -> (r: Result<Vec<u8>, DafsError>)
    ensures
        r is Ok,
        r matches Ok(blob) ==> blob@.len() == 76 && keyfile_open(blob@, password@) == Some(seed@),
{
    let salt = random_bytes_16();
    let key = derive_key(password, &salt);
    let nonce = random_bytes_12();
    let sealed = match aead_seal(seed, &key, &nonce) {
        Some(s) => s,
        None => {
            return Err(DafsError::Internal);
        },
    };
    let mut blob: Vec<u8> = Vec::new();
    blob.extend_from_slice(vstd::array::array_as_slice(&salt));
    blob.extend_from_slice(sealed.as_slice());
    proof {
        assert(blob@.take(16) =~= salt@);
        assert(blob@.skip(16) =~= sealed@);
    }
    Ok(blob)
}

/// Unwraps a password-wrapped identity key. Fails with `BadCiphertext`
/// exactly when the blob is malformed, the password is wrong, or the payload
/// is not a 32-byte seed.
pub fn unwrap_identity_key(blob: &[u8], password: &str) -> (r: Result<[u8; 32], DafsError>)
    ensures
        r matches Ok(k) ==> keyfile_open(blob@, password@) == Some(k@),
        r is Err ==> r == Err::<[u8; 32], DafsError>(DafsError::BadCiphertext),
        r is Err ==> (keyfile_open(blob@, password@) matches Some(k) ==> k.len() != 32),
{
    if blob.len() < 28 {
        return Err(DafsError::BadCiphertext);
    }
    let salt_slice = slice_subrange(blob, 0, 16);
    let mut salt = [0u8; 16];
    for i in 0..16usize
        invariant
            salt_slice@.len() == 16,
            salt@.len() == 16,
            forall|j: int| 0 <= j < i ==> salt@[j] == salt_slice@[j],
    {
        salt[i] = salt_slice[i];
    }
    let key = derive_key(password, &salt);
    let sealed = slice_subrange(blob, 16, blob.len());
    proof {
        assert(salt@ =~= blob@.take(16));
        assert(sealed@ =~= blob@.skip(16));
    }
    match aead_unseal(sealed, &key) {
        Some(p) => {
            if p.len() == 32 {
                Ok(bytes_to_key32(&p))
            } else {
                Err(DafsError::BadCiphertext)
            }
        },
        None => Err(DafsError::BadCiphertext),
    }
}

/// Law: decrypting what encryption emitted, under the same key, returns the
/// original plaintext: every `Ok` of `encrypt_file` satisfies the premise,
/// and `decrypt_file` then returns exactly `plaintext`.
pub proof fn lemma_encrypt_decrypt_round_trip(blob: Seq<u8>, key: Seq<u8>, plaintext: Seq<u8>)
    requires
        blob.len() == plaintext.len() + 28,
        aead_open(blob, key) == Some(plaintext),
    ensures
        spec_decrypt(blob, key) == Some(plaintext),
{
}

/// Law: unwrapping a wrapped file key with the recipient's secret key returns
/// the original file key: every `Ok` envelope of `wrap_file_key_for` under
/// `x25519_pub_of(sk)` satisfies the premise, and `unwrap_file_key` with `sk`
/// then returns exactly `file_key`.
pub proof fn lemma_envelope_round_trip(env: Seq<u8>, sk: Seq<u8>, file_key: Seq<u8>)
    requires
        env.len() >= 44,
        envelope_open(env, sk) == Some(file_key),
        file_key.len() == 32,
    ensures
        aead_open(env.skip(32), x25519_shared_of(x25519_pub_of(sk), env.take(32))) == Some(
            file_key,
        ),
{
}

} // verus!
