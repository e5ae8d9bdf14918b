//! Round trips and failure cases of the cryptographic primitives.

use dafs::crypto::{
    decrypt_file, encrypt_file, generate_keypair, sha256_digest, unwrap_file_key,
    unwrap_identity_key, wrap_file_key_for, wrap_identity_key,
};
use dafs::errors::DafsError;
use dafs::text::bytes_to_hex;

#[test]
fn encrypt_decrypt_round_trip() {
    let key = [7u8; 32];
    let plaintext = b"hello world".to_vec();
    let blob = encrypt_file(&plaintext, &key).unwrap();
    assert_eq!(blob.len(), plaintext.len() + 28);
    let back = decrypt_file(&blob, &key).unwrap();
    assert_eq!(back, plaintext);
}

#[test]
fn decrypt_rejects_bit_flip() {
    let key = [9u8; 32];
    let plaintext = b"attack at dawn".to_vec();
    let blob = encrypt_file(&plaintext, &key).unwrap();
    for i in 0..blob.len() {
        let mut corrupted = blob.clone();
        corrupted[i] ^= 0x01;
        let r = decrypt_file(&corrupted, &key);
        assert_eq!(r, Err(DafsError::BadCiphertext));
    }
}

#[test]
fn decrypt_rejects_short_blob() {
    let key = [1u8; 32];
    let r = decrypt_file(&vec![0u8; 11], &key);
    assert_eq!(r, Err(DafsError::BadCiphertext));
}

#[test]
fn decrypt_rejects_wrong_key() {
    let key = [3u8; 32];
    let other = [4u8; 32];
    let blob = encrypt_file(&b"secret".to_vec(), &key).unwrap();
    assert_eq!(decrypt_file(&blob, &other), Err(DafsError::BadCiphertext));
}

#[test]
fn envelope_round_trip() {
    let (sk, pk) = generate_keypair();
    let file_key = [42u8; 32];
    let envelope = wrap_file_key_for(&file_key, &pk).unwrap();
    assert_eq!(envelope.len(), 92);
    let back = unwrap_file_key(&envelope, &sk).unwrap();
    assert_eq!(back, file_key);
}

#[test]
fn envelope_rejects_wrong_recipient() {
    let (_sk, pk) = generate_keypair();
    let (other_sk, _other_pk) = generate_keypair();
    let envelope = wrap_file_key_for(&[5u8; 32], &pk).unwrap();
    assert_eq!(unwrap_file_key(&envelope, &other_sk), Err(DafsError::BadCiphertext));
}

#[test]
fn envelope_rejects_truncation() {
    let (sk, pk) = generate_keypair();
    let envelope = wrap_file_key_for(&[5u8; 32], &pk).unwrap();
    assert_eq!(unwrap_file_key(&envelope[..40], &sk), Err(DafsError::BadCiphertext));
}

#[test]
fn identity_key_round_trip() {
    let seed = [13u8; 32];
    let blob = wrap_identity_key(&seed, "correct horse").unwrap();
    assert_eq!(blob.len(), 76);
    let back = unwrap_identity_key(&blob, "correct horse").unwrap();
    assert_eq!(back, seed);
}

#[test]
fn identity_key_rejects_wrong_password() {
    let blob = wrap_identity_key(&[13u8; 32], "correct horse").unwrap();
    assert_eq!(unwrap_identity_key(&blob, "battery staple"), Err(DafsError::BadCiphertext));
}

#[test]
fn sha256_known_vector() {
    let digest = sha256_digest(b"abc");
    let hex = bytes_to_hex(&digest);
    assert_eq!(hex, "ba7816bf8f01cfea414140de5dae2223b00361a396177a9cb410ff61f20015ad");
}

#[test]
fn sha256_differs_from_input() {
    let digest = sha256_digest(b"abc");
    assert_ne!(digest, b"abc".to_vec());
    assert_eq!(digest.len(), 32);
}
