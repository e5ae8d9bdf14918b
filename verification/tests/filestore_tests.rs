//! Upload, sharing, access control and chunking of the file store engine.

use dafs::crypto::generate_keypair;
use dafs::errors::DafsError;
use dafs::filestore::{
    download_file, finish_upload, read_chunk, share_file, split_into_chunks, UploadSession,
};

#[test]
fn share_and_download() {
    let (alice_sk, alice_pk) = generate_keypair();
    let (bob_sk, bob_pk) = generate_keypair();
    let plaintext = b"hello world".to_vec();
    let mut outcome = finish_upload(
        &plaintext,
        "hello.txt".to_string(),
        vec!["greeting".to_string()],
        "alice".to_string(),
        &alice_pk,
    )
    .unwrap();
    assert_eq!(outcome.meta.size, 11);
    assert_eq!(outcome.meta.owner_peer_id, "alice");

    // The owner can read their own file back.
    let own = download_file(&outcome.meta, &outcome.blob, "alice", &alice_sk).unwrap();
    assert_eq!(own, plaintext);

    share_file(&mut outcome.meta, "alice", &alice_sk, "bob", &bob_pk).unwrap();
    let bobs = download_file(&outcome.meta, &outcome.blob, "bob", &bob_sk).unwrap();
    assert_eq!(bobs, plaintext);

    let (carol_sk, _carol_pk) = generate_keypair();
    let r = download_file(&outcome.meta, &outcome.blob, "carol", &carol_sk);
    assert_eq!(r, Err(DafsError::AccessDenied));
}

#[test]
fn share_is_owner_only() {
    let (alice_sk, alice_pk) = generate_keypair();
    let (_bob_sk, bob_pk) = generate_keypair();
    let mut outcome = finish_upload(
        &b"data".to_vec(),
        "f".to_string(),
        Vec::new(),
        "alice".to_string(),
        &alice_pk,
    )
    .unwrap();
    let r = share_file(&mut outcome.meta, "mallory", &alice_sk, "bob", &bob_pk);
    assert_eq!(r, Err(DafsError::AccessDenied));
}

#[test]
fn repeated_share_keeps_other_entries() {
    let (alice_sk, alice_pk) = generate_keypair();
    let (_bob_sk, bob_pk) = generate_keypair();
    let (_dave_sk, dave_pk) = generate_keypair();
    let mut outcome = finish_upload(
        &b"payload".to_vec(),
        "f".to_string(),
        Vec::new(),
        "alice".to_string(),
        &alice_pk,
    )
    .unwrap();
    share_file(&mut outcome.meta, "alice", &alice_sk, "dave", &dave_pk).unwrap();
    let daves_envelope = outcome.meta.shared_keys.get("dave").unwrap().clone();
    share_file(&mut outcome.meta, "alice", &alice_sk, "bob", &bob_pk).unwrap();
    share_file(&mut outcome.meta, "alice", &alice_sk, "bob", &bob_pk).unwrap();
    assert_eq!(outcome.meta.shared_keys.get("dave").unwrap(), &daves_envelope);
    assert!(outcome.meta.shared_keys.get("bob").is_some());
    let allowed = &outcome.meta.allowed_peers;
    assert!(allowed.contains(&"alice".to_string()));
    assert!(allowed.contains(&"bob".to_string()));
    assert!(allowed.contains(&"dave".to_string()));
    assert_eq!(allowed.iter().filter(|p| p.as_str() == "bob").count(), 1);
}

#[test]
fn resumable_upload() {
    let mut plaintext = Vec::with_capacity(2_500_000);
    for i in 0..2_500_000usize {
        plaintext.push((i % 251) as u8);
    }
    let chunks = split_into_chunks(&plaintext, 1_048_576).unwrap();
    assert_eq!(chunks.len(), 3);
    assert_eq!(chunks[0].len(), 1_048_576);
    assert_eq!(chunks[2].len(), 2_500_000 - 2 * 1_048_576);

    let mut session = UploadSession::new("big.bin".to_string(), 3);
    session.put_chunk(0, chunks[0].clone()).unwrap();
    session.put_chunk(2, chunks[2].clone()).unwrap();
    assert!(!session.is_complete());

    // A restart rebuilds the session from the staged chunks on disk.
    let mut restarted = UploadSession::new("big.bin".to_string(), 3);
    restarted.put_chunk(0, chunks[0].clone()).unwrap();
    restarted.put_chunk(2, chunks[2].clone()).unwrap();
    restarted.put_chunk(1, chunks[1].clone()).unwrap();
    assert!(restarted.is_complete());
    let assembled = restarted.assemble().unwrap();
    assert_eq!(assembled, plaintext);
}

#[test]
fn reupload_is_idempotent() {
    let data = b"abcdefgh".to_vec();
    let chunks = split_into_chunks(&data, 3).unwrap();
    let mut session = UploadSession::new("f".to_string(), chunks.len());
    for (i, c) in chunks.iter().enumerate() {
        session.put_chunk(i, c.clone()).unwrap();
    }
    let first = session.assemble().unwrap();
    session.put_chunk(1, chunks[1].clone()).unwrap();
    let second = session.assemble().unwrap();
    assert_eq!(first, data);
    assert_eq!(second, data);
}

#[test]
fn put_chunk_rejects_out_of_range_index() {
    let mut session = UploadSession::new("f".to_string(), 2);
    let r = session.put_chunk(2, vec![1, 2, 3]);
    assert_eq!(r, Err(DafsError::BadRequest));
}

#[test]
fn assemble_requires_every_chunk() {
    let session = UploadSession::new("f".to_string(), 1);
    assert_eq!(session.assemble(), Err(DafsError::BadRequest));
}

#[test]
fn split_rejects_zero_chunk_size() {
    assert_eq!(split_into_chunks(&vec![1u8], 0), Err(DafsError::BadRequest));
}

#[test]
fn read_chunk_clips_at_the_end() {
    let data = b"0123456789".to_vec();
    assert_eq!(read_chunk(&data, 0, 4), b"0123".to_vec());
    assert_eq!(read_chunk(&data, 2, 4), b"89".to_vec());
    assert_eq!(read_chunk(&data, 3, 4), Vec::<u8>::new());
}

#[test]
fn download_detects_checksum_mismatch() {
    let (alice_sk, alice_pk) = generate_keypair();
    let mut outcome = finish_upload(
        &b"original".to_vec(),
        "f".to_string(),
        Vec::new(),
        "alice".to_string(),
        &alice_pk,
    )
    .unwrap();
    outcome.meta.checksum = "0000".to_string();
    let r = download_file(&outcome.meta, &outcome.blob, "alice", &alice_sk);
    assert_eq!(r, Err(DafsError::BadCiphertext));
}
