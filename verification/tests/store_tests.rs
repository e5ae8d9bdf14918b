//! The metadata codec and the persistent store.

use dafs::errors::DafsError;
use dafs::store::{decode_metadata, encode_metadata, kv_insert, FileMetadata, Storage};
use dafs::util::StringMap;

fn sample_meta(id: &str) -> FileMetadata {
    let mut shared = StringMap::new();
    shared.insert("bob".to_string(), vec![9, 9, 9]);
    FileMetadata {
        file_id: id.to_string(),
        filename: "notes.txt".to_string(),
        tags: vec!["work".to_string(), "draft".to_string()],
        owner_peer_id: "alice".to_string(),
        checksum: "abcd".to_string(),
        size: 11,
        encrypted_file_key: vec![1, 2, 3, 4],
        shared_keys: shared,
        allowed_peers: vec!["alice".to_string(), "bob".to_string()],
    }
}

fn assert_meta_eq(a: &FileMetadata, b: &FileMetadata) {
    assert_eq!(a.file_id, b.file_id);
    assert_eq!(a.filename, b.filename);
    assert_eq!(a.tags, b.tags);
    assert_eq!(a.owner_peer_id, b.owner_peer_id);
    assert_eq!(a.checksum, b.checksum);
    assert_eq!(a.size, b.size);
    assert_eq!(a.encrypted_file_key, b.encrypted_file_key);
    assert_eq!(a.shared_keys.entries, b.shared_keys.entries);
    assert_eq!(a.allowed_peers, b.allowed_peers);
}

#[test]
fn metadata_codec_round_trip() {
    let meta = sample_meta("file-1");
    let encoded = encode_metadata(&meta);
    let decoded = decode_metadata(&encoded).unwrap();
    assert_meta_eq(&meta, &decoded);
}

#[test]
fn metadata_codec_survives_unicode() {
    let mut meta = sample_meta("file-2");
    meta.filename = "ноты-🎵.txt".to_string();
    let encoded = encode_metadata(&meta);
    let decoded = decode_metadata(&encoded).unwrap();
    assert_eq!(decoded.filename, "ноты-🎵.txt");
}

#[test]
fn metadata_codec_rejects_truncation() {
    let meta = sample_meta("file-3");
    let encoded = encode_metadata(&meta);
    assert!(decode_metadata(&encoded[..encoded.len() - 1].to_vec()).is_none());
    assert!(decode_metadata(&Vec::new()).is_none());
}

#[test]
fn store_insert_get_delete() {
    let mut storage = Storage::new("/tmp/dafs_testdb_basic").unwrap();
    let meta = sample_meta("store-file-1");
    storage.insert_metadata(&meta).unwrap();
    let read = storage.get_metadata("store-file-1").unwrap().unwrap();
    assert_meta_eq(&meta, &read);
    assert!(storage.get_metadata("absent").unwrap().is_none());

    // Insert is an upsert: the newer record wins.
    let mut updated = sample_meta("store-file-1");
    updated.filename = "renamed.txt".to_string();
    storage.insert_metadata(&updated).unwrap();
    let read = storage.get_metadata("store-file-1").unwrap().unwrap();
    assert_eq!(read.filename, "renamed.txt");

    storage.delete_metadata("store-file-1").unwrap();
    assert!(storage.get_metadata("store-file-1").unwrap().is_none());
    storage.delete_metadata("store-file-1").unwrap();
}

#[test]
fn store_lists_every_record() {
    let mut storage = Storage::new("/tmp/dafs_testdb_list").unwrap();
    storage.delete_metadata("lf-1").unwrap();
    storage.delete_metadata("lf-2").unwrap();
    let before = storage.list_metadata().unwrap().len();
    storage.insert_metadata(&sample_meta("lf-1")).unwrap();
    storage.insert_metadata(&sample_meta("lf-2")).unwrap();
    let all = storage.list_metadata().unwrap();
    assert_eq!(all.len(), before + 2);
    let ids: Vec<String> = all.iter().map(|m| m.file_id.clone()).collect();
    assert!(ids.contains(&"lf-1".to_string()));
    assert!(ids.contains(&"lf-2".to_string()));
}

#[test]
fn store_flags_undecodable_records() {
    let mut storage = Storage::new("/tmp/dafs_testdb_bad").unwrap();
    kv_insert(&mut storage.kv, "broken", &vec![1, 2, 3]).unwrap();
    assert!(matches!(storage.get_metadata("broken"), Err(DafsError::Storage)));
}
