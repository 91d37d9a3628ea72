use std::collections::HashMap;

use c0mpute::erasure::Shard;
use c0mpute::hash;
use c0mpute::storage::{ChunkStore, ObjectManifest, Storage, StorageError};

/// A content-addressed chunk store held in memory.
struct MemChunks(HashMap<[u8; 32], Vec<u8>>);

impl MemChunks {
    fn put(&mut self, bytes: &[u8]) -> hash::Hash {
        let h = hash::Hash::of(bytes);
        self.0.insert(h.0, bytes.to_vec());
        h
    }
    fn get(&self, h: &hash::Hash) -> Option<Vec<u8>> {
        self.0.get(&h.0).cloned()
    }
    fn delete(&mut self, h: &hash::Hash) {
        self.0.remove(&h.0);
    }
}

fn put(chunks: &mut MemChunks, data: &[u8]) -> ObjectManifest {
    let (manifest, shards) = Storage::prepare_put(data);
    for (entry, s) in manifest.shards.iter().zip(shards.iter()) {
        assert!(chunks.put(&s.bytes) == entry.hash);
    }
    manifest
}

fn get(chunks: &MemChunks, m: &ObjectManifest) -> Result<Vec<u8>, StorageError> {
    let fetched: Vec<Option<Vec<u8>>> = m.shards.iter().map(|e| chunks.get(&e.hash)).collect();
    Storage::finish_get(m, fetched)
}

/// Pseudo-random heterogeneous bytes, so that no two shards share a hash.
fn varied(len: usize) -> Vec<u8> {
    let mut out = Vec::with_capacity(len);
    let mut state: u64 = 0x9e3779b97f4a7c15;
    for _ in 0..len {
        state ^= state << 13;
        state ^= state >> 7;
        state ^= state << 17;
        out.push((state & 0xff) as u8);
    }
    out
}

#[test]
fn put_get_roundtrip() {
    let mut s = MemChunks(HashMap::new());
    let data = b"hello c0mpute erasure-coded storage".repeat(50);
    let m = put(&mut s, &data);
    assert_eq!(m.shards.len(), 14);
    let out = get(&s, &m).unwrap();
    assert_eq!(out, data);
}

#[test]
fn survives_four_lost_shards() {
    let mut s = MemChunks(HashMap::new());
    let data = varied(50_000);
    let m = put(&mut s, &data);
    for entry in m.shards.iter().take(4) {
        s.delete(&entry.hash);
    }
    let out = get(&s, &m).unwrap();
    assert_eq!(out, data);
}

#[test]
fn fails_on_five_lost_shards() {
    let mut s = MemChunks(HashMap::new());
    let data = varied(20_000);
    let m = put(&mut s, &data);
    for entry in m.shards.iter().take(5) {
        s.delete(&entry.hash);
    }
    let err = get(&s, &m).unwrap_err().message();
    assert!(
        err.contains("at least") || err.contains("need"),
        "expected decode-shortage error, got: {err}"
    );
}

#[test]
fn manifest_describes_the_object() {
    let data = b"manifest contents".to_vec();
    let (m, shards) = Storage::prepare_put(&data);
    assert!(m.object_hash == hash::Hash::of(&data));
    assert_eq!(m.original_len, data.len() as u64);
    assert_eq!((m.k, m.parity), (10, 4));
    assert_eq!(shards.len(), 14);
    for (i, (e, s)) in m.shards.iter().zip(shards.iter()).enumerate() {
        assert_eq!(e.index as usize, i);
        assert_eq!(s.index as usize, i);
        assert!(e.hash == hash::Hash::of(&s.bytes));
        assert!(e.host_hint.is_none());
    }
}

#[test]
fn corrupted_shard_fails_integrity_check() {
    let data = varied(1000);
    let (m, shards) = Storage::prepare_put(&data);
    let mut fetched: Vec<Option<Vec<u8>>> = shards.into_iter().map(|s: Shard| Some(s.bytes)).collect();
    fetched[0].as_mut().unwrap()[0] ^= 0xff;
    let err = Storage::finish_get(&m, fetched).unwrap_err();
    match &err {
        StorageError::Integrity { expected, actual } => {
            assert!(*expected == m.object_hash);
            assert!(*actual != m.object_hash);
        }
        other => panic!("unexpected {other:?}"),
    }
    assert!(err.message().starts_with("object integrity failure: manifest says "));
}

#[test]
fn shards_placed_by_manifest_index() {
    let data = varied(3000);
    let (mut m, shards) = Storage::prepare_put(&data);
    // Reverse the entry order: each read still lands at its entry's index.
    let mut fetched: Vec<Option<Vec<u8>>> = shards.into_iter().map(|s| Some(s.bytes)).collect();
    m.shards.reverse();
    fetched.reverse();
    fetched[2] = None;
    assert_eq!(Storage::finish_get(&m, fetched).unwrap(), data);
}

#[test]
fn manifest_path_layout() {
    let s = Storage::new(ChunkStore::with_root("/var/c0mpute".to_string()));
    let h = hash::Hash::of(b"x");
    let hex = h.to_hex();
    assert_eq!(
        s.manifest_path(&h),
        format!("/var/c0mpute/manifests/{}.json", hex)
    );
    let t = Storage::new(ChunkStore::with_root("/var/c0mpute/".to_string()));
    assert_eq!(t.manifest_path(&h), s.manifest_path(&h));
    assert_eq!(t.chunk_store().root(), "/var/c0mpute/");
}

#[test]
fn manifest_for_other_object_is_refused() {
    let (m, _) = Storage::prepare_put(b"one");
    let other = hash::Hash::of(b"two");
    let err = Storage::check_manifest(m.clone(), &other).unwrap_err();
    assert!(matches!(err, StorageError::ManifestMismatch { .. }));
    assert!(err.message().starts_with("manifest object_hash "));
    let ok = Storage::check_manifest(m.clone(), &m.object_hash).unwrap();
    assert_eq!(ok, m);
}

#[test]
fn huge_original_len_with_too_few_shards_is_an_error() {
    let data = varied(500);
    let (mut m, shards) = Storage::prepare_put(&data);
    m.original_len = u64::MAX;
    let fetched: Vec<Option<Vec<u8>>> = shards
        .into_iter()
        .enumerate()
        .map(|(i, s)| if i < 5 { None } else { Some(s.bytes) })
        .collect();
    assert!(Storage::finish_get(&m, fetched).unwrap_err().message().contains("need at least"));
}

#[test]
fn unread_entry_with_out_of_range_index_is_ignored() {
    let data = varied(800);
    let (mut m, shards) = Storage::prepare_put(&data);
    let mut fetched: Vec<Option<Vec<u8>>> = shards.into_iter().map(|s| Some(s.bytes)).collect();
    m.shards[13].index = 200;
    fetched[13] = None;
    assert_eq!(Storage::finish_get(&m, fetched).unwrap(), data);
}
