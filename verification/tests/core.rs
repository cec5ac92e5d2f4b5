use edfs::chunking::{split, truncate};
use edfs::domain::{Chunk, ChunkHash, ChunkRef, NodeId, NodeMeta};
use edfs::hlc::HybridLogicalClock;
use edfs::storage::{ChunkStorage, StorageError};
use sha2::Digest;

fn sha(data: &[u8]) -> [u8; 32] {
    sha2::Sha256::digest(data).into()
}

fn hex(bytes: &[u8]) -> String {
    bytes.iter().map(|b| format!("{:02x}", b)).collect()
}

#[test]
fn chunk_is_addressed_by_its_sha256() {
    let chunk = Chunk::new(b"hello".to_vec());
    assert_eq!(
        hex(chunk.hash().as_bytes()),
        "2cf24dba5fb0a30e26e83b2ac5b9e29e1b161e5c1fa7425e73043362938b9824"
    );
    assert_eq!(chunk.data(), b"hello");
    let reference = chunk.reference();
    assert_eq!(reference.size, 5);
    assert!(reference.hash == *chunk.hash());
    let (hash, data) = chunk.into_parts();
    assert_eq!(data, b"hello".to_vec());
    assert_eq!(hash.as_bytes(), &sha(b"hello"));
}

#[test]
fn chunk_hash_keeps_its_bytes() {
    let bytes = [7u8; 32];
    let hash = ChunkHash::from_bytes(bytes);
    assert_eq!(hash.as_bytes(), &bytes);
    assert!(hash.same(&ChunkHash::from_bytes([7u8; 32])));
    assert!(!hash.same(&ChunkHash::from_bytes([8u8; 32])));
}

#[test]
fn node_ids_of_root_and_trash_are_reserved() {
    assert_eq!(NodeId::root().as_u128(), 0);
    assert_eq!(NodeId::trash().as_u128(), u128::MAX);
    assert!(NodeId::root().is_reserved());
    assert!(NodeId::trash().is_reserved());
    assert!(!NodeId::from_u128(5).is_reserved());
}

#[test]
fn node_meta_names() {
    let dir = NodeMeta::Directory { name: "docs".to_string() };
    let file = NodeMeta::RegularFile { name: "a.txt".to_string(), size: 3, chunk_refs: vec![] };
    let link = NodeMeta::Symlink { name: "l".to_string(), target: "a.txt".to_string() };
    assert_eq!(dir.name(), "docs");
    assert_eq!(file.name(), "a.txt");
    assert_eq!(link.name(), "l");
}

#[test]
fn clock_ticks_strictly_increase() {
    let mut clock = HybridLogicalClock::new();
    let a = clock.next();
    let b = clock.next();
    let c = clock.next();
    assert!(a < b && b < c);
    assert_eq!(clock.pack(), c);
}

#[test]
fn clock_after_observing_runs_past_the_remote() {
    let mut clock = HybridLogicalClock::new();
    let remote = (((1u64 << 47) + 5) << 16) | 9;
    clock.observe(remote);
    let next = clock.next();
    assert!(next > remote);
}

#[test]
fn clock_logical_counter_at_fixed_time() {
    let mut clock = HybridLogicalClock::new();
    let t = 1_000u64;
    let a = clock.next_at(t);
    let b = clock.next_at(t);
    assert_eq!(a, t << 16);
    assert_eq!(b, (t << 16) | 1);
    let c = clock.next_at(t + 1);
    assert_eq!(c, (t + 1) << 16);
}

#[test]
fn clock_observe_at_takes_the_later_reading() {
    let mut clock = HybridLogicalClock::new();
    clock.observe_at((50u64 << 16) | 4, 10);
    assert_eq!(clock.pack(), (50u64 << 16) | 4);
    let next = clock.next_at(10);
    assert_eq!(next, (50u64 << 16) | 5);
    clock.observe_at((50u64 << 16) | 2, 10);
    assert_eq!(clock.pack(), (50u64 << 16) | 5);
    clock.observe_at(0, 70);
    assert_eq!(clock.pack(), 70u64 << 16);
}

fn r(size: u64, tag: u8) -> ChunkRef {
    ChunkRef { hash: ChunkHash::from_bytes([tag; 32]), size }
}

#[test]
fn truncate_keeps_the_first_bytes() {
    let refs = vec![r(10, 1), r(20, 2), r(30, 3)];
    let cut = truncate(&refs, 25);
    assert_eq!(cut.len(), 2);
    assert_eq!(cut[0].size, 10);
    assert_eq!(cut[1].size, 15);
    assert!(cut[1].hash == refs[1].hash);
    assert_eq!(truncate(&refs, 0).len(), 0);
    let whole = truncate(&refs, 60);
    assert_eq!(whole.iter().map(|c| c.size).collect::<Vec<_>>(), vec![10, 20, 30]);
    let more = truncate(&refs, 100);
    assert_eq!(more.iter().map(|c| c.size).sum::<u64>(), 60);
    let exact = truncate(&refs, 30);
    assert_eq!(exact.iter().map(|c| c.size).collect::<Vec<_>>(), vec![10, 20]);
}

#[test]
fn split_small_data_is_one_chunk() {
    let data = b"small file".to_vec();
    let chunks = split(&data);
    assert_eq!(chunks.len(), 1);
    assert_eq!(chunks[0].data(), &data[..]);
    assert_eq!(chunks[0].hash().as_bytes(), &sha(&data));
    assert_eq!(split(&[]).len(), 0);
}

#[test]
fn split_large_data_reassembles() {
    let mut data = Vec::new();
    let mut x: u32 = 12345;
    for _ in 0..(3 * 1024 * 1024) {
        x = x.wrapping_mul(1103515245).wrapping_add(12345);
        data.push((x >> 16) as u8);
    }
    let chunks = split(&data);
    assert!(chunks.len() >= 3);
    let mut joined = Vec::new();
    for chunk in &chunks {
        assert!(chunk.data().len() <= 1024 * 1024);
        assert_eq!(chunk.hash().as_bytes(), &sha(chunk.data()));
        joined.extend_from_slice(chunk.data());
    }
    assert_eq!(joined, data);
}

#[test]
fn storage_pins_within_capacity() {
    let mut storage = ChunkStorage::new(10);
    assert_eq!(storage.capacity_bytes(), 10);
    assert_eq!(storage.free_bytes(), 10);
    let chunk = Chunk::new(b"abcdef".to_vec());
    let hash = *chunk.hash();
    assert!(storage.try_pin(vec![chunk]).is_ok());
    assert_eq!(storage.free_bytes(), 4);
    assert!(storage.contains(&hash));
    assert!(storage.is_pinned(&hash));
    assert!(!storage.is_cached(&hash));
    let too_big = Chunk::new(b"12345".to_vec());
    let too_big_hash = *too_big.hash();
    match storage.try_pin(vec![too_big]) {
        Err(StorageError::StorageFull) => {}
        Ok(()) => panic!("pinned past capacity"),
    }
    assert!(!storage.contains(&too_big_hash));
    assert_eq!(storage.free_bytes(), 4);
    assert_eq!(storage.get(&hash), Some(b"abcdef".to_vec()));
    assert_eq!(storage.pinned_hashes().len(), 1);
}

#[test]
fn storage_pinning_is_all_or_nothing() {
    let mut storage = ChunkStorage::new(8);
    let a = Chunk::new(b"aaaa".to_vec());
    let b = Chunk::new(b"bbbbbb".to_vec());
    let (ha, hb) = (*a.hash(), *b.hash());
    assert!(storage.try_pin(vec![a, b]).is_err());
    assert!(!storage.contains(&ha));
    assert!(!storage.contains(&hb));
    assert_eq!(storage.free_bytes(), 8);
}

#[test]
fn storage_repinning_costs_nothing() {
    let mut storage = ChunkStorage::new(6);
    let a = Chunk::new(b"abcdef".to_vec());
    assert!(storage.try_pin(vec![a]).is_ok());
    let again = Chunk::new(b"abcdef".to_vec());
    assert!(storage.try_pin(vec![again]).is_ok());
    assert_eq!(storage.free_bytes(), 0);
}

#[test]
fn storage_cache_promote_and_evict() {
    let mut storage = ChunkStorage::new(100);
    let chunk = Chunk::new(b"cached".to_vec());
    let hash = *chunk.hash();
    let (h, data) = chunk.into_parts();
    storage.cache(h, data);
    assert!(storage.is_cached(&hash));
    assert!(!storage.is_pinned(&hash));
    assert_eq!(storage.free_bytes(), 100);
    assert!(storage.promote_to_pinned(&hash));
    assert!(storage.is_pinned(&hash));
    assert_eq!(storage.free_bytes(), 94);
    assert!(storage.evict(&hash));
    assert!(!storage.contains(&hash));
    assert!(!storage.evict(&hash));
    assert_eq!(storage.free_bytes(), 100);
    assert!(!storage.promote_to_pinned(&hash));
}

#[test]
fn storage_cache_drops_least_recently_used() {
    let mut storage = ChunkStorage::new(0);
    let size = 6 * 1024 * 1024;
    let make = |tag: u8| -> (ChunkHash, Vec<u8>) {
        let data = vec![tag; size];
        let chunk = Chunk::new(data);
        chunk.into_parts()
    };
    let (h1, d1) = make(1);
    let (h2, d2) = make(2);
    let (h3, d3) = make(3);
    storage.cache(h1, d1);
    storage.cache(h2, d2);
    assert!(storage.get(&h1).is_some());
    storage.cache(h3, d3);
    assert!(storage.contains(&h1));
    assert!(!storage.contains(&h2));
    assert!(storage.contains(&h3));
}

#[test]
fn storage_promote_needs_room() {
    let mut storage = ChunkStorage::new(3);
    let (h, d) = Chunk::new(b"toolong".to_vec()).into_parts();
    storage.cache(h, d);
    assert!(!storage.promote_to_pinned(&h));
    assert!(storage.is_cached(&h));
}
