use edfs::domain::ChunkHash;
use edfs::fetcher::ChunkFetcher;
use edfs::filesystem::FileSystem;
use edfs::network::split_operations;
use edfs::storage::ChunkStorage;
use edfs::tree::{NodeTree, PeerKey};
use sha2::Digest;

fn peer(tag: u8) -> PeerKey {
    PeerKey { bytes: vec![0, 36, tag] }
}

fn hash_of(data: &[u8]) -> ChunkHash {
    ChunkHash::from_bytes(sha2::Sha256::digest(data).into())
}

fn fs(capacity: usize) -> FileSystem {
    FileSystem::new(NodeTree::new(peer(100)), ChunkStorage::new(capacity))
}

#[test]
fn without_peers_a_fetch_fails_at_once() {
    let mut fetcher = ChunkFetcher::new();
    let hash = hash_of(b"x");
    let step = fetcher.fetch_chunk(&hash, Some(7), false, 1000, &[]);
    assert_eq!(step.replies, vec![(7, None)]);
    assert!(step.requests.is_empty());
    assert!(!fetcher.is_blocked(&hash, 1000));
}

#[test]
fn a_failed_pin_fetch_is_left_alone_for_a_while() {
    let mut fetcher = ChunkFetcher::new();
    let hash = hash_of(b"x");
    let step = fetcher.fetch_chunk(&hash, None, true, 1000, &[]);
    assert!(step.replies.is_empty());
    assert!(fetcher.is_blocked(&hash, 1000));
    assert!(fetcher.is_blocked(&hash, 5999));
    assert!(!fetcher.is_blocked(&hash, 6000));
    let step = fetcher.fetch_chunk(&hash, Some(1), false, 2000, &[peer(1)]);
    assert_eq!(step.replies, vec![(1, None)]);
    assert!(step.requests.is_empty());
    let step = fetcher.fetch_chunk(&hash, Some(2), false, 7000, &[peer(1)]);
    assert!(step.replies.is_empty());
    assert_eq!(step.requests.len(), 1);
}

#[test]
fn a_fetch_asks_the_best_three_peers_and_serves_waiters() {
    let mut fetcher = ChunkFetcher::new();
    let mut fs = fs(1000);
    let data = b"the chunk".to_vec();
    let hash = hash_of(&data);
    let connected: Vec<PeerKey> = (1..=5).map(peer).collect();
    let step = fetcher.fetch_chunk(&hash, Some(1), false, 0, &connected);
    assert_eq!(step.requests.len(), 3);
    let expected = edfs::placement::top_peers(&hash, &connected, 3);
    for (i, (p, h)) in step.requests.iter().enumerate() {
        assert_eq!(p.bytes, expected[i].bytes);
        assert!(*h == hash);
        fetcher.record_attempt(&hash, 10 + i as u64, p);
    }
    let again = fetcher.fetch_chunk(&hash, Some(2), false, 0, &connected);
    assert!(again.requests.is_empty() && again.replies.is_empty());
    let done = fetcher.handle_response(&mut fs, 11, &data, 0, &connected);
    assert_eq!(done.replies, vec![(1, Some(data.clone())), (2, Some(data.clone()))]);
    assert!(fs.is_cached(&hash));
    let late = fetcher.handle_response(&mut fs, 10, &data, 0, &connected);
    assert!(late.replies.is_empty());
}

#[test]
fn a_pinned_fetch_pins_the_chunk() {
    let mut fetcher = ChunkFetcher::new();
    let mut fs = fs(1000);
    let data = b"pin me".to_vec();
    let hash = hash_of(&data);
    let step = fetcher.fetch_chunk(&hash, None, true, 0, &[peer(1)]);
    assert_eq!(step.requests.len(), 1);
    fetcher.record_attempt(&hash, 1, &step.requests[0].0);
    let done = fetcher.handle_response(&mut fs, 1, &data, 0, &[peer(1)]);
    assert!(done.replies.is_empty());
    assert!(fs.is_pinned(&hash));
    assert!(!fetcher.is_blocked(&hash, 0));
}

#[test]
fn a_pinned_fetch_without_room_caches_and_backs_off() {
    let mut fetcher = ChunkFetcher::new();
    let mut fs = fs(2);
    let data = b"too big to pin".to_vec();
    let hash = hash_of(&data);
    let step = fetcher.fetch_chunk(&hash, None, true, 100, &[peer(1)]);
    fetcher.record_attempt(&hash, 1, &step.requests[0].0);
    fetcher.handle_response(&mut fs, 1, &data, 100, &[peer(1)]);
    assert!(fs.is_cached(&hash));
    assert!(fetcher.is_blocked(&hash, 100));
}

#[test]
fn wrong_data_counts_as_a_failure_and_the_next_peers_are_asked() {
    let mut fetcher = ChunkFetcher::new();
    let mut fs = fs(1000);
    let data = b"right".to_vec();
    let hash = hash_of(&data);
    let connected: Vec<PeerKey> = (1..=4).map(peer).collect();
    let ranked = edfs::placement::top_peers(&hash, &connected, 4);
    let step = fetcher.fetch_chunk(&hash, Some(9), false, 0, &connected);
    assert_eq!(step.requests.len(), 3);
    for (i, (p, _)) in step.requests.iter().enumerate() {
        fetcher.record_attempt(&hash, i as u64, p);
    }
    assert!(fetcher.handle_response(&mut fs, 0, b"wrong", 0, &connected).requests.is_empty());
    assert!(fetcher.handle_failure(1, 0, &connected).requests.is_empty());
    let next = fetcher.handle_failure(2, 0, &connected);
    assert_eq!(next.requests.len(), 1);
    assert_eq!(next.requests[0].0.bytes, ranked[3].bytes);
    assert!(!fs.is_cached(&hash));
    fetcher.record_attempt(&hash, 3, &next.requests[0].0);
    let last = fetcher.handle_failure(3, 0, &connected);
    assert_eq!(last.replies, vec![(9, None)]);
    assert!(last.requests.is_empty());
    assert!(fetcher.handle_failure(3, 0, &connected).replies.is_empty());
}

#[test]
fn operations_are_broadcast_in_batches() {
    let mut tree = NodeTree::new(peer(1));
    let mut ops = Vec::new();
    for i in 0..130u128 {
        ops.push(tree.create_node(
            edfs::domain::NodeId::root(),
            edfs::domain::NodeId::from_u128(i + 1),
            edfs::domain::NodeMeta::Directory { name: format!("d{}", i) },
        ));
    }
    let batches = split_operations(ops, 64);
    assert_eq!(batches.iter().map(|b| b.len()).collect::<Vec<_>>(), vec![64, 64, 2]);
    assert_eq!(batches[2][1].child_id.as_u128(), 130);
    assert!(split_operations(vec![], 64).is_empty());
}
