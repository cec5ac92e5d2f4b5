use edfs::domain::{ChunkHash, NodeId};
use edfs::filesystem::FileSystem;
use edfs::network::{
    answer_check_chunks, answer_pull_chunk, answer_pull_missing, current_members, evict_confirmed, eviction_candidates,
    is_designated, is_eviction_complete, plan_probes, rebalance_hash, record_held, split_batches, GossipHandler,
    HolderConfirmations, MdnsHandler, ProtocolError, RebalanceOutcome, RebalanceRound, Request, Response, RoundStep,
    SyncHandler, secret_prologue,
};
use edfs::placement::{bytes_le, designated_holders, hrw_score, next_targets, score_from_digest, top_peers};
use edfs::storage::ChunkStorage;
use edfs::tree::{NodeTree, PeerKey};
use sha2::Digest;

fn peer(tag: u8) -> PeerKey {
    PeerKey { bytes: vec![0, 36, tag] }
}

fn keys(peers: &[PeerKey]) -> Vec<Vec<u8>> {
    peers.iter().map(|p| p.bytes.clone()).collect()
}

fn hash_of(data: &[u8]) -> ChunkHash {
    ChunkHash::from_bytes(sha2::Sha256::digest(data).into())
}

fn expected_score(hash: &ChunkHash, peer: &PeerKey) -> u64 {
    let mut hasher = sha2::Sha256::new();
    hasher.update(hash.as_bytes());
    hasher.update(&peer.bytes);
    let digest: [u8; 32] = hasher.finalize().into();
    u64::from_be_bytes(digest[..8].try_into().unwrap())
}

fn expected_top(hash: &ChunkHash, members: &[PeerKey], n: usize) -> Vec<Vec<u8>> {
    let mut scored: Vec<(u64, Vec<u8>)> = members.iter().map(|p| (expected_score(hash, p), p.bytes.clone())).collect();
    scored.sort_by(|a, b| b.0.cmp(&a.0).then_with(|| b.1.cmp(&a.1)));
    scored.truncate(n);
    scored.into_iter().map(|(_, p)| p).collect()
}

#[test]
fn byte_strings_order_lexicographically() {
    assert!(bytes_le(b"abc", b"abd"));
    assert!(!bytes_le(b"abd", b"abc"));
    assert!(bytes_le(b"ab", b"abc"));
    assert!(!bytes_le(b"abc", b"ab"));
    assert!(bytes_le(b"", b""));
    assert!(bytes_le(b"same", b"same"));
}

#[test]
fn score_is_the_digest_prefix_big_endian() {
    let mut digest = [0u8; 32];
    digest[..8].copy_from_slice(&[1, 2, 3, 4, 5, 6, 7, 8]);
    digest[8] = 0xff;
    assert_eq!(score_from_digest(&digest), 0x0102030405060708);
}

#[test]
fn hrw_score_hashes_chunk_and_peer() {
    let hash = hash_of(b"chunk");
    let p = peer(1);
    assert_eq!(hrw_score(&hash, &p), expected_score(&hash, &p));
    assert_ne!(hrw_score(&hash, &p), hrw_score(&hash, &peer(2)));
}

#[test]
fn top_peers_rank_by_score() {
    let members: Vec<PeerKey> = (0..6).map(peer).collect();
    for data in [&b"a"[..], b"b", b"c", b"d"] {
        let hash = hash_of(data);
        assert_eq!(keys(&top_peers(&hash, &members, 2)), expected_top(&hash, &members, 2));
        assert_eq!(keys(&top_peers(&hash, &members, 6)), expected_top(&hash, &members, 6));
        assert_eq!(keys(&top_peers(&hash, &members, 10)).len(), 6);
        assert!(top_peers(&hash, &members, 0).is_empty());
    }
}

#[test]
fn top_peers_ignore_member_order() {
    let members: Vec<PeerKey> = (0..5).map(peer).collect();
    let mut reversed = members.clone();
    reversed.reverse();
    let hash = hash_of(b"order");
    assert_eq!(keys(&top_peers(&hash, &members, 3)), keys(&top_peers(&hash, &reversed, 3)));
}

#[test]
fn fewer_peers_are_a_prefix_of_more() {
    let members: Vec<PeerKey> = (0..5).map(peer).collect();
    let hash = hash_of(b"prefix");
    let two = keys(&top_peers(&hash, &members, 2));
    let three = keys(&top_peers(&hash, &members, 3));
    assert_eq!(two[..], three[..2]);
}

#[test]
fn designated_holders_are_the_two_best() {
    let members: Vec<PeerKey> = (0..4).map(peer).collect();
    let hash = hash_of(b"holders");
    let holders = designated_holders(&hash, &members);
    assert_eq!(keys(&holders), expected_top(&hash, &members, 2));
    assert!(is_designated(&hash, &members, &holders[0]));
    assert!(is_designated(&hash, &members, &holders[1]));
    let others: Vec<&PeerKey> = members.iter().filter(|m| !holders.iter().any(|h| h.bytes == m.bytes)).collect();
    assert_eq!(others.len(), 2);
    assert!(!is_designated(&hash, &members, others[0]));
    let one = vec![peer(9)];
    assert_eq!(keys(&designated_holders(&hash, &one)), vec![peer(9).bytes]);
}

#[test]
fn next_targets_skip_tried_peers() {
    let connected: Vec<PeerKey> = (0..5).map(peer).collect();
    let hash = hash_of(b"fetch");
    let ranked = expected_top(&hash, &connected, 5);
    let tried = vec![PeerKey { bytes: ranked[0].clone() }, PeerKey { bytes: ranked[2].clone() }];
    let targets = next_targets(&hash, &connected, &tried, 3);
    assert_eq!(keys(&targets), vec![ranked[1].clone(), ranked[3].clone(), ranked[4].clone()]);
    assert_eq!(keys(&next_targets(&hash, &connected, &[], 1)), vec![ranked[0].clone()]);
    assert!(next_targets(&hash, &connected, &connected, 3).is_empty());
}

#[test]
fn members_are_the_connected_peers_and_self() {
    let members = current_members(&[peer(1), peer(2)], &peer(3));
    assert_eq!(keys(&members), vec![peer(1).bytes, peer(2).bytes, peer(3).bytes]);
}

fn fs(capacity: usize) -> FileSystem {
    FileSystem::new(NodeTree::new(peer(1)), ChunkStorage::new(capacity))
}

#[test]
fn pull_answers_with_the_chunk_or_not_found() {
    let mut fs = fs(100);
    fs.pin_chunk(b"bytes".to_vec()).ok().unwrap();
    match answer_pull_chunk(&mut fs, &hash_of(b"bytes")) {
        Response::ChunkData(d) => assert_eq!(d, b"bytes".to_vec()),
        _ => panic!("chunk not served"),
    }
    match answer_pull_chunk(&mut fs, &hash_of(b"other")) {
        Response::Error(ProtocolError::ChunkNotFound) => {}
        _ => panic!("missing chunk served"),
    }
}

#[test]
fn check_chunks_lists_only_pinned_ones() {
    let mut fs = fs(100);
    fs.pin_chunk(b"p".to_vec()).ok().unwrap();
    fs.cache_chunk(b"c".to_vec());
    let asked = vec![hash_of(b"c"), hash_of(b"p"), hash_of(b"x")];
    match answer_check_chunks(&fs, &asked) {
        Response::HeldChunks { hashes } => {
            assert_eq!(hashes.len(), 1);
            assert!(hashes[0] == hash_of(b"p"));
        }
        _ => panic!("wrong answer"),
    }
}

#[test]
fn missing_operations_answer() {
    let mut fs = fs(100);
    fs.create_file(NodeId::root(), "a").ok().unwrap();
    match answer_pull_missing(&fs, &vec![]) {
        Response::MissingOperations { operations } => assert_eq!(operations.len(), 1),
        _ => panic!("wrong answer"),
    }
    match answer_pull_missing(&fs, &fs.operation_ids()) {
        Response::MissingOperations { operations } => assert!(operations.is_empty()),
        _ => panic!("wrong answer"),
    }
}

#[test]
fn rebalance_decisions() {
    let local = peer(1);
    let other = peer(2);
    let members = vec![other.clone(), local.clone()];
    let mut fs = fs(100);
    let cached = b"cached chunk".to_vec();
    fs.cache_chunk(cached.clone());
    let hash = hash_of(&cached);
    assert!(is_designated(&hash, &members, &local));
    assert_eq!(rebalance_hash(&mut fs, &hash, &members, &local, true), RebalanceOutcome::Skipped);
    assert_eq!(rebalance_hash(&mut fs, &hash, &members, &local, false), RebalanceOutcome::Promoted);
    assert!(fs.is_pinned(&hash));
    assert_eq!(rebalance_hash(&mut fs, &hash, &members, &local, false), RebalanceOutcome::Skipped);
    assert_eq!(rebalance_hash(&mut fs, &hash_of(b"absent"), &members, &local, false), RebalanceOutcome::Fetch);
    let mut small = FileSystem::new(NodeTree::new(peer(1)), ChunkStorage::new(2));
    small.cache_chunk(cached.clone());
    assert_eq!(rebalance_hash(&mut small, &hash, &members, &local, false), RebalanceOutcome::Blocked);
    let three = vec![peer(5), peer(6), peer(7), local.clone()];
    let mut not_mine = None;
    for i in 0..50u8 {
        let h = hash_of(&[i]);
        if !is_designated(&h, &three, &local) {
            not_mine = Some(h);
            break;
        }
    }
    let h = not_mine.unwrap();
    assert_eq!(rebalance_hash(&mut fs, &h, &three, &local, false), RebalanceOutcome::Skipped);
}

#[test]
fn confirmations_track_holders() {
    let mut conf = HolderConfirmations::new();
    let h1 = hash_of(b"1");
    let h2 = hash_of(b"2");
    assert!(!conf.is_confirmed(&h1, &peer(1)));
    conf.confirm(&h1, &peer(1));
    conf.confirm(&h1, &peer(2));
    conf.confirm(&h2, &peer(1));
    assert!(conf.is_confirmed(&h1, &peer(1)));
    assert!(conf.is_confirmed(&h1, &peer(2)));
    assert!(!conf.is_confirmed(&h2, &peer(2)));
    assert_eq!(conf.tracked_hashes().len(), 2);
    conf.retain_only(&[h2]);
    assert!(!conf.is_confirmed(&h1, &peer(1)));
    assert!(conf.is_confirmed(&h2, &peer(1)));
    conf.remove(&h2);
    assert!(conf.tracked_hashes().is_empty());
    record_held(&mut conf, &peer(4), &[h1, h2]);
    assert!(conf.is_confirmed(&h1, &peer(4)) && conf.is_confirmed(&h2, &peer(4)));
    conf.clear();
    assert!(conf.tracked_hashes().is_empty());
}

fn chunk_not_held_by(local: &PeerKey, members: &[PeerKey]) -> Vec<u8> {
    for i in 0..100u8 {
        let data = vec![i, i, i];
        if !is_designated(&hash_of(&data), members, local) {
            return data;
        }
    }
    panic!("no such chunk");
}

#[test]
fn eviction_waits_for_every_holder() {
    let local = peer(1);
    let members = vec![peer(2), peer(3), peer(4), local.clone()];
    let mut fs = fs(1000);
    let (file, _) = fs.create_file(NodeId::root(), "f").ok().unwrap().into_parts();
    let data = chunk_not_held_by(&local, &members);
    fs.write_file(file.node_id, &data).ok().unwrap();
    let hash = hash_of(&data);
    let live = fs.reachable_chunk_hashes();
    let candidates = eviction_candidates(&fs, &live, &members, &local);
    assert_eq!(candidates.len(), 1);
    assert!(candidates[0] == hash);
    let mut conf = HolderConfirmations::new();
    let plan = plan_probes(&fs, &mut conf, &live, &members, &local);
    assert_eq!(plan.len(), 2);
    for (_, batches) in &plan {
        assert_eq!(batches.len(), 1);
        assert_eq!(batches[0].len(), 1);
    }
    let holders = designated_holders(&hash, &members);
    record_held(&mut conf, &holders[0], &[hash]);
    assert!(!is_eviction_complete(&conf, &hash, &live, &members));
    evict_confirmed(&mut fs, &mut conf, &members, &live);
    assert!(fs.is_pinned(&hash));
    let plan = plan_probes(&fs, &mut conf, &live, &members, &local);
    assert_eq!(plan.len(), 1);
    assert_eq!(plan[0].0.bytes, holders[1].bytes);
    record_held(&mut conf, &holders[1], &[hash]);
    assert!(is_eviction_complete(&conf, &hash, &live, &members));
    evict_confirmed(&mut fs, &mut conf, &members, &live);
    assert!(!fs.is_pinned(&hash));
    assert!(conf.tracked_hashes().is_empty());
}

#[test]
fn probes_clear_confirmations_when_nothing_is_left() {
    let local = peer(1);
    let members = vec![peer(2), local.clone()];
    let fs = fs(100);
    let mut conf = HolderConfirmations::new();
    conf.confirm(&hash_of(b"old"), &peer(2));
    let plan = plan_probes(&fs, &mut conf, &[], &members, &local);
    assert!(plan.is_empty());
    assert!(conf.tracked_hashes().is_empty());
}

#[test]
fn batches_split_in_order() {
    let hashes: Vec<ChunkHash> = (0..7u8).map(|i| hash_of(&[i])).collect();
    let batches = split_batches(&hashes, 3);
    assert_eq!(batches.iter().map(|b| b.len()).collect::<Vec<_>>(), vec![3, 3, 1]);
    let joined: Vec<ChunkHash> = batches.into_iter().flatten().collect();
    assert!(joined.iter().zip(hashes.iter()).all(|(a, b)| a == b));
    assert!(split_batches(&[], 3).is_empty());
    assert_eq!(split_batches(&hashes[..6], 3).len(), 2);
}

#[test]
fn discovery_dials_only_new_peers() {
    let handler = MdnsHandler::new();
    let discovered = vec![peer(1), peer(2), peer(3), peer(4)];
    let dial = handler.peers_to_dial(&discovered, &peer(1), &[peer(3)]);
    assert_eq!(dial, vec![1, 3]);
}

#[test]
fn sync_is_due_every_interval() {
    let mut sync = SyncHandler::new(1000);
    assert!(!sync.tick(5000));
    assert!(sync.tick(16000));
    assert!(!sync.tick(20000));
    assert!(sync.tick(31000));
    assert!(!sync.tick(10));
    assert!(sync.syncs_on_connection(1));
    assert!(!sync.syncs_on_connection(2));
    assert_eq!(sync.pick_peer(3, 7), 1);
    let fs = fs(10);
    match sync.sync_request(&fs) {
        Request::PullMissingOperations { known_ids } => assert!(known_ids.is_empty()),
        _ => panic!("wrong request"),
    }
}

#[test]
fn gossip_spreads_and_merges_operations() {
    let mut a = fs(100);
    let mut b = FileSystem::new(NodeTree::new(peer(2)), ChunkStorage::new(100));
    let (entry, ops) = a.create_file(NodeId::root(), "g").ok().unwrap().into_parts();
    let gossip = GossipHandler::new();
    let message = gossip.gossip_of(&ops);
    assert_eq!(message.operations.len(), 1);
    gossip.apply_gossip(&mut b, message);
    assert_eq!(b.child_id(NodeId::root(), "g").ok().unwrap().as_u128(), entry.node_id.as_u128());
    let sync = SyncHandler::new(0);
    sync.apply_operations(&mut b, vec![]);
    assert_eq!(b.operation_ids().len(), 1);
}

#[test]
fn holders_stay_when_another_member_leaves() {
    let members: Vec<PeerKey> = (0..6).map(peer).collect();
    let hash = hash_of(b"stable");
    let before = keys(&designated_holders(&hash, &members));
    let leaving = members.iter().position(|m| !before.contains(&m.bytes)).unwrap();
    let mut remaining = members.clone();
    remaining.remove(leaving);
    assert_eq!(keys(&designated_holders(&hash, &remaining)), before);
}

#[test]
fn secret_prologue_is_the_sha256_of_the_secret() {
    assert_eq!(
        hex(&secret_prologue(b"abc")),
        "ba7816bf8f01cfea414140de5dae2223b00361a396177a9cb410ff61f20015ad"
    );
    assert_eq!(secret_prologue(b"shared").len(), 32);
}

fn hex(bytes: &[u8]) -> String {
    bytes.iter().map(|b| format!("{:02x}", b)).collect()
}

#[test]
fn a_lone_member_rebalances_nothing() {
    let local = peer(1);
    let mut fs = fs(100);
    fs.cache_chunk(b"cached chunk".to_vec());
    let hash = hash_of(b"cached chunk");
    let mut round = RebalanceRound::new(vec![local.clone()], local.clone(), vec![hash, hash_of(b"absent")], vec![false, false]);
    assert!(matches!(round.step(&mut fs), RoundStep::Done));
    assert!(fs.is_cached(&hash));
    assert!(!fs.is_pinned(&hash));
}

#[test]
fn a_round_handles_live_chunks_in_order() {
    let local = peer(1);
    let members = vec![peer(2), local.clone()];
    let mut fs = fs(100);
    fs.cache_chunk(b"cached chunk".to_vec());
    let cached = hash_of(b"cached chunk");
    let absent = hash_of(b"absent");
    let blocked = hash_of(b"blocked");
    let mut round = RebalanceRound::new(members, local, vec![cached, blocked, absent], vec![false, true, false]);
    match round.step(&mut fs) {
        RoundStep::Handled { hash, outcome } => {
            assert!(hash == cached);
            assert_eq!(outcome, RebalanceOutcome::Promoted);
        }
        RoundStep::Done => panic!("round ended early"),
    }
    assert!(fs.is_pinned(&cached));
    match round.step(&mut fs) {
        RoundStep::Handled { outcome, .. } => assert_eq!(outcome, RebalanceOutcome::Skipped),
        RoundStep::Done => panic!("round ended early"),
    }
    match round.step(&mut fs) {
        RoundStep::Handled { hash, outcome } => {
            assert!(hash == absent);
            assert_eq!(outcome, RebalanceOutcome::Fetch);
        }
        RoundStep::Done => panic!("round ended early"),
    }
    round.fetch_sent();
    assert!(matches!(round.step(&mut fs), RoundStep::Done));
}

#[test]
fn a_round_stops_after_its_fetch_budget() {
    let local = peer(1);
    let members = vec![peer(2), local.clone()];
    let mut fs = fs(100);
    let mut live = Vec::new();
    for i in 0..200u16 {
        let h = hash_of(&i.to_be_bytes());
        if is_designated(&h, &members, &local) {
            live.push(h);
        }
    }
    assert!(live.len() > 64);
    let count = live.len();
    let mut round = RebalanceRound::new(members, local, live, vec![false; count]);
    let mut fetches = 0;
    loop {
        match round.step(&mut fs) {
            RoundStep::Done => break,
            RoundStep::Handled { outcome, .. } => {
                assert_eq!(outcome, RebalanceOutcome::Fetch);
                fetches += 1;
                round.fetch_sent();
            }
        }
    }
    assert_eq!(fetches, 64);
}

#[test]
fn each_holder_is_asked_about_each_chunk_once() {
    let local = peer(1);
    let members = vec![peer(2), peer(3), local.clone()];
    let mut fs = fs(100_000);
    let mut reachable = Vec::new();
    for i in 0..40u8 {
        let data = vec![i; 3];
        fs.pin_chunk(data.clone()).ok().unwrap();
        reachable.push(hash_of(&data));
    }
    let mut conf = HolderConfirmations::new();
    let plan = plan_probes(&fs, &mut conf, &reachable, &members, &local);
    assert!(!plan.is_empty());
    for (_, batches) in plan {
        let mut seen: Vec<ChunkHash> = Vec::new();
        for batch in batches {
            for h in batch {
                assert!(!seen.iter().any(|s| *s == h));
                seen.push(h);
            }
        }
    }
}

#[test]
fn a_joining_member_is_inserted_at_its_rank() {
    let members: Vec<PeerKey> = (1..6u8).map(peer).collect();
    for i in 0..30u8 {
        let hash = hash_of(&[i]);
        let newcomer = peer(100 + i);
        let mut joined = members.clone();
        joined.push(newcomer.clone());
        let before: Vec<Vec<u8>> = top_peers(&hash, &members, 3).into_iter().map(|p| p.bytes).collect();
        let after: Vec<Vec<u8>> = top_peers(&hash, &joined, 3).into_iter().map(|p| p.bytes).collect();
        assert_eq!(after, expected_top(&hash, &joined, 3));
        if let Some(k) = after.iter().position(|p| *p == newcomer.bytes) {
            let mut expected = before.clone();
            expected.insert(k, newcomer.bytes.clone());
            expected.truncate(3);
            assert_eq!(after, expected);
        } else {
            assert_eq!(after, before);
        }
    }
}
