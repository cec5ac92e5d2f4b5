use vstd::prelude::*;

use crate::digest::{sha256, sha256_digest};
use crate::domain::ChunkHash;
use crate::filesystem::FileSystem;
use crate::placement::{designated_holders, peer_views, ranked_peers, scored_members};
use crate::storage::{hash_views, ChunkStorage};
use crate::tree::{op_views, NodeOperation, PeerKey};

verus! {

/// The most chunk addresses one probe asks about.
pub const MAX_HASHES_PER_PROBE: usize = 256;

/// The most chunks one rebalancing round asks to fetch.
pub const MAX_FETCHES_PER_REBALANCE: usize = 64;

/// The most peers asked at once for a chunk.
pub const MAX_FETCH_TARGETS: usize = 3;

/// The prologue that peers mix into their handshake: the SHA-256 digest
/// of the shared secret, so that only nodes sharing the secret connect.
pub fn secret_prologue(secret: &[u8]) -> (r: Vec<u8>)
    ensures
        r@ == sha256(secret@),
{
    let digest = sha256_digest(secret);
    let mut r: Vec<u8> = Vec::new();
    let mut i: usize = 0;
    while i < 32
        invariant
            0 <= i <= 32,
            digest@.len() == 32,
            r@ == digest@.take(i as int),
        decreases 32 - i,
    {
        r.push(digest[i]);
        proof {
            assert(digest@.take(i + 1) =~= digest@.take(i as int).push(digest@[i as int]));
        }
        i = i + 1;
    }
    proof {
        assert(digest@.take(32) =~= digest@);
    }
    r
}

/// Why a peer could not answer a request.
#[derive(Debug)]
pub enum ProtocolError {
    ChunkNotFound,
}

/// A request from one peer to another.
pub enum Request {
    /// The bytes of one chunk.
    PullChunk { hash: ChunkHash },
    /// Which of these chunks the peer holds pinned.
    CheckChunks { hashes: Vec<ChunkHash> },
    /// The logged operations whose ids are not among these.
    PullMissingOperations { known_ids: Vec<(PeerKey, u64)> },
}

/// The answer to a request.
pub enum Response {
    ChunkData(Vec<u8>),
    HeldChunks { hashes: Vec<ChunkHash> },
    MissingOperations { operations: Vec<NodeOperation> },
    Error(ProtocolError),
}

/// Operations broadcast to all peers.
pub struct Gossip {
    pub operations: Vec<NodeOperation>,
}

/// The answer to a pull of a chunk: its bytes, or `ChunkNotFound`.
pub fn answer_pull_chunk(fs: &mut FileSystem, hash: &ChunkHash) -> (r: Response)
    requires
        old(fs).wf(),
    ensures
        final(fs).wf(),
        final(fs).tree() == old(fs).tree(),
        final(fs).storage().contents() == old(fs).storage().contents(),
        final(fs).storage().capacity() == old(fs).storage().capacity(),
        final(fs).storage().pinned_bytes() == old(fs).storage().pinned_bytes(),
        final(fs).storage().cached_bytes() == old(fs).storage().cached_bytes(),
        final(fs).storage().lru() == if old(fs).storage().contents().contains_key(hash@) && !old(fs).storage().contents()[hash@].1 {
            crate::storage::without(old(fs).storage().lru(), hash@).push(hash@)
        } else {
            old(fs).storage().lru()
        },
        match r {
            Response::ChunkData(data) => old(fs).storage().contents().contains_key(hash@) && data@ == old(fs).storage().contents()[hash@].0,
            Response::Error(ProtocolError::ChunkNotFound) => !old(fs).storage().contents().contains_key(hash@),
            _ => false,
        },
{
    match fs.chunk(hash) {
        Some(data) => Response::ChunkData(data),
        None => Response::Error(ProtocolError::ChunkNotFound),
    }
}

/// The addresses of the sequence whose chunks are stored pinned, in order.
pub open spec fn pinned_only(contents: Map<Seq<u8>, (Seq<u8>, bool)>, hs: Seq<Seq<u8>>) -> Seq<Seq<u8>>
    decreases hs.len(),
{
    if hs.len() == 0 {
        Seq::empty()
    } else {
        let rest = pinned_only(contents, hs.drop_last());
        if contents.contains_key(hs.last()) && contents[hs.last()].1 {
            rest.push(hs.last())
        } else {
            rest
        }
    }
}

/// The addresses among `hashes` that this node holds pinned, in order.
pub fn held_chunks(fs: &FileSystem, hashes: &[ChunkHash]) -> (r: Vec<ChunkHash>)
    requires
        fs.wf(),
    ensures
        hash_views(r@) == pinned_only(fs.storage().contents(), hash_views(hashes@)),
{
    let mut r: Vec<ChunkHash> = Vec::new();
    let mut i: usize = 0;
    while i < hashes.len()
        invariant
            fs.wf(),
            0 <= i <= hashes@.len(),
            hash_views(r@) == pinned_only(fs.storage().contents(), hash_views(hashes@).take(i as int)),
        decreases hashes@.len() - i,
    {
        let ghost r0 = hash_views(r@);
        if fs.is_pinned(&hashes[i]) {
            r.push(hashes[i]);
            proof {
                assert(hash_views(r@) =~= r0.push(hashes@[i as int]@));
            }
        }
        proof {
            let hv = hash_views(hashes@);
            assert(hv.take(i + 1).drop_last() =~= hv.take(i as int));
            assert(hv.take(i + 1).last() == hashes@[i as int]@);
        }
        i = i + 1;
    }
    proof {
        assert(hash_views(hashes@).take(i as int) =~= hash_views(hashes@));
    }
    r
}

/// The answer to a probe: the addresses of the asked chunks that are
/// stored pinned here.
pub fn answer_check_chunks(fs: &FileSystem, hashes: &[ChunkHash]) -> (r: Response)
    requires
        fs.wf(),
    ensures
        r matches Response::HeldChunks { hashes: held } && hash_views(held@) == pinned_only(fs.storage().contents(), hash_views(hashes@)),
{
    Response::HeldChunks { hashes: held_chunks(fs, hashes) }
}

/// The answer to a pull of missing operations: the logged operations, in
/// log order, whose ids the asking peer does not list.
pub fn answer_pull_missing(fs: &FileSystem, known_ids: &Vec<(PeerKey, u64)>) -> (r: Response)
    ensures
        r matches Response::MissingOperations { operations } && op_views(operations@) == fs.tree().log().filter(
            crate::tree::not_listed(known_ids@.map_values(|id: (PeerKey, u64)| crate::tree::id_view(id))),
        ),
{
    Response::MissingOperations { operations: fs.operations_missing_from(known_ids) }
}

/// The members of the cluster as this node sees them: the connected
/// peers, then this node.
pub fn current_members(connected: &[PeerKey], local: &PeerKey) -> (r: Vec<PeerKey>)
    ensures
        peer_views(r@) == peer_views(connected@).push(local@),
{
    let mut r: Vec<PeerKey> = Vec::new();
    let mut i: usize = 0;
    while i < connected.len()
        invariant
            0 <= i <= connected@.len(),
            peer_views(r@) == peer_views(connected@).take(i as int),
        decreases connected@.len() - i,
    {
        let ghost r0 = peer_views(r@);
        let p = connected[i].duplicate();
        r.push(p);
        proof {
            assert(peer_views(r@) =~= r0.push(p@));
            assert(peer_views(connected@)[i as int] == p@);
            assert(peer_views(connected@).take(i + 1) =~= peer_views(connected@).take(i as int).push(p@));
        }
        i = i + 1;
    }
    let ghost r0 = peer_views(r@);
    let me = local.duplicate();
    r.push(me);
    proof {
        assert(peer_views(connected@).take(connected@.len() as int) =~= peer_views(connected@));
        assert(peer_views(r@) =~= r0.push(me@));
    }
    r
}

/// The peer is one of the two members that should hold the chunk.
pub open spec fn designates(hash: Seq<u8>, members: Seq<Seq<u8>>, peer: Seq<u8>) -> bool {
    ranked_peers(scored_members(hash, members), 2).contains(peer)
}

/// Whether the peer is one of the two members that should hold the chunk.
pub fn is_designated(hash: &ChunkHash, members: &[PeerKey], peer: &PeerKey) -> (r: bool)
    ensures
        r == designates(hash@, peer_views(members@), peer@),
{
    let holders = designated_holders(hash, members);
    let mut i: usize = 0;
    while i < holders.len()
        invariant
            0 <= i <= holders@.len(),
            peer_views(holders@) == ranked_peers(scored_members(hash@, peer_views(members@)), 2),
            forall|k: int| 0 <= k < i ==> holders@[k]@ != peer@,
        decreases holders@.len() - i,
    {
        if holders[i].same(peer) {
            proof {
                assert(peer_views(holders@)[i as int] == peer@);
                assert(peer_views(holders@).contains(peer@));
            }
            return true;
        }
        i = i + 1;
    }
    proof {
        if peer_views(holders@).contains(peer@) {
            let k = choose|k: int| 0 <= k < peer_views(holders@).len() && peer_views(holders@)[k] == peer@;
            assert(holders@[k]@ == peer@);
        }
    }
    false
}

/// What rebalancing did about one live chunk.
#[derive(Debug, PartialEq, Eq, Structural)]
pub enum RebalanceOutcome {
    /// Nothing to do: this node is not a designated holder, the chunk is
    /// pinned already, or fetching it is blocked for now.
    Skipped,
    /// The cached copy was pinned.
    Promoted,
    /// The cached copy could not be pinned for want of room: block the
    /// chunk for a while.
    Blocked,
    /// The chunk has to be fetched and pinned.
    Fetch,
}

/// What rebalancing does about one live chunk: nothing when this node is
/// not a designated holder, the chunk is pinned already or fetching it is
/// blocked; pin the cached copy when it fits; block it when it does not;
/// else fetch it.
pub open spec fn rebalance_outcome(s: ChunkStorage, h: Seq<u8>, members: Seq<Seq<u8>>, local: Seq<u8>, blocked: bool) -> RebalanceOutcome {
    let contents = s.contents();
    let pinned = contents.contains_key(h) && contents[h].1;
    let cached = contents.contains_key(h) && !contents[h].1;
    let fits = s.pinned_bytes() + contents[h].0.len() <= s.capacity();
    if !designates(h, members, local) || pinned || blocked {
        RebalanceOutcome::Skipped
    } else if cached && fits {
        RebalanceOutcome::Promoted
    } else if cached {
        RebalanceOutcome::Blocked
    } else {
        RebalanceOutcome::Fetch
    }
}

/// The stored chunks after rebalancing one live chunk: only a promotion
/// changes them, pinning the cached copy.
pub open spec fn rebalance_contents(s: ChunkStorage, h: Seq<u8>, members: Seq<Seq<u8>>, local: Seq<u8>, blocked: bool) -> Map<Seq<u8>, (Seq<u8>, bool)> {
    if rebalance_outcome(s, h, members, local, blocked) is Promoted {
        s.contents().insert(h, (s.contents()[h].0, true))
    } else {
        s.contents()
    }
}

/// Only designated holders act in rebalancing: a node that is not one of
/// a chunk's designated holders, or whose fetching of it is blocked, or
/// that holds it pinned already, leaves the chunk alone; pinning a cached
/// copy or fetching happens only for a chunk the node should hold and does
/// not hold pinned, and a fetch only for a chunk it does not store at all.
pub proof fn law_only_designated_holders_pin(s: ChunkStorage, h: Seq<u8>, members: Seq<Seq<u8>>, local: Seq<u8>, blocked: bool)
    ensures
        !designates(h, members, local) ==> rebalance_outcome(s, h, members, local, blocked) is Skipped
            && rebalance_contents(s, h, members, local, blocked) == s.contents(),
        blocked ==> rebalance_outcome(s, h, members, local, blocked) is Skipped,
        !(rebalance_outcome(s, h, members, local, blocked) is Skipped) ==> designates(h, members, local) && !blocked
            && !(s.contents().contains_key(h) && s.contents()[h].1),
        rebalance_outcome(s, h, members, local, blocked) is Fetch ==> !s.contents().contains_key(h),
        rebalance_outcome(s, h, members, local, blocked) is Promoted ==> s.contents().contains_key(h) && !s.contents()[h].1,
        rebalance_contents(s, h, members, local, blocked) != s.contents() ==> rebalance_outcome(s, h, members, local, blocked) is Promoted,
{
}

/// Rebalancing for one live chunk: a designated holder pins the chunk,
/// from its cache if it has it there, else by fetching it.
pub fn rebalance_hash(fs: &mut FileSystem, hash: &ChunkHash, members: &[PeerKey], local: &PeerKey, blocked: bool) -> (r: RebalanceOutcome)
    requires
        old(fs).wf(),
    ensures
        final(fs).wf(),
        final(fs).tree() == old(fs).tree(),
        r == rebalance_outcome(old(fs).storage(), hash@, peer_views(members@), local@, blocked),
        final(fs).storage().contents() == rebalance_contents(old(fs).storage(), hash@, peer_views(members@), local@, blocked),
{
    if !is_designated(hash, members, local) {
        return RebalanceOutcome::Skipped;
    }
    if fs.is_pinned(hash) {
        return RebalanceOutcome::Skipped;
    }
    if blocked {
        return RebalanceOutcome::Skipped;
    }
    if fs.is_cached(hash) {
        if fs.promote_to_pinned(hash) {
            return RebalanceOutcome::Promoted;
        }
        return RebalanceOutcome::Blocked;
    }
    RebalanceOutcome::Fetch
}


/// What one step of a rebalancing round did.
pub enum RoundStep {
    /// The round is over: it had nothing to do, every live chunk was
    /// handled, or the fetch budget ran out.
    Done,
    /// One live chunk was handled with this outcome.
    Handled { hash: ChunkHash, outcome: RebalanceOutcome },
}

/// One rebalancing round over the live chunks, taken in order: each is
/// handled by `rebalance_hash`. A node alone among the members does
/// nothing, and the round ends at the first fetch past the budget of
/// `MAX_FETCHES_PER_REBALANCE` accepted fetches.
pub struct RebalanceRound {
    members: Vec<PeerKey>,
    local: PeerKey,
    live: Vec<ChunkHash>,
    blocked: Vec<bool>,
    next: usize,
    issued: usize,
    pending: bool,
    stopped: bool,
}

impl RebalanceRound {
    /// The members, this node among them.
    pub closed spec fn members(&self) -> Seq<Seq<u8>> {
        peer_views(self.members@)
    }

    /// This node.
    pub closed spec fn local(&self) -> Seq<u8> {
        self.local@
    }

    /// The live chunks, in the order the round takes them.
    pub closed spec fn live(&self) -> Seq<Seq<u8>> {
        hash_views(self.live@)
    }

    /// Whether fetching the `i`-th live chunk is blocked for now.
    pub closed spec fn blocked_at(&self, i: int) -> bool {
        0 <= i < self.blocked@.len() && self.blocked@[i]
    }

    /// How many live chunks the round has handled.
    pub closed spec fn position(&self) -> nat {
        self.next as nat
    }

    /// How many fetches this round has had accepted.
    pub closed spec fn issued(&self) -> nat {
        self.issued as nat
    }

    /// The last step asked for a fetch that has not been reported yet.
    pub closed spec fn awaiting_fetch(&self) -> bool {
        self.pending
    }

    /// The round has nothing more to do.
    pub closed spec fn finished(&self) -> bool {
        self.stopped || self.next >= self.live@.len()
    }

    /// The budget holds: at most `MAX_FETCHES_PER_REBALANCE` accepted
    /// fetches, and a fetch is asked for only while the budget has room.
    pub closed spec fn wf(&self) -> bool {
        &&& self.next <= self.live@.len()
        &&& self.issued <= MAX_FETCHES_PER_REBALANCE
        &&& self.pending ==> self.issued < MAX_FETCHES_PER_REBALANCE
    }

    /// A round over the live chunks with the members of the moment; a
    /// node alone among the members starts a round that is already over.
    /// `blocked[i]` says whether fetching `live[i]` is blocked; a missing
    /// flag reads as not blocked.
    pub fn new(members: Vec<PeerKey>, local: PeerKey, live: Vec<ChunkHash>, blocked: Vec<bool>) -> (r: RebalanceRound)
        ensures
            r.wf(),
            r.members() == peer_views(members@),
            r.local() == local@,
            r.live() == hash_views(live@),
            forall|i: int| r.blocked_at(i) == (0 <= i < blocked@.len() && blocked@[i]),
            r.position() == 0,
            r.issued() == 0,
            !r.awaiting_fetch(),
            r.finished() == (members@.len() == 1 || live@.len() == 0),
    {
        let lone = members.len() == 1;
        RebalanceRound { members, local, live, blocked, next: 0, issued: 0, pending: false, stopped: lone }
    }

    /// Handles the next live chunk, or reports that the round is over.
    ///
    /// A chunk that would need a fetch once the budget is spent ends the
    /// round without being handled.
    pub fn step(&mut self, fs: &mut FileSystem) -> (r: RoundStep)
        requires
            old(self).wf(),
            old(fs).wf(),
        ensures
            final(self).wf(),
            final(fs).wf(),
            final(fs).tree() == old(fs).tree(),
            final(self).members() == old(self).members(),
            final(self).local() == old(self).local(),
            final(self).live() == old(self).live(),
            forall|i: int| final(self).blocked_at(i) == old(self).blocked_at(i),
            final(self).issued() == old(self).issued(),
            ({
                let i = old(self).position() as int;
                let h = old(self).live()[i];
                let o = rebalance_outcome(old(fs).storage(), h, old(self).members(), old(self).local(), old(self).blocked_at(i));
                if old(self).finished() {
                    &&& r is Done
                    &&& final(fs).storage().contents() == old(fs).storage().contents()
                    &&& final(self).finished()
                    &&& final(self).position() == old(self).position()
                    &&& !final(self).awaiting_fetch()
                } else if o is Fetch && old(self).issued() >= MAX_FETCHES_PER_REBALANCE {
                    &&& r is Done
                    &&& final(fs).storage().contents() == old(fs).storage().contents()
                    &&& final(self).finished()
                    &&& final(self).position() == old(self).position()
                    &&& !final(self).awaiting_fetch()
                } else {
                    &&& r matches RoundStep::Handled { hash, outcome } && hash@ == h && outcome == o
                    &&& final(fs).storage().contents() == rebalance_contents(old(fs).storage(), h, old(self).members(), old(self).local(), old(self).blocked_at(i))
                    &&& final(self).position() == old(self).position() + 1
                    &&& final(self).awaiting_fetch() == (o is Fetch)
                    &&& final(self).finished() == (final(self).position() >= final(self).live().len())
                }
            }),
    {
        if self.stopped || self.next >= self.live.len() {
            self.pending = false;
            return RoundStep::Done;
        }
        let i = self.next;
        let hash = self.live[i];
        let blocked = i < self.blocked.len() && self.blocked[i];
        proof {
            assert(hash_views(self.live@)[i as int] == hash@);
            assert(blocked == self.blocked_at(i as int));
        }
        let outcome = rebalance_hash(fs, &hash, self.members.as_slice(), &self.local, blocked);
        let fetch = match outcome {
            RebalanceOutcome::Fetch => true,
            _ => false,
        };
        if fetch && self.issued >= MAX_FETCHES_PER_REBALANCE {
            self.stopped = true;
            self.pending = false;
            return RoundStep::Done;
        }
        self.next = i + 1;
        self.pending = fetch;
        RoundStep::Handled { hash, outcome }
    }

    /// Reports that the fetch the last step asked for was accepted; it
    /// counts against the round's budget. A report with no fetch asked
    /// for counts nothing.
    pub fn fetch_sent(&mut self)
        requires
            old(self).wf(),
        ensures
            final(self).wf(),
            final(self).members() == old(self).members(),
            final(self).local() == old(self).local(),
            final(self).live() == old(self).live(),
            forall|i: int| final(self).blocked_at(i) == old(self).blocked_at(i),
            final(self).position() == old(self).position(),
            final(self).finished() == old(self).finished(),
            final(self).issued() == if old(self).awaiting_fetch() { old(self).issued() + 1 } else { old(self).issued() },
            !final(self).awaiting_fetch(),
    {
        if self.pending {
            self.issued = self.issued + 1;
        }
        self.pending = false;
    }

    /// No round accepts more than `MAX_FETCHES_PER_REBALANCE` fetches.
    pub proof fn lemma_budget(&self)
        requires
            self.wf(),
        ensures
            self.issued() <= MAX_FETCHES_PER_REBALANCE,
    {
    }
}

/// For each chunk this node would like to drop, the designated holders
/// that confirmed they hold it pinned.
pub struct HolderConfirmations {
    entries: Vec<(ChunkHash, Vec<PeerKey>)>,
}

impl HolderConfirmations {
    /// Some holder confirmation is kept for the chunk.
    pub closed spec fn tracks(&self, h: Seq<u8>) -> bool {
        exists|i: int| 0 <= i < self.entries@.len() && #[trigger] self.entries@[i].0@ == h
    }

    /// The peer confirmed holding the chunk.
    pub closed spec fn confirms(&self, h: Seq<u8>, p: Seq<u8>) -> bool {
        exists|i: int| 0 <= i < self.entries@.len() && #[trigger] self.entries@[i].0@ == h && peer_views(self.entries@[i].1@).contains(p)
    }

    /// Each chunk has one entry.
    pub closed spec fn wf(&self) -> bool {
        forall|a: int, b: int| 0 <= a < self.entries@.len() && 0 <= b < self.entries@.len() && a != b ==> #[trigger] self.entries@[a].0@ != #[trigger] self.entries@[b].0@
    }

    /// No confirmation is kept.
    pub fn new() -> (r: HolderConfirmations)
        ensures
            r.wf(),
            forall|h: Seq<u8>| !#[trigger] r.tracks(h),
            forall|h: Seq<u8>, p: Seq<u8>| !#[trigger] r.confirms(h, p),
    {
        HolderConfirmations { entries: Vec::new() }
    }

    /// Forgets every confirmation.
    pub fn clear(&mut self)
        ensures
            final(self).wf(),
            forall|h: Seq<u8>| !#[trigger] final(self).tracks(h),
            forall|h: Seq<u8>, p: Seq<u8>| !#[trigger] final(self).confirms(h, p),
    {
        self.entries = Vec::new();
    }

    /// The position of the entry for the chunk, if there is one.
    fn find(&self, hash: &ChunkHash) -> (r: Option<usize>)
        requires
            self.wf(),
        ensures
            match r {
                Some(i) => i < self.entries@.len() && self.entries@[i as int].0@ == hash@,
                None => !self.tracks(hash@),
            },
    {
        let mut i: usize = 0;
        while i < self.entries.len()
            invariant
                0 <= i <= self.entries@.len(),
                forall|k: int| 0 <= k < i ==> self.entries@[k].0@ != hash@,
            decreases self.entries@.len() - i,
        {
            if self.entries[i].0.same(hash) {
                return Some(i);
            }
            i = i + 1;
        }
        None
    }

    /// Whether the peer confirmed holding the chunk.
    pub fn is_confirmed(&self, hash: &ChunkHash, peer: &PeerKey) -> (r: bool)
        requires
            self.wf(),
        ensures
            r == self.confirms(hash@, peer@),
    {
        match self.find(hash) {
            Some(i) => {
                let peers = &self.entries[i].1;
                let mut j: usize = 0;
                while j < peers.len()
                    invariant
                        0 <= j <= peers@.len(),
                        i < self.entries@.len(),
                        self.entries@[i as int].0@ == hash@,
                        peers@ == self.entries@[i as int].1@,
                        forall|k: int| 0 <= k < j ==> peers@[k]@ != peer@,
                    decreases peers@.len() - j,
                {
                    if peers[j].same(peer) {
                        proof {
                            assert(peer_views(peers@)[j as int] == peer@);
                            assert(peer_views(self.entries@[i as int].1@).contains(peer@));
                        }
                        return true;
                    }
                    j = j + 1;
                }
                proof {
                    if self.confirms(hash@, peer@) {
                        let q = choose|q: int| 0 <= q < self.entries@.len() && #[trigger] self.entries@[q].0@ == hash@ && peer_views(self.entries@[q].1@).contains(peer@);
                        assert(q == i);
                        let k = choose|k: int| 0 <= k < peer_views(peers@).len() && peer_views(peers@)[k] == peer@;
                        assert(peers@[k]@ == peer@);
                    }
                }
                false
            },
            None => false,
        }
    }

    /// Records that the peer confirmed holding the chunk.
    pub fn confirm(&mut self, hash: &ChunkHash, peer: &PeerKey)
        requires
            old(self).wf(),
        ensures
            final(self).wf(),
            forall|h: Seq<u8>| #[trigger] final(self).tracks(h) <==> (old(self).tracks(h) || h == hash@),
            forall|h: Seq<u8>, p: Seq<u8>| #[trigger] final(self).confirms(h, p) <==> (old(self).confirms(h, p) || (h == hash@ && p == peer@)),
    {
        let ghost e0 = self.entries@;
        match self.find(hash) {
            Some(i) => {
                let (h, mut peers) = self.entries.remove(i);
                let ghost pv0 = peer_views(peers@);
                let me = peer.duplicate();
                peers.push(me);
                proof {
                    assert(peer_views(peers@) =~= pv0.push(peer@));
                }
                self.entries.insert(i, (h, peers));
                proof {
                    assert(self.entries@ =~= e0.update(i as int, (h, peers)));
                    assert forall|h2: Seq<u8>| #[trigger] self.tracks(h2) <==> (old(self).tracks(h2) || h2 == hash@) by {
                        if old(self).tracks(h2) {
                            let q = choose|q: int| 0 <= q < e0.len() && #[trigger] e0[q].0@ == h2;
                            assert(self.entries@[q].0@ == h2);
                        }
                        if h2 == hash@ {
                            assert(self.entries@[i as int].0@ == h2);
                        }
                        if self.tracks(h2) {
                            let q = choose|q: int| 0 <= q < self.entries@.len() && #[trigger] self.entries@[q].0@ == h2;
                            assert(e0[q].0@ == h2);
                        }
                    }
                    assert forall|h2: Seq<u8>, p: Seq<u8>| #[trigger] self.confirms(h2, p) <==> (old(self).confirms(h2, p) || (h2 == hash@ && p == peer@)) by {
                        if old(self).confirms(h2, p) {
                            let q = choose|q: int| 0 <= q < e0.len() && #[trigger] e0[q].0@ == h2 && peer_views(e0[q].1@).contains(p);
                            if q == i {
                                let k = choose|k: int| 0 <= k < pv0.len() && pv0[k] == p;
                                assert(peer_views(peers@)[k] == p);
                            }
                            assert(self.entries@[q].0@ == h2 && peer_views(self.entries@[q].1@).contains(p));
                        }
                        if h2 == hash@ && p == peer@ {
                            assert(peer_views(peers@)[pv0.len() as int] == p);
                            assert(self.entries@[i as int].0@ == h2 && peer_views(self.entries@[i as int].1@).contains(p));
                        }
                        if self.confirms(h2, p) {
                            let q = choose|q: int| 0 <= q < self.entries@.len() && #[trigger] self.entries@[q].0@ == h2 && peer_views(self.entries@[q].1@).contains(p);
                            if q == i {
                                let k = choose|k: int| 0 <= k < peer_views(peers@).len() && peer_views(peers@)[k] == p;
                                if k < pv0.len() {
                                    assert(pv0[k] == p);
                                    assert(e0[q].0@ == h2 && peer_views(e0[q].1@).contains(p));
                                }
                            } else {
                                assert(e0[q].0@ == h2 && peer_views(e0[q].1@).contains(p));
                            }
                        }
                    }
                }
            },
            None => {
                let mut peers: Vec<PeerKey> = Vec::new();
                let me = peer.duplicate();
                peers.push(me);
                proof {
                    assert(peer_views(peers@) =~= seq![peer@]);
                }
                self.entries.push((*hash, peers));
                proof {
                    let n = e0.len();
                    assert(self.entries@ =~= e0.push((*hash, peers)));
                    assert forall|h2: Seq<u8>| #[trigger] self.tracks(h2) <==> (old(self).tracks(h2) || h2 == hash@) by {
                        if old(self).tracks(h2) {
                            let q = choose|q: int| 0 <= q < e0.len() && #[trigger] e0[q].0@ == h2;
                            assert(self.entries@[q].0@ == h2);
                        }
                        if h2 == hash@ {
                            assert(self.entries@[n as int].0@ == h2);
                        }
                        if self.tracks(h2) {
                            let q = choose|q: int| 0 <= q < self.entries@.len() && #[trigger] self.entries@[q].0@ == h2;
                            if q < n {
                                assert(e0[q].0@ == h2);
                            }
                        }
                    }
                    assert forall|h2: Seq<u8>, p: Seq<u8>| #[trigger] self.confirms(h2, p) <==> (old(self).confirms(h2, p) || (h2 == hash@ && p == peer@)) by {
                        if old(self).confirms(h2, p) {
                            let q = choose|q: int| 0 <= q < e0.len() && #[trigger] e0[q].0@ == h2 && peer_views(e0[q].1@).contains(p);
                            assert(self.entries@[q].0@ == h2 && peer_views(self.entries@[q].1@).contains(p));
                        }
                        if h2 == hash@ && p == peer@ {
                            assert(peer_views(peers@)[0] == p);
                            assert(self.entries@[n as int].0@ == h2 && peer_views(self.entries@[n as int].1@).contains(p));
                        }
                        if self.confirms(h2, p) {
                            let q = choose|q: int| 0 <= q < self.entries@.len() && #[trigger] self.entries@[q].0@ == h2 && peer_views(self.entries@[q].1@).contains(p);
                            if q < n {
                                assert(e0[q].0@ == h2 && peer_views(e0[q].1@).contains(p));
                            } else {
                                let k = choose|k: int| 0 <= k < peer_views(peers@).len() && peer_views(peers@)[k] == p;
                                assert(k == 0);
                            }
                        }
                    }
                }
            },
        }
    }

    /// Forgets the confirmations for the chunk.
    pub fn remove(&mut self, hash: &ChunkHash)
        requires
            old(self).wf(),
        ensures
            final(self).wf(),
            forall|h: Seq<u8>| #[trigger] final(self).tracks(h) <==> (old(self).tracks(h) && h != hash@),
            forall|h: Seq<u8>, p: Seq<u8>| #[trigger] final(self).confirms(h, p) <==> (old(self).confirms(h, p) && h != hash@),
    {
        let ghost e0 = self.entries@;
        match self.find(hash) {
            Some(i) => {
                self.entries.remove(i);
                proof {
                    assert(self.entries@ =~= e0.remove(i as int));
                    assert forall|h2: Seq<u8>| #[trigger] self.tracks(h2) <==> (old(self).tracks(h2) && h2 != hash@) by {
                        if old(self).tracks(h2) && h2 != hash@ {
                            let q = choose|q: int| 0 <= q < e0.len() && #[trigger] e0[q].0@ == h2;
                            if q < i {
                                assert(self.entries@[q].0@ == h2);
                            } else {
                                assert(q != i);
                                assert(self.entries@[q - 1].0@ == h2);
                            }
                        }
                        if self.tracks(h2) {
                            let q = choose|q: int| 0 <= q < self.entries@.len() && #[trigger] self.entries@[q].0@ == h2;
                            if q < i {
                                assert(e0[q].0@ == h2);
                            } else {
                                assert(e0[q + 1].0@ == h2);
                            }
                        }
                    }
                    assert forall|h2: Seq<u8>, p: Seq<u8>| #[trigger] self.confirms(h2, p) <==> (old(self).confirms(h2, p) && h2 != hash@) by {
                        if old(self).confirms(h2, p) && h2 != hash@ {
                            let q = choose|q: int| 0 <= q < e0.len() && #[trigger] e0[q].0@ == h2 && peer_views(e0[q].1@).contains(p);
                            if q < i {
                                assert(self.entries@[q].0@ == h2 && peer_views(self.entries@[q].1@).contains(p));
                            } else {
                                assert(q != i);
                                assert(self.entries@[q - 1].0@ == h2 && peer_views(self.entries@[q - 1].1@).contains(p));
                            }
                        }
                        if self.confirms(h2, p) {
                            let q = choose|q: int| 0 <= q < self.entries@.len() && #[trigger] self.entries@[q].0@ == h2 && peer_views(self.entries@[q].1@).contains(p);
                            if q < i {
                                assert(e0[q].0@ == h2 && peer_views(e0[q].1@).contains(p));
                            } else {
                                assert(e0[q + 1].0@ == h2 && peer_views(e0[q + 1].1@).contains(p));
                            }
                        }
                    }
                }
            },
            None => {
                proof {
                    assert forall|h2: Seq<u8>, p: Seq<u8>| #[trigger] self.confirms(h2, p) implies h2 != hash@ by {
                        let q = choose|q: int| 0 <= q < self.entries@.len() && #[trigger] self.entries@[q].0@ == h2 && peer_views(self.entries@[q].1@).contains(p);
                        if h2 == hash@ {
                            assert(old(self).tracks(hash@));
                        }
                    }
                }
            },
        }
    }

    /// The chunks with kept confirmations, each once.
    pub fn tracked_hashes(&self) -> (r: Vec<ChunkHash>)
        requires
            self.wf(),
        ensures
            hash_views(r@).no_duplicates(),
            forall|h: Seq<u8>| #[trigger] hash_views(r@).contains(h) <==> self.tracks(h),
    {
        let mut r: Vec<ChunkHash> = Vec::new();
        let mut i: usize = 0;
        while i < self.entries.len()
            invariant
                self.wf(),
                0 <= i <= self.entries@.len(),
                r@.len() == i,
                forall|k: int| 0 <= k < i ==> #[trigger] r@[k]@ == self.entries@[k].0@,
            decreases self.entries@.len() - i,
        {
            r.push(self.entries[i].0);
            i = i + 1;
        }
        proof {
            let v = hash_views(r@);
            assert forall|a: int, b: int| 0 <= a < v.len() && 0 <= b < v.len() && a != b implies v[a] != v[b] by {
                assert(r@[a]@ == self.entries@[a].0@);
                assert(r@[b]@ == self.entries@[b].0@);
            }
            assert forall|h: Seq<u8>| #[trigger] v.contains(h) <==> self.tracks(h) by {
                if v.contains(h) {
                    let k = choose|k: int| 0 <= k < v.len() && v[k] == h;
                    assert(self.entries@[k].0@ == h);
                }
                if self.tracks(h) {
                    let k = choose|k: int| 0 <= k < self.entries@.len() && #[trigger] self.entries@[k].0@ == h;
                    assert(v[k] == h);
                }
            }
        }
        r
    }

    /// Keeps only the confirmations for chunks among the candidates.
    pub fn retain_only(&mut self, candidates: &[ChunkHash])
        requires
            old(self).wf(),
        ensures
            final(self).wf(),
            forall|h: Seq<u8>| #[trigger] final(self).tracks(h) <==> (old(self).tracks(h) && hash_views(candidates@).contains(h)),
            forall|h: Seq<u8>, p: Seq<u8>| #[trigger] final(self).confirms(h, p) <==> (old(self).confirms(h, p) && hash_views(candidates@).contains(h)),
    {
        let tracked_list = self.tracked_hashes();
        let mut i: usize = 0;
        while i < tracked_list.len()
            invariant
                self.wf(),
                0 <= i <= tracked_list@.len(),
                hash_views(tracked_list@).no_duplicates(),
                forall|h: Seq<u8>| #[trigger] hash_views(tracked_list@).contains(h) <==> old(self).tracks(h),
                forall|h: Seq<u8>| #[trigger] self.tracks(h) <==> (old(self).tracks(h) && (hash_views(candidates@).contains(h) || !hash_views(tracked_list@).take(i as int).contains(h))),
                forall|h: Seq<u8>, p: Seq<u8>| #[trigger] self.confirms(h, p) <==> (old(self).confirms(h, p) && (hash_views(candidates@).contains(h) || !hash_views(tracked_list@).take(i as int).contains(h))),
            decreases tracked_list@.len() - i,
        {
            let h = tracked_list[i];
            let ghost tv = hash_views(tracked_list@);
            proof {
                assert(tv[i as int] == h@);
                assert forall|x: Seq<u8>| #[trigger] tv.take(i + 1).contains(x) <==> (tv.take(i as int).contains(x) || x == h@) by {
                    if tv.take(i + 1).contains(x) {
                        let k = choose|k: int| 0 <= k < i + 1 && #[trigger] tv.take(i + 1)[k] == x;
                        if k < i {
                            assert(tv.take(i as int)[k] == x);
                        }
                    }
                    if tv.take(i as int).contains(x) {
                        let k = choose|k: int| 0 <= k < i && #[trigger] tv.take(i as int)[k] == x;
                        assert(tv.take(i + 1)[k] == x);
                    }
                    if x == h@ {
                        assert(tv.take(i + 1)[i as int] == x);
                    }
                }
            }
            if !listed_hash(&h, candidates) {
                self.remove(&h);
            }
            i = i + 1;
        }
        proof {
            assert(hash_views(tracked_list@).take(i as int) =~= hash_views(tracked_list@));
        }
    }
}

/// Whether the address is in the list.
fn listed_hash(hash: &ChunkHash, hashes: &[ChunkHash]) -> (r: bool)
    ensures
        r == hash_views(hashes@).contains(hash@),
{
    let mut i: usize = 0;
    while i < hashes.len()
        invariant
            0 <= i <= hashes@.len(),
            forall|k: int| 0 <= k < i ==> hashes@[k]@ != hash@,
        decreases hashes@.len() - i,
    {
        if hashes[i].same(hash) {
            proof {
                assert(hash_views(hashes@)[i as int] == hash@);
            }
            return true;
        }
        i = i + 1;
    }
    proof {
        if hash_views(hashes@).contains(hash@) {
            let k = choose|k: int| 0 <= k < hash_views(hashes@).len() && hash_views(hashes@)[k] == hash@;
            assert(hashes@[k]@ == hash@);
        }
    }
    false
}


/// The pinned chunks that a file reachable from the root still needs but
/// that this node is not a designated holder of: the ones it would like to
/// drop once their holders confirm.
pub fn eviction_candidates(fs: &FileSystem, reachable: &[ChunkHash], members: &[PeerKey], local: &PeerKey) -> (r: Vec<ChunkHash>)
    requires
        fs.wf(),
    ensures
        hash_views(r@).no_duplicates(),
        forall|h: Seq<u8>| #[trigger] hash_views(r@).contains(h) <==> (
            fs.storage().contents().contains_key(h) && fs.storage().contents()[h].1
            && hash_views(reachable@).contains(h)
            && !designates(h, peer_views(members@), local@)),
{
    let pinned = fs.pinned_hashes();
    let mut r: Vec<ChunkHash> = Vec::new();
    let mut i: usize = 0;
    while i < pinned.len()
        invariant
            fs.wf(),
            0 <= i <= pinned@.len(),
            hash_views(pinned@).no_duplicates(),
            forall|h: Seq<u8>| #![trigger hash_views(pinned@).contains(h)] hash_views(pinned@).contains(h) <==> (fs.storage().contents().contains_key(h) && fs.storage().contents()[h].1),
            hash_views(r@).no_duplicates(),
            forall|h: Seq<u8>| #[trigger] hash_views(r@).contains(h) <==> (
                hash_views(pinned@).take(i as int).contains(h)
                && hash_views(reachable@).contains(h)
                && !designates(h, peer_views(members@), local@)),
        decreases pinned@.len() - i,
    {
        let h = pinned[i];
        let ghost r0 = hash_views(r@);
        let ghost pv = hash_views(pinned@);
        proof {
            assert(pv[i as int] == h@);
            assert forall|x: Seq<u8>| #[trigger] pv.take(i + 1).contains(x) <==> (pv.take(i as int).contains(x) || x == h@) by {
                if pv.take(i + 1).contains(x) {
                    let k = choose|k: int| 0 <= k < i + 1 && #[trigger] pv.take(i + 1)[k] == x;
                    if k < i {
                        assert(pv.take(i as int)[k] == x);
                    }
                }
                if pv.take(i as int).contains(x) {
                    let k = choose|k: int| 0 <= k < i && #[trigger] pv.take(i as int)[k] == x;
                    assert(pv.take(i + 1)[k] == x);
                }
                if x == h@ {
                    assert(pv.take(i + 1)[i as int] == x);
                }
            }
            assert(!pv.take(i as int).contains(h@)) by {
                if pv.take(i as int).contains(h@) {
                    let k = choose|k: int| 0 <= k < i && #[trigger] pv.take(i as int)[k] == h@;
                    assert(pv[k] == pv[i as int]);
                }
            }
        }
        if listed_hash(&h, reachable) && !is_designated(&h, members, local) {
            r.push(h);
            proof {
                let r1 = hash_views(r@);
                assert(r1 =~= r0.push(h@));
                assert(!r0.contains(h@));
                assert forall|a: int, b: int| 0 <= a < r1.len() && 0 <= b < r1.len() && a != b implies r1[a] != r1[b] by {
                    if a == r0.len() {
                        assert(r0.contains(r0[b]));
                    } else if b == r0.len() {
                        assert(r0.contains(r0[a]));
                    }
                }
                assert forall|x: Seq<u8>| #[trigger] r1.contains(x) <==> (r0.contains(x) || x == h@) by {
                    if r1.contains(x) {
                        let k = choose|k: int| 0 <= k < r1.len() && r1[k] == x;
                        if k < r0.len() {
                            assert(r0[k] == x);
                        }
                    }
                    if r0.contains(x) {
                        let k = choose|k: int| 0 <= k < r0.len() && r0[k] == x;
                        assert(r1[k] == x);
                    }
                    if x == h@ {
                        assert(r1[r0.len() as int] == x);
                    }
                }
            }
        }
        i = i + 1;
    }
    proof {
        assert(hash_views(pinned@).take(i as int) =~= hash_views(pinned@));
    }
    r
}

/// Every designated holder of the chunk confirmed holding it, and a file
/// reachable from the root still needs it: this node may drop its copy.
pub open spec fn eviction_complete(conf: HolderConfirmations, live: Seq<Seq<u8>>, members: Seq<Seq<u8>>, h: Seq<u8>) -> bool {
    let holders = ranked_peers(scored_members(h, members), 2);
    &&& live.contains(h)
    &&& forall|k: int| 0 <= k < holders.len() ==> conf.confirms(h, #[trigger] holders[k])
}

/// Whether this node may drop its copy of the chunk.
pub fn is_eviction_complete(conf: &HolderConfirmations, hash: &ChunkHash, live: &[ChunkHash], members: &[PeerKey]) -> (r: bool)
    requires
        conf.wf(),
    ensures
        r == eviction_complete(*conf, hash_views(live@), peer_views(members@), hash@),
{
    if !listed_hash(hash, live) {
        return false;
    }
    let holders = designated_holders(hash, members);
    let ghost hv = ranked_peers(scored_members(hash@, peer_views(members@)), 2);
    let mut i: usize = 0;
    while i < holders.len()
        invariant
            conf.wf(),
            0 <= i <= holders@.len(),
            peer_views(holders@) == hv,
            hv == ranked_peers(scored_members(hash@, peer_views(members@)), 2),
            hash_views(live@).contains(hash@),
            forall|k: int| 0 <= k < i ==> conf.confirms(hash@, #[trigger] hv[k]),
        decreases holders@.len() - i,
    {
        if !conf.is_confirmed(hash, &holders[i]) {
            proof {
                assert(hv[i as int] == holders@[i as int]@);
                assert(!conf.confirms(hash@, hv[i as int]));
                assert(hv.len() == holders@.len());
                assert(0 <= i < hv.len());
            }
            return false;
        }
        proof {
            assert(hv[i as int] == holders@[i as int]@);
        }
        i = i + 1;
    }
    true
}

/// Drops the pinned copies of the chunks whose designated holders all
/// confirmed holding them, and forgets the confirmations of those chunks.
pub fn evict_confirmed(fs: &mut FileSystem, conf: &mut HolderConfirmations, members: &[PeerKey], live: &[ChunkHash])
    requires
        old(fs).wf(),
        old(conf).wf(),
    ensures
        final(fs).wf(),
        final(conf).wf(),
        final(fs).tree() == old(fs).tree(),
        forall|h: Seq<u8>| #[trigger] final(conf).tracks(h) <==> (old(conf).tracks(h) && !eviction_complete(*old(conf), hash_views(live@), peer_views(members@), h)),
        forall|h: Seq<u8>, p: Seq<u8>| #[trigger] final(conf).confirms(h, p) <==> (old(conf).confirms(h, p) && !eviction_complete(*old(conf), hash_views(live@), peer_views(members@), h)),
        forall|h: Seq<u8>| #[trigger] final(fs).storage().contents().contains_key(h) <==> (
            old(fs).storage().contents().contains_key(h)
            && !(old(conf).tracks(h) && eviction_complete(*old(conf), hash_views(live@), peer_views(members@), h) && old(fs).storage().contents()[h].1)),
        forall|h: Seq<u8>| #[trigger] final(fs).storage().contents().contains_key(h) ==> final(fs).storage().contents()[h] == old(fs).storage().contents()[h],
{
    let ghost c0 = *conf;
    let ghost m0 = fs.storage().contents();
    let ghost lv = hash_views(live@);
    let ghost mv = peer_views(members@);
    let tracked_list = conf.tracked_hashes();
    let mut completed: Vec<ChunkHash> = Vec::new();
    let mut i: usize = 0;
    while i < tracked_list.len()
        invariant
            c0.wf(),
            *conf == c0,
            0 <= i <= tracked_list@.len(),
            lv == hash_views(live@),
            mv == peer_views(members@),
            hash_views(tracked_list@).no_duplicates(),
            forall|h: Seq<u8>| #[trigger] hash_views(tracked_list@).contains(h) <==> c0.tracks(h),
            completed@.len() <= i,
            forall|a: int, b: int| 0 <= a < completed@.len() && 0 <= b < completed@.len() && a != b ==> #[trigger] completed@[a]@ != #[trigger] completed@[b]@,
            forall|h: Seq<u8>| #[trigger] hash_views(completed@).contains(h) <==> (hash_views(tracked_list@).take(i as int).contains(h) && eviction_complete(c0, lv, mv, h)),
        decreases tracked_list@.len() - i,
    {
        let h = tracked_list[i];
        let ghost tv = hash_views(tracked_list@);
        let ghost k0 = hash_views(completed@);
        proof {
            assert(tv[i as int] == h@);
            assert forall|x: Seq<u8>| #[trigger] tv.take(i + 1).contains(x) <==> (tv.take(i as int).contains(x) || x == h@) by {
                if tv.take(i + 1).contains(x) {
                    let k = choose|k: int| 0 <= k < i + 1 && #[trigger] tv.take(i + 1)[k] == x;
                    if k < i {
                        assert(tv.take(i as int)[k] == x);
                    }
                }
                if tv.take(i as int).contains(x) {
                    let k = choose|k: int| 0 <= k < i && #[trigger] tv.take(i as int)[k] == x;
                    assert(tv.take(i + 1)[k] == x);
                }
                if x == h@ {
                    assert(tv.take(i + 1)[i as int] == x);
                }
            }
            assert(!tv.take(i as int).contains(h@)) by {
                if tv.take(i as int).contains(h@) {
                    let k = choose|k: int| 0 <= k < i && #[trigger] tv.take(i as int)[k] == h@;
                    assert(tv[k] == tv[i as int]);
                }
            }
        }
        if is_eviction_complete(conf, &h, live, members) {
            completed.push(h);
            proof {
                let k1 = hash_views(completed@);
                assert(k1 =~= k0.push(h@));
                assert forall|x: Seq<u8>| #[trigger] k1.contains(x) <==> (k0.contains(x) || x == h@) by {
                    if k1.contains(x) {
                        let k = choose|k: int| 0 <= k < k1.len() && k1[k] == x;
                        if k < k0.len() {
                            assert(k0[k] == x);
                        }
                    }
                    if k0.contains(x) {
                        let k = choose|k: int| 0 <= k < k0.len() && k0[k] == x;
                        assert(k1[k] == x);
                    }
                    if x == h@ {
                        assert(k1[k0.len() as int] == x);
                    }
                }
                assert forall|a: int, b: int| 0 <= a < completed@.len() && 0 <= b < completed@.len() && a != b implies #[trigger] completed@[a]@ != #[trigger] completed@[b]@ by {
                    if a == completed@.len() - 1 {
                        assert(k0[b] == completed@[b]@);
                        assert(k0.contains(k0[b]));
                    } else if b == completed@.len() - 1 {
                        assert(k0[a] == completed@[a]@);
                        assert(k0.contains(k0[a]));
                    }
                }
            }
        }
        i = i + 1;
    }
    proof {
        assert(hash_views(tracked_list@).take(i as int) =~= hash_views(tracked_list@));
    }
    let mut j: usize = 0;
    while j < completed.len()
        invariant
            fs.wf(),
            conf.wf(),
            c0.wf(),
            fs.tree() == old(fs).tree(),
            m0 == old(fs).storage().contents(),
            0 <= j <= completed@.len(),
            forall|a: int, b: int| 0 <= a < completed@.len() && 0 <= b < completed@.len() && a != b ==> #[trigger] completed@[a]@ != #[trigger] completed@[b]@,
            forall|h: Seq<u8>| #[trigger] hash_views(completed@).contains(h) <==> (c0.tracks(h) && eviction_complete(c0, lv, mv, h)),
            forall|h: Seq<u8>| #[trigger] conf.tracks(h) <==> (c0.tracks(h) && !hash_views(completed@).take(j as int).contains(h)),
            forall|h: Seq<u8>, p: Seq<u8>| #[trigger] conf.confirms(h, p) <==> (c0.confirms(h, p) && !hash_views(completed@).take(j as int).contains(h)),
            forall|h: Seq<u8>| #[trigger] fs.storage().contents().contains_key(h) <==> (m0.contains_key(h) && !(hash_views(completed@).take(j as int).contains(h) && m0[h].1)),
            forall|h: Seq<u8>| #[trigger] fs.storage().contents().contains_key(h) ==> fs.storage().contents()[h] == m0[h],
        decreases completed@.len() - j,
    {
        let h = completed[j];
        let ghost cv = hash_views(completed@);
        let ghost before = fs.storage().contents();
        proof {
            assert(cv[j as int] == h@);
            assert forall|x: Seq<u8>| #[trigger] cv.take(j + 1).contains(x) <==> (cv.take(j as int).contains(x) || x == h@) by {
                if cv.take(j + 1).contains(x) {
                    let k = choose|k: int| 0 <= k < j + 1 && #[trigger] cv.take(j + 1)[k] == x;
                    if k < j {
                        assert(cv.take(j as int)[k] == x);
                    }
                }
                if cv.take(j as int).contains(x) {
                    let k = choose|k: int| 0 <= k < j && #[trigger] cv.take(j as int)[k] == x;
                    assert(cv.take(j + 1)[k] == x);
                }
                if x == h@ {
                    assert(cv.take(j + 1)[j as int] == x);
                }
            }
            assert(!cv.take(j as int).contains(h@)) by {
                if cv.take(j as int).contains(h@) {
                    let k = choose|k: int| 0 <= k < j && #[trigger] cv.take(j as int)[k] == h@;
                    assert(completed@[k]@ == completed@[j as int]@);
                }
            }
        }
        if fs.is_pinned(&h) {
            fs.evict_chunk(&h);
            proof {
                assert(m0.contains_key(h@) && m0[h@].1);
            }
        } else {
            proof {
                if m0.contains_key(h@) && m0[h@].1 {
                    assert(before.contains_key(h@));
                }
            }
        }
        conf.remove(&h);
        j = j + 1;
    }
    proof {
        assert(hash_views(completed@).take(j as int) =~= hash_views(completed@));
    }
}

/// Records a peer's answer to a probe: it holds each of these chunks.
pub fn record_held(conf: &mut HolderConfirmations, peer: &PeerKey, hashes: &[ChunkHash])
    requires
        old(conf).wf(),
    ensures
        final(conf).wf(),
        forall|h: Seq<u8>| #[trigger] final(conf).tracks(h) <==> (old(conf).tracks(h) || hash_views(hashes@).contains(h)),
        forall|h: Seq<u8>, p: Seq<u8>| #[trigger] final(conf).confirms(h, p) <==> (old(conf).confirms(h, p) || (p == peer@ && hash_views(hashes@).contains(h))),
{
    let mut i: usize = 0;
    while i < hashes.len()
        invariant
            conf.wf(),
            0 <= i <= hashes@.len(),
            forall|h: Seq<u8>| #[trigger] conf.tracks(h) <==> (old(conf).tracks(h) || hash_views(hashes@).take(i as int).contains(h)),
            forall|h: Seq<u8>, p: Seq<u8>| #[trigger] conf.confirms(h, p) <==> (old(conf).confirms(h, p) || (p == peer@ && hash_views(hashes@).take(i as int).contains(h))),
        decreases hashes@.len() - i,
    {
        let ghost hv = hash_views(hashes@);
        proof {
            assert(hv[i as int] == hashes@[i as int]@);
            assert forall|x: Seq<u8>| #[trigger] hv.take(i + 1).contains(x) <==> (hv.take(i as int).contains(x) || x == hashes@[i as int]@) by {
                if hv.take(i + 1).contains(x) {
                    let k = choose|k: int| 0 <= k < i + 1 && #[trigger] hv.take(i + 1)[k] == x;
                    if k < i {
                        assert(hv.take(i as int)[k] == x);
                    }
                }
                if hv.take(i as int).contains(x) {
                    let k = choose|k: int| 0 <= k < i && #[trigger] hv.take(i as int)[k] == x;
                    assert(hv.take(i + 1)[k] == x);
                }
                if x == hashes@[i as int]@ {
                    assert(hv.take(i + 1)[i as int] == x);
                }
            }
        }
        conf.confirm(&hashes[i], peer);
        i = i + 1;
    }
    proof {
        assert(hash_views(hashes@).take(i as int) =~= hash_views(hashes@));
    }
}


/// The chunk `h` once for each place the peer takes among the holders
/// `ds`, unless the peer already confirmed holding it.
pub open spec fn probe_hits(ds: Seq<Seq<u8>>, h: Seq<u8>, p: Seq<u8>, conf: HolderConfirmations) -> Seq<Seq<u8>>
    decreases ds.len(),
{
    if ds.len() == 0 {
        Seq::empty()
    } else {
        let rest = probe_hits(ds.drop_last(), h, p, conf);
        if ds.last() == p && !conf.confirms(h, p) {
            rest.push(h)
        } else {
            rest
        }
    }
}

/// The candidates a peer is asked about: each candidate for which it is a
/// designated holder that has not confirmed holding it, in order.
pub open spec fn probe_wanted(cands: Seq<Seq<u8>>, members: Seq<Seq<u8>>, conf: HolderConfirmations, p: Seq<u8>) -> Seq<Seq<u8>>
    decreases cands.len(),
{
    if cands.len() == 0 {
        Seq::empty()
    } else {
        probe_wanted(cands.drop_last(), members, conf, p) + probe_hits(
            ranked_peers(scored_members(cands.last(), members), 2),
            cands.last(),
            p,
            conf,
        )
    }
}

/// The peers of a grouping, in order.
pub open spec fn group_peers(groups: Seq<(PeerKey, Vec<ChunkHash>)>) -> Seq<Seq<u8>> {
    groups.map_values(|g: (PeerKey, Vec<ChunkHash>)| g.0@)
}

/// Adds the chunk to the peer's group, opening one if the peer has none.
fn add_to_group(groups: &mut Vec<(PeerKey, Vec<ChunkHash>)>, peer: &PeerKey, hash: ChunkHash)
    requires
        group_peers(old(groups)@).no_duplicates(),
    ensures
        group_peers(final(groups)@).no_duplicates(),
        forall|q: Seq<u8>| #[trigger] group_peers(final(groups)@).contains(q) <==> (group_peers(old(groups)@).contains(q) || q == peer@),
        final(groups)@.len() == old(groups)@.len() || final(groups)@.len() == old(groups)@.len() + 1,
        forall|k: int| 0 <= k < old(groups)@.len() ==> {
            &&& (#[trigger] final(groups)@[k]).0@ == old(groups)@[k].0@
            &&& hash_views(final(groups)@[k].1@) == if old(groups)@[k].0@ == peer@ {
                hash_views(old(groups)@[k].1@).push(hash@)
            } else {
                hash_views(old(groups)@[k].1@)
            }
        },
        final(groups)@.len() == old(groups)@.len() + 1 ==> {
            &&& final(groups)@[old(groups)@.len() as int].0@ == peer@
            &&& hash_views(final(groups)@[old(groups)@.len() as int].1@) == seq![hash@]
            &&& !group_peers(old(groups)@).contains(peer@)
        },
{
    let ghost g0 = groups@;
    let mut i: usize = 0;
    while i < groups.len()
        invariant
            0 <= i <= groups@.len(),
            g0 == groups@,
            g0 == old(groups)@,
            group_peers(g0).no_duplicates(),
            forall|k: int| 0 <= k < i ==> groups@[k].0@ != peer@,
        decreases groups@.len() - i,
    {
        if groups[i].0.same(peer) {
            let (p, mut hs) = groups.remove(i);
            let ghost hv0 = hash_views(hs@);
            hs.push(hash);
            proof {
                assert(hash_views(hs@) =~= hv0.push(hash@));
            }
            groups.insert(i, (p, hs));
            proof {
                assert(groups@ =~= g0.update(i as int, (p, hs)));
                assert(group_peers(groups@) =~= group_peers(g0));
                assert(group_peers(g0)[i as int] == peer@);
                assert(group_peers(g0).contains(peer@));
                assert forall|k: int| 0 <= k < g0.len() implies {
                    &&& (#[trigger] groups@[k]).0@ == g0[k].0@
                    &&& hash_views(groups@[k].1@) == if g0[k].0@ == peer@ {
                        hash_views(g0[k].1@).push(hash@)
                    } else {
                        hash_views(g0[k].1@)
                    }
                } by {
                    if k != i && g0[k].0@ == peer@ {
                        assert(group_peers(g0)[k] == group_peers(g0)[i as int]);
                    }
                }
            }
            return;
        }
        i = i + 1;
    }
    let mut hs: Vec<ChunkHash> = Vec::new();
    hs.push(hash);
    proof {
        assert(hash_views(hs@) =~= seq![hash@]);
    }
    let me = peer.duplicate();
    groups.push((me, hs));
    proof {
        assert(group_peers(groups@) =~= group_peers(g0).push(peer@));
        assert(!group_peers(g0).contains(peer@)) by {
            if group_peers(g0).contains(peer@) {
                let k = choose|k: int| 0 <= k < group_peers(g0).len() && group_peers(g0)[k] == peer@;
                assert(g0[k].0@ == peer@);
            }
        }
        assert forall|a: int, b: int| 0 <= a < groups@.len() && 0 <= b < groups@.len() && a != b implies group_peers(groups@)[a] != group_peers(groups@)[b] by {
            if a == g0.len() {
                assert(g0[b].0@ != peer@);
            } else if b == g0.len() {
                assert(g0[a].0@ != peer@);
            }
        }
        assert forall|q: Seq<u8>| #[trigger] group_peers(groups@).contains(q) <==> (group_peers(g0).contains(q) || q == peer@) by {
            if group_peers(groups@).contains(q) {
                let k = choose|k: int| 0 <= k < group_peers(groups@).len() && group_peers(groups@)[k] == q;
                if k < g0.len() {
                    assert(group_peers(g0)[k] == q);
                }
            }
            if group_peers(g0).contains(q) {
                let k = choose|k: int| 0 <= k < group_peers(g0).len() && group_peers(g0)[k] == q;
                assert(group_peers(groups@)[k] == q);
            }
            if q == peer@ {
                assert(group_peers(groups@)[g0.len() as int] == q);
            }
        }
        assert forall|k: int| 0 <= k < g0.len() implies (#[trigger] groups@[k]).0@ == g0[k].0@ && g0[k].0@ != peer@ by {}
    }
}

/// The chunks to ask each designated holder about, grouped by holder: one
/// group per peer that has something to confirm, holding in candidate
/// order the candidates it has not confirmed yet.
pub fn probe_groups(candidates: &[ChunkHash], conf: &HolderConfirmations, members: &[PeerKey]) -> (r: Vec<(PeerKey, Vec<ChunkHash>)>)
    requires
        conf.wf(),
    ensures
        group_peers(r@).no_duplicates(),
        forall|k: int| 0 <= k < r@.len() ==> hash_views((#[trigger] r@[k]).1@) == probe_wanted(hash_views(candidates@), peer_views(members@), *conf, r@[k].0@),
        forall|k: int| 0 <= k < r@.len() ==> (#[trigger] r@[k]).1@.len() > 0,
        forall|q: Seq<u8>| probe_wanted(hash_views(candidates@), peer_views(members@), *conf, q).len() > 0 ==> #[trigger] group_peers(r@).contains(q),
{
    let ghost cv = hash_views(candidates@);
    let ghost mv = peer_views(members@);
    let mut groups: Vec<(PeerKey, Vec<ChunkHash>)> = Vec::new();
    let mut i: usize = 0;
    proof {
        assert(group_peers(groups@) =~= Seq::<Seq<u8>>::empty());
        assert(cv.take(0) =~= Seq::<Seq<u8>>::empty());
    }
    while i < candidates.len()
        invariant
            conf.wf(),
            cv == hash_views(candidates@),
            mv == peer_views(members@),
            0 <= i <= candidates@.len(),
            group_peers(groups@).no_duplicates(),
            forall|k: int| 0 <= k < groups@.len() ==> hash_views((#[trigger] groups@[k]).1@) == probe_wanted(cv.take(i as int), mv, *conf, groups@[k].0@),
            forall|k: int| 0 <= k < groups@.len() ==> (#[trigger] groups@[k]).1@.len() > 0,
            forall|q: Seq<u8>| #[trigger] group_peers(groups@).contains(q) || probe_wanted(cv.take(i as int), mv, *conf, q).len() == 0,
        decreases candidates@.len() - i,
    {
        let hash = candidates[i];
        let holders = designated_holders(&hash, members);
        let ghost hv = peer_views(holders@);
        let ghost pre = cv.take(i as int);
        proof {
            assert(cv.take(i + 1).drop_last() =~= pre);
            assert(cv.take(i + 1).last() == hash@);
            assert(cv[i as int] == hash@);
        }
        let mut j: usize = 0;
        proof {
            assert(hv.take(0) =~= Seq::<Seq<u8>>::empty());
        }
        while j < holders.len()
            invariant
                conf.wf(),
                hv == peer_views(holders@),
                hv == ranked_peers(scored_members(hash@, mv), 2),
                0 <= j <= holders@.len(),
                group_peers(groups@).no_duplicates(),
                forall|k: int| 0 <= k < groups@.len() ==> hash_views((#[trigger] groups@[k]).1@) == probe_wanted(pre, mv, *conf, groups@[k].0@) + probe_hits(hv.take(j as int), hash@, groups@[k].0@, *conf),
                forall|k: int| 0 <= k < groups@.len() ==> (#[trigger] groups@[k]).1@.len() > 0,
                forall|q: Seq<u8>| #[trigger] group_peers(groups@).contains(q) || (probe_wanted(pre, mv, *conf, q) + probe_hits(hv.take(j as int), hash@, q, *conf)).len() == 0,
            decreases holders@.len() - j,
        {
            let ghost g0 = groups@;
            proof {
                assert(hv.take(j + 1).drop_last() =~= hv.take(j as int));
                assert(hv.take(j + 1).last() == holders@[j as int]@);
            }
            if !conf.is_confirmed(&hash, &holders[j]) {
                add_to_group(&mut groups, &holders[j], hash);
                proof {
                    let p = holders@[j as int]@;
                    assert forall|q: Seq<u8>| q != p implies #[trigger] probe_hits(hv.take(j + 1), hash@, q, *conf) == probe_hits(hv.take(j as int), hash@, q, *conf) by {}
                    assert(probe_hits(hv.take(j + 1), hash@, p, *conf) == probe_hits(hv.take(j as int), hash@, p, *conf).push(hash@));
                    assert forall|k: int| 0 <= k < groups@.len() implies hash_views((#[trigger] groups@[k]).1@) == probe_wanted(pre, mv, *conf, groups@[k].0@) + probe_hits(hv.take(j + 1), hash@, groups@[k].0@, *conf) by {
                        let q = groups@[k].0@;
                        if k < g0.len() {
                            assert(g0[k].0@ == q);
                            assert(hash_views(g0[k].1@) == probe_wanted(pre, mv, *conf, q) + probe_hits(hv.take(j as int), hash@, q, *conf));
                            if q == p {
                                assert(probe_wanted(pre, mv, *conf, q) + probe_hits(hv.take(j + 1), hash@, q, *conf) =~= (probe_wanted(pre, mv, *conf, q) + probe_hits(hv.take(j as int), hash@, q, *conf)).push(hash@));
                            }
                        } else {
                            assert(k == g0.len());
                            assert(q == p);
                            assert(!group_peers(g0).contains(q));
                            assert((probe_wanted(pre, mv, *conf, q) + probe_hits(hv.take(j as int), hash@, q, *conf)).len() == 0);
                            assert(probe_wanted(pre, mv, *conf, q) + probe_hits(hv.take(j + 1), hash@, q, *conf) =~= seq![hash@]);
                        }
                    }
                    assert forall|k: int| 0 <= k < groups@.len() implies (#[trigger] groups@[k]).1@.len() > 0 by {
                        if k < g0.len() {
                            assert(g0[k].1@.len() > 0);
                            assert(hash_views(g0[k].1@).len() == g0[k].1@.len());
                            assert(hash_views(groups@[k].1@).len() == groups@[k].1@.len());
                        } else {
                            assert(hash_views(groups@[k].1@).len() == groups@[k].1@.len());
                        }
                    }
                    assert forall|q: Seq<u8>| #[trigger] group_peers(groups@).contains(q) || (probe_wanted(pre, mv, *conf, q) + probe_hits(hv.take(j + 1), hash@, q, *conf)).len() == 0 by {
                        if !group_peers(groups@).contains(q) {
                            assert(!group_peers(g0).contains(q));
                            assert(q != p);
                        }
                    }
                }
            } else {
                proof {
                    let p = holders@[j as int]@;
                    assert(conf.confirms(hash@, p));
                    assert forall|q: Seq<u8>| #[trigger] probe_hits(hv.take(j + 1), hash@, q, *conf) == probe_hits(hv.take(j as int), hash@, q, *conf) by {}
                    assert forall|k: int| 0 <= k < groups@.len() implies hash_views((#[trigger] groups@[k]).1@) == probe_wanted(pre, mv, *conf, groups@[k].0@) + probe_hits(hv.take(j + 1), hash@, groups@[k].0@, *conf) by {
                        assert(probe_hits(hv.take(j + 1), hash@, groups@[k].0@, *conf) == probe_hits(hv.take(j as int), hash@, groups@[k].0@, *conf));
                    }
                    assert forall|q: Seq<u8>| #[trigger] group_peers(groups@).contains(q) || (probe_wanted(pre, mv, *conf, q) + probe_hits(hv.take(j + 1), hash@, q, *conf)).len() == 0 by {
                        assert(probe_hits(hv.take(j + 1), hash@, q, *conf) == probe_hits(hv.take(j as int), hash@, q, *conf));
                    }
                }
            }
            j = j + 1;
        }
        proof {
            assert(hv.take(j as int) =~= hv);
            assert forall|q: Seq<u8>| probe_wanted(cv.take(i + 1), mv, *conf, q) == probe_wanted(pre, mv, *conf, q) + probe_hits(hv, hash@, q, *conf) by {}
            assert forall|k: int| 0 <= k < groups@.len() implies hash_views((#[trigger] groups@[k]).1@) == probe_wanted(cv.take(i + 1), mv, *conf, groups@[k].0@) by {
                assert(probe_wanted(cv.take(i + 1), mv, *conf, groups@[k].0@) == probe_wanted(pre, mv, *conf, groups@[k].0@) + probe_hits(hv, hash@, groups@[k].0@, *conf));
            }
            assert forall|q: Seq<u8>| #[trigger] group_peers(groups@).contains(q) || probe_wanted(cv.take(i + 1), mv, *conf, q).len() == 0 by {
                assert(probe_wanted(cv.take(i + 1), mv, *conf, q) == probe_wanted(pre, mv, *conf, q) + probe_hits(hv, hash@, q, *conf));
            }
        }
        i = i + 1;
    }
    proof {
        assert(cv.take(i as int) =~= cv);
    }
    groups
}

/// The batches joined back into one list of addresses.
pub open spec fn joined(bs: Seq<Vec<ChunkHash>>) -> Seq<Seq<u8>>
    decreases bs.len(),
{
    if bs.len() == 0 {
        Seq::empty()
    } else {
        joined(bs.drop_last()) + hash_views(bs.last()@)
    }
}

/// The list cut into consecutive batches of `size` entries, the last one
/// possibly shorter; nothing for an empty list.
pub fn split_batches(hashes: &[ChunkHash], size: usize) -> (r: Vec<Vec<ChunkHash>>)
    requires
        size > 0,
    ensures
        joined(r@) == hash_views(hashes@),
        forall|k: int| 0 <= k < r@.len() ==> 0 < (#[trigger] r@[k])@.len() <= size,
        forall|k: int| 0 <= k < r@.len() - 1 ==> (#[trigger] r@[k])@.len() == size,
{
    let mut r: Vec<Vec<ChunkHash>> = Vec::new();
    let mut start: usize = 0;
    let ghost hv = hash_views(hashes@);
    proof {
        assert(hv.take(0) =~= joined(r@));
    }
    while start < hashes.len()
        invariant
            size > 0,
            hv == hash_views(hashes@),
            start <= hashes@.len(),
            joined(r@) == hv.take(start as int),
            forall|k: int| 0 <= k < r@.len() ==> 0 < (#[trigger] r@[k])@.len() <= size,
            forall|k: int| 0 <= k < r@.len() - 1 ==> (#[trigger] r@[k])@.len() == size,
            r@.len() > 0 && r@[r@.len() - 1]@.len() < size ==> start == hashes@.len(),
        decreases hashes@.len() - start,
    {
        let end = if hashes.len() - start > size { start + size } else { hashes.len() };
        let mut batch: Vec<ChunkHash> = Vec::new();
        let mut i: usize = start;
        while i < end
            invariant
                start <= i <= end,
                end <= hashes@.len(),
                hv == hash_views(hashes@),
                batch@.len() == i - start,
                hash_views(batch@) == hv.subrange(start as int, i as int),
            decreases end - i,
        {
            let ghost b0 = hash_views(batch@);
            batch.push(hashes[i]);
            proof {
                assert(hash_views(batch@) =~= b0.push(hv[i as int]));
                assert(hv.subrange(start as int, i + 1) =~= hv.subrange(start as int, i as int).push(hv[i as int]));
            }
            i = i + 1;
        }
        let ghost r0 = r@;
        r.push(batch);
        proof {
            assert(r@.drop_last() =~= r0);
            assert(hv.take(end as int) =~= hv.take(start as int) + hv.subrange(start as int, end as int));
            assert forall|k: int| 0 <= k < r@.len() - 1 implies (#[trigger] r@[k])@.len() == size by {
                if k == r0.len() - 1 {
                    assert(r0[k]@.len() == size);
                }
            }
        }
        start = end;
    }
    proof {
        assert(hv.take(start as int) =~= hv);
    }
    r
}

proof fn lemma_probe_hits_contains(ds: Seq<Seq<u8>>, h: Seq<u8>, p: Seq<u8>, conf: HolderConfirmations, x: Seq<u8>)
    ensures
        probe_hits(ds, h, p, conf).contains(x) <==> (x == h && ds.contains(p) && !conf.confirms(h, p)),
    decreases ds.len(),
{
    if ds.len() > 0 {
        lemma_probe_hits_contains(ds.drop_last(), h, p, conf, x);
        let rest = probe_hits(ds.drop_last(), h, p, conf);
        if ds.contains(p) && !ds.drop_last().contains(p) {
            if ds.last() != p {
                let k = choose|k: int| 0 <= k < ds.len() && ds[k] == p;
                assert(ds.drop_last()[k] == p);
            }
        }
        if ds.drop_last().contains(p) {
            let k = choose|k: int| 0 <= k < ds.drop_last().len() && ds.drop_last()[k] == p;
            assert(ds[k] == p);
        }
        if ds.last() == p {
            assert(ds[ds.len() - 1] == p);
        }
        if ds.last() == p && !conf.confirms(h, p) {
            assert(rest.push(h)[rest.len() as int] == h);
            if rest.push(h).contains(x) && x != h {
                let k = choose|k: int| 0 <= k < rest.push(h).len() && rest.push(h)[k] == x;
                assert(rest[k] == x);
            }
            if rest.contains(x) {
                let k = choose|k: int| 0 <= k < rest.len() && rest[k] == x;
                assert(rest.push(h)[k] == x);
            }
        }
    }
}

/// Among distinct designated holders, a chunk is asked of a peer at most
/// once.
proof fn lemma_probe_hits_single(ds: Seq<Seq<u8>>, h: Seq<u8>, p: Seq<u8>, conf: HolderConfirmations)
    requires
        ds.no_duplicates(),
    ensures
        probe_hits(ds, h, p, conf).len() <= 1,
    decreases ds.len(),
{
    if ds.len() > 0 {
        let d = ds.drop_last();
        assert forall|i: int, j: int| 0 <= i < d.len() && 0 <= j < d.len() && i != j implies d[i] != d[j] by {
            assert(d[i] == ds[i] && d[j] == ds[j]);
        }
        lemma_probe_hits_single(d, h, p, conf);
        if ds.last() == p && !conf.confirms(h, p) {
            lemma_probe_hits_contains(d, h, p, conf, h);
            if d.contains(p) {
                let k = choose|k: int| 0 <= k < d.len() && d[k] == p;
                assert(ds[k] == ds[ds.len() - 1]);
            }
            if probe_hits(d, h, p, conf).len() > 0 {
                assert(probe_hits(d, h, p, conf).contains(probe_hits(d, h, p, conf)[0]));
                lemma_probe_hits_contains(d, h, p, conf, probe_hits(d, h, p, conf)[0]);
            }
        }
    }
}

/// Among distinct candidates and distinct members, each peer is asked
/// about each candidate at most once.
proof fn lemma_probe_wanted_distinct(cands: Seq<Seq<u8>>, members: Seq<Seq<u8>>, conf: HolderConfirmations, p: Seq<u8>)
    requires
        cands.no_duplicates(),
        members.no_duplicates(),
    ensures
        probe_wanted(cands, members, conf, p).no_duplicates(),
    decreases cands.len(),
{
    if cands.len() > 0 {
        let front = cands.drop_last();
        let h = cands.last();
        assert forall|i: int, j: int| 0 <= i < front.len() && 0 <= j < front.len() && i != j implies front[i] != front[j] by {
            assert(front[i] == cands[i] && front[j] == cands[j]);
        }
        lemma_probe_wanted_distinct(front, members, conf, p);
        let ds = ranked_peers(scored_members(h, members), 2);
        crate::placement::lemma_ranked_distinct(h, members, 2);
        lemma_probe_hits_single(ds, h, p, conf);
        let a = probe_wanted(front, members, conf, p);
        let b = probe_hits(ds, h, p, conf);
        if b.len() == 1 {
            assert(b.contains(b[0]));
            lemma_probe_hits_contains(ds, h, p, conf, b[0]);
            lemma_probe_wanted_contains(front, members, conf, p, h);
            if front.contains(h) {
                let k = choose|k: int| 0 <= k < front.len() && front[k] == h;
                assert(cands[k] == cands[cands.len() - 1]);
            }
        }
        assert forall|i: int, j: int| 0 <= i < (a + b).len() && 0 <= j < (a + b).len() && i != j implies (a + b)[i] != (a + b)[j] by {
            if i >= a.len() && j < a.len() {
                assert(a.contains(a[j]));
            } else if j >= a.len() && i < a.len() {
                assert(a.contains(a[i]));
            }
        }
    }
}

proof fn lemma_probe_wanted_contains(cands: Seq<Seq<u8>>, members: Seq<Seq<u8>>, conf: HolderConfirmations, p: Seq<u8>, x: Seq<u8>)
    ensures
        probe_wanted(cands, members, conf, p).contains(x) <==> (
            cands.contains(x) && ranked_peers(scored_members(x, members), 2).contains(p) && !conf.confirms(x, p)),
    decreases cands.len(),
{
    if cands.len() > 0 {
        let front = cands.drop_last();
        let h = cands.last();
        lemma_probe_wanted_contains(front, members, conf, p, x);
        lemma_probe_hits_contains(ranked_peers(scored_members(h, members), 2), h, p, conf, x);
        let a = probe_wanted(front, members, conf, p);
        let b = probe_hits(ranked_peers(scored_members(h, members), 2), h, p, conf);
        if (a + b).contains(x) {
            let k = choose|k: int| 0 <= k < (a + b).len() && (a + b)[k] == x;
            if k < a.len() {
                assert(a[k] == x);
            } else {
                assert(b[k - a.len()] == x);
            }
        }
        if a.contains(x) {
            let k = choose|k: int| 0 <= k < a.len() && a[k] == x;
            assert((a + b)[k] == x);
        }
        if b.contains(x) {
            let k = choose|k: int| 0 <= k < b.len() && b[k] == x;
            assert((a + b)[k + a.len()] == x);
        }
        if cands.contains(x) && !front.contains(x) {
            let k = choose|k: int| 0 <= k < cands.len() && cands[k] == x;
            if k < front.len() {
                assert(front[k] == x);
            }
        }
        if front.contains(x) {
            let k = choose|k: int| 0 <= k < front.len() && front[k] == x;
            assert(cands[k] == x);
        }
        if x == h {
            assert(cands[cands.len() - 1] == x);
        }
    }
}

/// The probes to send before dropping copies: the pinned chunks that a
/// reachable file needs but that this node is not a designated holder of
/// are the candidates; confirmations for anything else are forgotten (all
/// of them when there is no candidate); each designated holder that has
/// not confirmed a candidate is asked about it, in batches of at most
/// `MAX_HASHES_PER_PROBE`.
pub fn plan_probes(fs: &FileSystem, conf: &mut HolderConfirmations, reachable: &[ChunkHash], members: &[PeerKey], local: &PeerKey) -> (r: Vec<(PeerKey, Vec<Vec<ChunkHash>>)>)
    requires
        fs.wf(),
        old(conf).wf(),
    ensures
        final(conf).wf(),
        ({
            let candidate = |h: Seq<u8>| fs.storage().contents().contains_key(h) && fs.storage().contents()[h].1
                && hash_views(reachable@).contains(h) && !designates(h, peer_views(members@), local@);
            &&& forall|h: Seq<u8>| #[trigger] final(conf).tracks(h) <==> (old(conf).tracks(h) && candidate(h))
            &&& forall|h: Seq<u8>, p: Seq<u8>| #[trigger] final(conf).confirms(h, p) <==> (old(conf).confirms(h, p) && candidate(h))
            &&& forall|a: int, b: int| 0 <= a < r@.len() && 0 <= b < r@.len() && a != b ==> #[trigger] r@[a].0@ != #[trigger] r@[b].0@
            &&& forall|k: int, j: int| 0 <= k < r@.len() && 0 <= j < r@[k].1@.len() ==> 0 < (#[trigger] r@[k].1@[j])@.len() <= MAX_HASHES_PER_PROBE
            &&& forall|k: int, h: Seq<u8>| 0 <= k < r@.len() ==> (#[trigger] joined(r@[k].1@).contains(h) <==> (
                candidate(h)
                && ranked_peers(scored_members(h, peer_views(members@)), 2).contains(r@[k].0@)
                && !final(conf).confirms(h, r@[k].0@)))
            &&& forall|p: Seq<u8>, h: Seq<u8>| candidate(h) && #[trigger] ranked_peers(scored_members(h, peer_views(members@)), 2).contains(p) && !#[trigger] final(conf).confirms(h, p)
                ==> exists|k: int| 0 <= k < r@.len() && r@[k].0@ == p
        }),
        peer_views(members@).no_duplicates() ==> forall|k: int| 0 <= k < r@.len() ==> (#[trigger] joined(r@[k].1@)).no_duplicates(),
{
    let candidates = eviction_candidates(fs, reachable, members, local);
    let ghost cv = hash_views(candidates@);
    if candidates.len() == 0 {
        conf.clear();
        proof {
            assert forall|h: Seq<u8>| !(fs.storage().contents().contains_key(h) && fs.storage().contents()[h].1
                && hash_views(reachable@).contains(h) && !designates(h, peer_views(members@), local@)) by {
                if cv.contains(h) {
                    let k = choose|k: int| 0 <= k < cv.len() && cv[k] == h;
                }
            }
        }
        return Vec::new();
    }
    conf.retain_only(&candidates);
    let groups = probe_groups(&candidates, conf, members);
    let mut r: Vec<(PeerKey, Vec<Vec<ChunkHash>>)> = Vec::new();
    let mut i: usize = 0;
    while i < groups.len()
        invariant
            conf.wf(),
            0 <= i <= groups@.len(),
            r@.len() == i,
            group_peers(groups@).no_duplicates(),
            forall|k: int| 0 <= k < i ==> {
                &&& (#[trigger] r@[k]).0@ == groups@[k].0@
                &&& joined(r@[k].1@) == hash_views(groups@[k].1@)
                &&& forall|j: int| 0 <= j < r@[k].1@.len() ==> 0 < (#[trigger] r@[k].1@[j])@.len() <= MAX_HASHES_PER_PROBE
            },
        decreases groups@.len() - i,
    {
        let peer = groups[i].0.duplicate();
        let batches = split_batches(groups[i].1.as_slice(), MAX_HASHES_PER_PROBE);
        r.push((peer, batches));
        i = i + 1;
    }
    proof {
        let mv = peer_views(members@);
        if mv.no_duplicates() {
            assert forall|k: int| 0 <= k < r@.len() implies (#[trigger] joined(r@[k].1@)).no_duplicates() by {
                lemma_probe_wanted_distinct(cv, mv, *conf, groups@[k].0@);
            }
        }
        assert forall|a: int, b: int| 0 <= a < r@.len() && 0 <= b < r@.len() && a != b implies #[trigger] r@[a].0@ != #[trigger] r@[b].0@ by {
            assert(group_peers(groups@)[a] == groups@[a].0@);
            assert(group_peers(groups@)[b] == groups@[b].0@);
        }
        assert forall|k: int, h: Seq<u8>| 0 <= k < r@.len() implies (#[trigger] joined(r@[k].1@).contains(h) <==> (
            cv.contains(h)
            && ranked_peers(scored_members(h, mv), 2).contains(r@[k].0@)
            && !conf.confirms(h, r@[k].0@))) by {
            lemma_probe_wanted_contains(cv, mv, *conf, groups@[k].0@, h);
        }
        assert forall|p: Seq<u8>, h: Seq<u8>| cv.contains(h) && #[trigger] ranked_peers(scored_members(h, mv), 2).contains(p) && !#[trigger] conf.confirms(h, p)
            implies exists|k: int| 0 <= k < r@.len() && r@[k].0@ == p by {
            lemma_probe_wanted_contains(cv, mv, *conf, p, h);
            assert(probe_wanted(cv, mv, *conf, p).len() > 0);
            assert(group_peers(groups@).contains(p));
            let k = choose|k: int| 0 <= k < group_peers(groups@).len() && group_peers(groups@)[k] == p;
            assert(r@[k].0@ == p);
        }
    }
    r
}

/// How long, in milliseconds, between two periodic tree syncs.
pub const SYNC_INTERVAL_MILLIS: u64 = 15000;

/// Spreads local operations to all peers and merges the operations that
/// other peers spread.
pub struct GossipHandler;

impl GossipHandler {
    pub fn new() -> (r: GossipHandler) {
        GossipHandler
    }

    /// The message that spreads the operations.
    pub fn gossip_of(&self, operations: &[NodeOperation]) -> (r: Gossip)
        ensures
            op_views(r.operations@) == op_views(operations@),
    {
        let mut ops: Vec<NodeOperation> = Vec::new();
        let mut i: usize = 0;
        while i < operations.len()
            invariant
                0 <= i <= operations@.len(),
                op_views(ops@) == op_views(operations@).take(i as int),
            decreases operations@.len() - i,
        {
            let ghost o0 = op_views(ops@);
            let op = operations[i].duplicate();
            ops.push(op);
            proof {
                assert(op_views(ops@) =~= o0.push(op@));
                assert(op_views(operations@).take(i + 1) =~= op_views(operations@).take(i as int).push(operations@[i as int]@));
            }
            i = i + 1;
        }
        proof {
            assert(op_views(operations@).take(i as int) =~= op_views(operations@));
        }
        Gossip { operations: ops }
    }

    /// Merges a received message into the file system: afterwards every
    /// received operation's timestamp is logged and nothing logged is lost.
    pub fn apply_gossip(&self, fs: &mut FileSystem, gossip: Gossip)
        requires
            old(fs).wf(),
        ensures
            final(fs).wf(),
            final(fs).storage() == old(fs).storage(),
            forall|i: int| 0 <= i < gossip.operations@.len() ==> #[trigger] crate::tree::timestamp_taken(final(fs).tree().log(), gossip.operations@[i]@),
            forall|x: crate::tree::OpView| old(fs).tree().log().contains(x) ==> #[trigger] final(fs).tree().log().contains(x),
            crate::tree::merges(old(fs).tree().log(), op_views(gossip.operations@), final(fs).tree().log()),
    {
        fs.apply_operations(gossip.operations);
    }
}

/// Dials the peers that local discovery finds.
pub struct MdnsHandler;

impl MdnsHandler {
    pub fn new() -> (r: MdnsHandler) {
        MdnsHandler
    }

    /// The positions, in order, of the discovered peers to dial: those
    /// that are neither this node nor already connected.
    pub fn peers_to_dial(&self, discovered: &[PeerKey], local: &PeerKey, connected: &[PeerKey]) -> (r: Vec<usize>)
        ensures
            forall|k: int| 0 <= k < r@.len() ==> (#[trigger] r@[k]) < discovered@.len(),
            forall|a: int, b: int| 0 <= a < b < r@.len() ==> #[trigger] r@[a] < #[trigger] r@[b],
            forall|i: int| 0 <= i < discovered@.len() ==> (r@.contains(i as usize) <==> (
                discovered@[i]@ != local@ && !peer_views(connected@).contains(#[trigger] discovered@[i]@))),
    {
        let mut r: Vec<usize> = Vec::new();
        let mut i: usize = 0;
        while i < discovered.len()
            invariant
                0 <= i <= discovered@.len(),
                forall|k: int| 0 <= k < r@.len() ==> (#[trigger] r@[k]) < i,
                forall|a: int, b: int| 0 <= a < b < r@.len() ==> #[trigger] r@[a] < #[trigger] r@[b],
                forall|j: int| 0 <= j < i ==> (r@.contains(j as usize) <==> (
                    discovered@[j]@ != local@ && !peer_views(connected@).contains(#[trigger] discovered@[j]@))),
            decreases discovered@.len() - i,
        {
            let ghost r0 = r@;
            if !discovered[i].same(local) && !crate::placement::is_listed(&discovered[i], connected) {
                r.push(i);
                proof {
                    assert(r@[r0.len() as int] == i);
                    assert forall|j: int| 0 <= j < i + 1 implies (r@.contains(j as usize) <==> (
                        discovered@[j]@ != local@ && !peer_views(connected@).contains(#[trigger] discovered@[j]@))) by {
                        if r@.contains(j as usize) && j < i {
                            let k = choose|k: int| 0 <= k < r@.len() && r@[k] == j as usize;
                            assert(k < r0.len());
                            assert(r0.contains(j as usize));
                        }
                        if j < i && r0.contains(j as usize) {
                            let k = choose|k: int| 0 <= k < r0.len() && r0[k] == j as usize;
                            assert(r@[k] == j as usize);
                        }
                    }
                }
            } else {
                proof {
                    assert(!r@.contains(i)) by {
                        if r@.contains(i) {
                            let k = choose|k: int| 0 <= k < r@.len() && r@[k] == i;
                        }
                    }
                }
            }
            i = i + 1;
        }
        r
    }
}

/// Pulls the operations that a peer has and this node lacks: from each
/// newly connected peer, and from one connected peer every
/// `SYNC_INTERVAL_MILLIS`.
pub struct SyncHandler {
    last_sync: u64,
}

impl SyncHandler {
    /// The time of the last periodic sync, in milliseconds.
    pub closed spec fn last_sync(&self) -> u64 {
        self.last_sync
    }

    /// A handler whose clock starts at `now`.
    pub fn new(now: u64) -> (r: SyncHandler)
        ensures
            r.last_sync() == now,
    {
        SyncHandler { last_sync: now }
    }

    /// Whether a periodic sync is due at `now`; when it is, the clock
    /// restarts at `now`.
    pub fn tick(&mut self, now: u64) -> (r: bool)
        ensures
            r == (now >= old(self).last_sync() && now - old(self).last_sync() >= SYNC_INTERVAL_MILLIS),
            final(self).last_sync() == if r { now } else { old(self).last_sync() },
    {
        if now >= self.last_sync && now - self.last_sync >= SYNC_INTERVAL_MILLIS {
            self.last_sync = now;
            true
        } else {
            false
        }
    }

    /// Whether a connection triggers a sync: only the first one to a peer.
    pub fn syncs_on_connection(&self, num_established: u32) -> (r: bool)
        ensures
            r == (num_established == 1),
    {
        num_established == 1
    }

    /// Which of `count` connected peers to sync with, from a random number.
    pub fn pick_peer(&self, count: usize, random: u64) -> (r: usize)
        requires
            count > 0,
        ensures
            r < count,
            r == random % (count as u64),
    {
        (random % (count as u64)) as usize
    }

    /// The request that pulls what a peer has and this node lacks: the
    /// ids of every logged operation.
    pub fn sync_request(&self, fs: &FileSystem) -> (r: Request)
        ensures
            r matches Request::PullMissingOperations { known_ids } && known_ids@.len() == fs.tree().log().len()
                && forall|i: int| 0 <= i < known_ids@.len() ==> #[trigger] crate::tree::id_view(known_ids@[i]) == crate::tree::op_id(fs.tree().log()[i]),
    {
        Request::PullMissingOperations { known_ids: fs.operation_ids() }
    }

    /// Merges the operations a peer sent back; nothing happens when there
    /// are none.
    pub fn apply_operations(&self, fs: &mut FileSystem, operations: Vec<NodeOperation>)
        requires
            old(fs).wf(),
        ensures
            final(fs).wf(),
            final(fs).storage() == old(fs).storage(),
            operations@.len() == 0 ==> *final(fs) == *old(fs),
            forall|i: int| 0 <= i < operations@.len() ==> #[trigger] crate::tree::timestamp_taken(final(fs).tree().log(), operations@[i]@),
            forall|x: crate::tree::OpView| old(fs).tree().log().contains(x) ==> #[trigger] final(fs).tree().log().contains(x),
            crate::tree::merges(old(fs).tree().log(), op_views(operations@), final(fs).tree().log()),
    {
        if operations.len() > 0 {
            fs.apply_operations(operations);
        }
    }
}

/// The most operations one broadcast carries.
pub const MAX_BATCH_OPERATIONS: usize = 64;

/// The operation batches joined back into one list.
pub open spec fn joined_operations(bs: Seq<Vec<NodeOperation>>) -> Seq<crate::tree::OpView>
    decreases bs.len(),
{
    if bs.len() == 0 {
        Seq::empty()
    } else {
        joined_operations(bs.drop_last()) + op_views(bs.last()@)
    }
}

/// The operations cut into consecutive broadcasts of `size` operations,
/// the last one possibly shorter; nothing for no operation.
pub fn split_operations(operations: Vec<NodeOperation>, size: usize) -> (r: Vec<Vec<NodeOperation>>)
    requires
        size > 0,
    ensures
        joined_operations(r@) == op_views(operations@),
        forall|k: int| 0 <= k < r@.len() ==> 0 < (#[trigger] r@[k])@.len() <= size,
        forall|k: int| 0 <= k < r@.len() - 1 ==> (#[trigger] r@[k])@.len() == size,
{
    let mut r: Vec<Vec<NodeOperation>> = Vec::new();
    let mut start: usize = 0;
    let ghost ov = op_views(operations@);
    proof {
        assert(ov.take(0) =~= joined_operations(r@));
    }
    while start < operations.len()
        invariant
            size > 0,
            ov == op_views(operations@),
            start <= operations@.len(),
            joined_operations(r@) == ov.take(start as int),
            forall|k: int| 0 <= k < r@.len() ==> 0 < (#[trigger] r@[k])@.len() <= size,
            forall|k: int| 0 <= k < r@.len() - 1 ==> (#[trigger] r@[k])@.len() == size,
            r@.len() > 0 && r@[r@.len() - 1]@.len() < size ==> start == operations@.len(),
        decreases operations@.len() - start,
    {
        let end = if operations.len() - start > size { start + size } else { operations.len() };
        let mut batch: Vec<NodeOperation> = Vec::new();
        let mut i: usize = start;
        while i < end
            invariant
                start <= i <= end,
                end <= operations@.len(),
                ov == op_views(operations@),
                batch@.len() == i - start,
                op_views(batch@) == ov.subrange(start as int, i as int),
            decreases end - i,
        {
            let ghost b0 = op_views(batch@);
            let op = operations[i].duplicate();
            batch.push(op);
            proof {
                assert(op_views(batch@) =~= b0.push(ov[i as int]));
                assert(ov.subrange(start as int, i + 1) =~= ov.subrange(start as int, i as int).push(ov[i as int]));
            }
            i = i + 1;
        }
        let ghost r0 = r@;
        r.push(batch);
        proof {
            assert(r@.drop_last() =~= r0);
            assert(ov.take(end as int) =~= ov.take(start as int) + ov.subrange(start as int, end as int));
            assert forall|k: int| 0 <= k < r@.len() - 1 implies (#[trigger] r@[k])@.len() == size by {
                if k == r0.len() - 1 {
                    assert(r0[k]@.len() == size);
                }
            }
        }
        start = end;
    }
    proof {
        assert(ov.take(start as int) =~= ov);
    }
    r
}

} // verus!
