use std::collections::HashMap;
use vstd::prelude::*;

use crate::digest::{sha256, sha256_digest};
use crate::domain::ChunkHash;
use crate::filesystem::FileSystem;
use crate::network::MAX_FETCH_TARGETS;
use crate::placement::{next_targets, peer_views, ranked_peers, scored_members, untried};
use crate::storage::pin_cost;
use crate::tree::PeerKey;

verus! {

broadcast use vstd::std_specs::hash::group_hash_axioms;

/// How long, in milliseconds, a chunk that could not be fetched or pinned
/// is left alone.
pub const CHUNK_FETCH_BACKOFF_MILLIS: u64 = 5000;

/// A fetch in progress, seen as values: who waits for the chunk, which
/// requests are out and to which peers, which peers were asked, and
/// whether the chunk is to be pinned.
pub ghost struct SessionView {
    pub waiters: Seq<u64>,
    pub attempts: Seq<(u64, Seq<u8>)>,
    pub tried: Seq<Seq<u8>>,
    pub pin: bool,
}

/// A fetch in progress for one chunk.
struct FetchSession {
    hash: ChunkHash,
    waiters: Vec<u64>,
    attempts: Vec<(u64, PeerKey)>,
    tried: Vec<PeerKey>,
    pin: bool,
}

/// The requests of a session, seen as values.
pub open spec fn attempt_views(s: Seq<(u64, PeerKey)>) -> Seq<(u64, Seq<u8>)> {
    s.map_values(|a: (u64, PeerKey)| (a.0, a.1@))
}

spec fn session_view(s: FetchSession) -> SessionView {
    SessionView {
        waiters: s.waiters@,
        attempts: attempt_views(s.attempts@),
        tried: peer_views(s.tried@),
        pin: s.pin,
    }
}

/// The requests without the one with this id.
pub open spec fn without_attempt(s: Seq<(u64, Seq<u8>)>, id: u64) -> Seq<(u64, Seq<u8>)>
    decreases s.len(),
{
    if s.len() == 0 {
        Seq::empty()
    } else {
        let rest = without_attempt(s.drop_last(), id);
        if s.last().0 == id {
            rest
        } else {
            rest.push(s.last())
        }
    }
}

/// Fetch bookkeeping after a session ends without the chunk: its waiters
/// get nothing, and a chunk meant to be pinned is left alone for a while.
pub ghost struct FetchView {
    pub sessions: Map<Seq<u8>, SessionView>,
    pub requests: Map<u64, Seq<u8>>,
    pub blocked: Map<Seq<u8>, u64>,
}

/// The replies owed to the waiters: the same answer for each.
pub open spec fn answers(waiters: Seq<u64>, data: Option<Seq<u8>>) -> Seq<(u64, Option<Seq<u8>>)> {
    waiters.map_values(|w: u64| (w, data))
}

/// What a step of the fetcher asks of the node: answers for waiters, and
/// pull requests to send, each to be recorded once sent.
pub struct FetchStep {
    pub replies: Vec<(u64, Option<Vec<u8>>)>,
    pub requests: Vec<(PeerKey, ChunkHash)>,
}

/// The replies, seen as values.
pub open spec fn reply_views(s: Seq<(u64, Option<Vec<u8>>)>) -> Seq<(u64, Option<Seq<u8>>)> {
    s.map_values(|r: (u64, Option<Vec<u8>>)| (r.0, match r.1 { Some(d) => Some(d@), None => None }))
}

/// The requests to send, seen as values.
pub open spec fn request_views(s: Seq<(PeerKey, ChunkHash)>) -> Seq<(Seq<u8>, Seq<u8>)> {
    s.map_values(|r: (PeerKey, ChunkHash)| (r.0@, r.1@))
}

/// The peers to ask next for the chunk of a session.
pub open spec fn targets_for(h: Seq<u8>, connected: Seq<Seq<u8>>, s: SessionView) -> Seq<Seq<u8>> {
    untried(ranked_peers(scored_members(h, connected), connected.len() as int), s.tried, MAX_FETCH_TARGETS as int)
}

/// The chunk is left alone at `now`.
pub open spec fn is_blocked_at(v: FetchView, h: Seq<u8>, now: u64) -> bool {
    v.blocked.contains_key(h) && v.blocked[h] > now
}

/// The backoff deadline from `now`.
pub open spec fn backoff_from(now: u64) -> u64 {
    if now as int + CHUNK_FETCH_BACKOFF_MILLIS as int > u64::MAX { u64::MAX } else { (now + CHUNK_FETCH_BACKOFF_MILLIS) as u64 }
}

/// Asking peers for a session's chunk: the next untried connected peers in
/// ranking order; when none is left, the session ends, its waiters get
/// nothing, and a chunk meant to be pinned is left alone for a while.
pub open spec fn walk_down_spec(v: FetchView, h: Seq<u8>, now: u64, connected: Seq<Seq<u8>>) -> (FetchView, Seq<(u64, Option<Seq<u8>>)>, Seq<(Seq<u8>, Seq<u8>)>) {
    if !v.sessions.contains_key(h) {
        (v, Seq::empty(), Seq::empty())
    } else {
        let s = v.sessions[h];
        let targets = targets_for(h, connected, s);
        if targets.len() == 0 {
            (FetchView {
                sessions: v.sessions.remove(h),
                requests: v.requests,
                blocked: if s.pin { v.blocked.insert(h, backoff_from(now)) } else { v.blocked },
            }, answers(s.waiters, None), Seq::empty())
        } else {
            (v, Seq::empty(), targets.map_values(|p: Seq<u8>| (p, h)))
        }
    }
}

/// The session after a request for its chunk went out to `peer` under
/// `id`.
pub open spec fn with_attempt(s: SessionView, id: u64, peer: Seq<u8>) -> SessionView {
    SessionView {
        attempts: without_attempt(s.attempts, id).push((id, peer)),
        tried: if s.tried.contains(peer) { s.tried } else { s.tried.push(peer) },
        ..s
    }
}

/// The bookkeeping after a request for a chunk went out.
pub open spec fn record_spec(v: FetchView, h: Seq<u8>, id: u64, peer: Seq<u8>) -> FetchView {
    FetchView {
        sessions: if v.sessions.contains_key(h) { v.sessions.insert(h, with_attempt(v.sessions[h], id, peer)) } else { v.sessions },
        requests: v.requests.insert(id, h),
        blocked: v.blocked,
    }
}

/// A request for a session's chunk failed: it is dropped, and once no
/// request is out the next peers are asked.
pub open spec fn attempt_failed_spec(v: FetchView, h: Seq<u8>, id: u64, now: u64, connected: Seq<Seq<u8>>) -> (FetchView, Seq<(u64, Option<Seq<u8>>)>, Seq<(Seq<u8>, Seq<u8>)>) {
    if !v.sessions.contains_key(h) {
        (v, Seq::empty(), Seq::empty())
    } else {
        let s = v.sessions[h];
        let s1 = SessionView { attempts: without_attempt(s.attempts, id), ..s };
        let v1 = FetchView { sessions: v.sessions.insert(h, s1), ..v };
        if s1.attempts.len() > 0 {
            (v1, Seq::empty(), Seq::empty())
        } else {
            walk_down_spec(v1, h, now, connected)
        }
    }
}

/// A request failed or timed out.
pub open spec fn failure_spec(v: FetchView, id: u64, now: u64, connected: Seq<Seq<u8>>) -> (FetchView, Seq<(u64, Option<Seq<u8>>)>, Seq<(Seq<u8>, Seq<u8>)>) {
    if !v.requests.contains_key(id) {
        (v, Seq::empty(), Seq::empty())
    } else {
        attempt_failed_spec(FetchView { requests: v.requests.remove(id), ..v }, v.requests[id], id, now, connected)
    }
}

/// The node asks for a chunk: a fetch in progress takes the waiter on, and
/// pins if either asks to; a chunk left alone is not fetched unless it is
/// to be pinned; otherwise a session starts and the first peers are asked.
pub open spec fn fetch_spec(v: FetchView, h: Seq<u8>, waiter: Option<u64>, pin: bool, now: u64, connected: Seq<Seq<u8>>) -> (FetchView, Seq<(u64, Option<Seq<u8>>)>, Seq<(Seq<u8>, Seq<u8>)>) {
    let ws = match waiter { Some(w) => seq![w], None => Seq::<u64>::empty() };
    if v.sessions.contains_key(h) {
        let s = v.sessions[h];
        (FetchView { sessions: v.sessions.insert(h, SessionView { waiters: s.waiters + ws, pin: s.pin || pin, ..s }), ..v }, Seq::empty(), Seq::empty())
    } else if !pin && is_blocked_at(v, h, now) {
        (v, answers(ws, None), Seq::empty())
    } else {
        walk_down_spec(
            FetchView { sessions: v.sessions.insert(h, SessionView { waiters: ws, attempts: Seq::empty(), tried: Seq::empty(), pin }), ..v },
            h,
            now,
            connected,
        )
    }
}

/// The requests to drop when a session ends: its own.
pub open spec fn without_requests(requests: Map<u64, Seq<u8>>, attempts: Seq<(u64, Seq<u8>)>) -> Map<u64, Seq<u8>> {
    requests.remove_keys(attempts.map_values(|a: (u64, Seq<u8>)| a.0).to_set())
}

/// Chunk fetches in progress: at most one session per chunk, the requests
/// that are out, and the chunks left alone until a deadline.
pub struct ChunkFetcher {
    sessions: Vec<FetchSession>,
    requests: HashMap<u64, ChunkHash>,
    blocked_until: Vec<(ChunkHash, u64)>,
}

impl ChunkFetcher {
    spec fn session_map(&self) -> Map<Seq<u8>, SessionView> {
        Map::new(
            |h: Seq<u8>| exists|i: int| 0 <= i < self.sessions@.len() && #[trigger] self.sessions@[i].hash@ == h,
            |h: Seq<u8>| session_view(self.sessions@[choose|i: int| 0 <= i < self.sessions@.len() && #[trigger] self.sessions@[i].hash@ == h]),
        )
    }

    spec fn blocked_map(&self) -> Map<Seq<u8>, u64> {
        Map::new(
            |h: Seq<u8>| exists|i: int| 0 <= i < self.blocked_until@.len() && #[trigger] self.blocked_until@[i].0@ == h,
            |h: Seq<u8>| self.blocked_until@[choose|i: int| 0 <= i < self.blocked_until@.len() && #[trigger] self.blocked_until@[i].0@ == h].1,
        )
    }

    /// The fetcher seen as values.
    pub closed spec fn view(&self) -> FetchView {
        FetchView {
            sessions: self.session_map(),
            requests: self.requests@.map_values(|h: ChunkHash| h@),
            blocked: self.blocked_map(),
        }
    }

    /// One session per chunk, one deadline per chunk, and the ids of a
    /// session's requests distinct.
    pub closed spec fn wf(&self) -> bool {
        &&& forall|a: int, b: int| 0 <= a < self.sessions@.len() && 0 <= b < self.sessions@.len() && a != b ==> #[trigger] self.sessions@[a].hash@ != #[trigger] self.sessions@[b].hash@
        &&& forall|a: int, b: int| 0 <= a < self.blocked_until@.len() && 0 <= b < self.blocked_until@.len() && a != b ==> #[trigger] self.blocked_until@[a].0@ != #[trigger] self.blocked_until@[b].0@
    }

    proof fn lemma_session_at(&self, i: int)
        requires
            self.wf(),
            0 <= i < self.sessions@.len(),
        ensures
            self.view().sessions.contains_key(self.sessions@[i].hash@),
            self.view().sessions[self.sessions@[i].hash@] == session_view(self.sessions@[i]),
    {
        let h = self.sessions@[i].hash@;
        assert(self.session_map().dom().contains(h));
        let j = choose|j: int| 0 <= j < self.sessions@.len() && #[trigger] self.sessions@[j].hash@ == h;
        assert(j == i);
    }

    proof fn lemma_blocked_at(&self, i: int)
        requires
            self.wf(),
            0 <= i < self.blocked_until@.len(),
        ensures
            self.view().blocked.contains_key(self.blocked_until@[i].0@),
            self.view().blocked[self.blocked_until@[i].0@] == self.blocked_until@[i].1,
    {
        let h = self.blocked_until@[i].0@;
        assert(self.blocked_map().dom().contains(h));
        let j = choose|j: int| 0 <= j < self.blocked_until@.len() && #[trigger] self.blocked_until@[j].0@ == h;
        assert(j == i);
    }

    /// No fetch in progress and nothing left alone.
    pub fn new() -> (r: ChunkFetcher)
        ensures
            r.wf(),
            r.view().sessions == Map::<Seq<u8>, SessionView>::empty(),
            r.view().requests == Map::<u64, Seq<u8>>::empty(),
            r.view().blocked == Map::<Seq<u8>, u64>::empty(),
    {
        let r = ChunkFetcher { sessions: Vec::new(), requests: HashMap::new(), blocked_until: Vec::new() };
        proof {
            assert(r.view().sessions =~= Map::<Seq<u8>, SessionView>::empty());
            assert(r.view().requests =~= Map::<u64, Seq<u8>>::empty());
            assert(r.view().blocked =~= Map::<Seq<u8>, u64>::empty());
        }
        r
    }

    /// The position of the session for the chunk, if there is one.
    fn find_session(&self, hash: &ChunkHash) -> (r: Option<usize>)
        requires
            self.wf(),
        ensures
            match r {
                Some(i) => i < self.sessions@.len() && self.sessions@[i as int].hash@ == hash@,
                None => !self.view().sessions.contains_key(hash@),
            },
    {
        let mut i: usize = 0;
        while i < self.sessions.len()
            invariant
                0 <= i <= self.sessions@.len(),
                forall|k: int| 0 <= k < i ==> self.sessions@[k].hash@ != hash@,
            decreases self.sessions@.len() - i,
        {
            if self.sessions[i].hash.same(hash) {
                return Some(i);
            }
            i = i + 1;
        }
        None
    }

    /// Whether the chunk is left alone at `now`.
    pub fn is_blocked(&self, hash: &ChunkHash, now: u64) -> (r: bool)
        requires
            self.wf(),
        ensures
            r == is_blocked_at(self.view(), hash@, now),
    {
        let mut i: usize = 0;
        while i < self.blocked_until.len()
            invariant
                self.wf(),
                0 <= i <= self.blocked_until@.len(),
                forall|k: int| 0 <= k < i ==> self.blocked_until@[k].0@ != hash@,
            decreases self.blocked_until@.len() - i,
        {
            if self.blocked_until[i].0.same(hash) {
                proof {
                    self.lemma_blocked_at(i as int);
                }
                return self.blocked_until[i].1 > now;
            }
            i = i + 1;
        }
        false
    }

    /// Leaves the chunk alone until `until`.
    fn block(&mut self, hash: &ChunkHash, until: u64)
        requires
            old(self).wf(),
        ensures
            final(self).wf(),
            final(self).view() == (FetchView { blocked: old(self).view().blocked.insert(hash@, until), ..old(self).view() }),
    {
        let ghost b0 = self.blocked_until@;
        let mut i: usize = 0;
        while i < self.blocked_until.len()
            invariant
                self.wf(),
                old(self).wf(),
                old(self).blocked_until@ == b0,
                self.blocked_until@ == b0,
                self.view() == old(self).view(),
                0 <= i <= self.blocked_until@.len(),
                forall|k: int| 0 <= k < i ==> self.blocked_until@[k].0@ != hash@,
            decreases self.blocked_until@.len() - i,
        {
            if self.blocked_until[i].0.same(hash) {
                self.blocked_until.set(i, (*hash, until));
                proof {
                    assert(self.blocked_until@ =~= b0.update(i as int, (*hash, until)));
                    assert(self.view().sessions =~= old(self).view().sessions);
                    assert(self.view().requests =~= old(self).view().requests);
                    assert forall|a: int, b: int| 0 <= a < self.blocked_until@.len() && 0 <= b < self.blocked_until@.len() && a != b implies #[trigger] self.blocked_until@[a].0@ != #[trigger] self.blocked_until@[b].0@ by {
                        assert(self.blocked_until@[a].0@ == b0[a].0@);
                        assert(self.blocked_until@[b].0@ == b0[b].0@);
                    }
                    assert forall|h: Seq<u8>| #[trigger] self.blocked_map().contains_key(h) <==> old(self).view().blocked.insert(hash@, until).contains_key(h) by {
                        if self.blocked_map().contains_key(h) {
                            let k = choose|k: int| 0 <= k < self.blocked_until@.len() && #[trigger] self.blocked_until@[k].0@ == h;
                            if h != hash@ {
                                assert(b0[k].0@ == h);
                                assert(old(self).blocked_map().contains_key(h));
                            }
                        }
                        if old(self).view().blocked.contains_key(h) && h != hash@ {
                            let k = choose|k: int| 0 <= k < b0.len() && #[trigger] b0[k].0@ == h;
                            assert(self.blocked_until@[k].0@ == h);
                        }
                        if h == hash@ {
                            assert(self.blocked_until@[i as int].0@ == h);
                        }
                    }
                    assert forall|h: Seq<u8>| #[trigger] self.blocked_map().contains_key(h) implies self.blocked_map()[h] == old(self).view().blocked.insert(hash@, until)[h] by {
                        let k = choose|k: int| 0 <= k < self.blocked_until@.len() && #[trigger] self.blocked_until@[k].0@ == h;
                        self.lemma_blocked_at(k);
                        if h != hash@ {
                            old(self).lemma_blocked_at(k);
                        }
                    }
                    assert(self.blocked_map() =~= old(self).view().blocked.insert(hash@, until));
                }
                return;
            }
            i = i + 1;
        }
        self.blocked_until.push((*hash, until));
        proof {
            let n = b0.len() as int;
            assert(self.blocked_until@ =~= b0.push((*hash, until)));
            assert(self.view().sessions =~= old(self).view().sessions);
            assert(self.view().requests =~= old(self).view().requests);
            assert forall|a: int, b: int| 0 <= a < self.blocked_until@.len() && 0 <= b < self.blocked_until@.len() && a != b implies #[trigger] self.blocked_until@[a].0@ != #[trigger] self.blocked_until@[b].0@ by {
                if a < n && b < n {
                    assert(self.blocked_until@[a] == b0[a]);
                    assert(self.blocked_until@[b] == b0[b]);
                }
            }
            assert forall|h: Seq<u8>| #[trigger] self.blocked_map().contains_key(h) <==> old(self).view().blocked.insert(hash@, until).contains_key(h) by {
                if self.blocked_map().contains_key(h) {
                    let k = choose|k: int| 0 <= k < self.blocked_until@.len() && #[trigger] self.blocked_until@[k].0@ == h;
                    if k < n {
                        assert(b0[k].0@ == h);
                        assert(old(self).blocked_map().contains_key(h));
                    }
                }
                if old(self).view().blocked.contains_key(h) {
                    let k = choose|k: int| 0 <= k < b0.len() && #[trigger] b0[k].0@ == h;
                    assert(self.blocked_until@[k].0@ == h);
                }
                if h == hash@ {
                    assert(self.blocked_until@[n].0@ == h);
                }
            }
            assert forall|h: Seq<u8>| #[trigger] self.blocked_map().contains_key(h) implies self.blocked_map()[h] == old(self).view().blocked.insert(hash@, until)[h] by {
                let k = choose|k: int| 0 <= k < self.blocked_until@.len() && #[trigger] self.blocked_until@[k].0@ == h;
                self.lemma_blocked_at(k);
                if k < n {
                    old(self).lemma_blocked_at(k);
                }
            }
            assert(self.blocked_map() =~= old(self).view().blocked.insert(hash@, until));
        }
    }

    /// Takes the session at position `i` out.
    fn take_session(&mut self, i: usize) -> (s: FetchSession)
        requires
            old(self).wf(),
            i < old(self).sessions@.len(),
        ensures
            final(self).wf(),
            s.hash@ == old(self).sessions@[i as int].hash@,
            old(self).view().sessions.contains_key(s.hash@),
            session_view(s) == old(self).view().sessions[s.hash@],
            final(self).view() == (FetchView { sessions: old(self).view().sessions.remove(s.hash@), ..old(self).view() }),
    {
        proof {
            self.lemma_session_at(i as int);
        }
        let ghost s0 = self.sessions@;
        let s = self.sessions.remove(i);
        proof {
            let h = s.hash@;
            assert(self.sessions@ =~= s0.remove(i as int));
            assert forall|a: int, b: int| 0 <= a < self.sessions@.len() && 0 <= b < self.sessions@.len() && a != b implies #[trigger] self.sessions@[a].hash@ != #[trigger] self.sessions@[b].hash@ by {
                let a0 = if a < i { a } else { a + 1 };
                let b0 = if b < i { b } else { b + 1 };
                assert(self.sessions@[a] == s0[a0]);
                assert(self.sessions@[b] == s0[b0]);
            }
            assert forall|x: Seq<u8>| #[trigger] self.session_map().contains_key(x) <==> old(self).view().sessions.remove(h).contains_key(x) by {
                if self.session_map().contains_key(x) {
                    let k = choose|k: int| 0 <= k < self.sessions@.len() && #[trigger] self.sessions@[k].hash@ == x;
                    let k0 = if k < i { k } else { k + 1 };
                    assert(s0[k0].hash@ == x);
                    assert(old(self).session_map().contains_key(x));
                    assert(k0 != i);
                }
                if old(self).view().sessions.contains_key(x) && x != h {
                    let k = choose|k: int| 0 <= k < s0.len() && #[trigger] s0[k].hash@ == x;
                    assert(k != i);
                    let k1 = if k < i { k } else { k - 1 };
                    assert(self.sessions@[k1].hash@ == x);
                }
            }
            assert forall|x: Seq<u8>| #[trigger] self.session_map().contains_key(x) implies self.session_map()[x] == old(self).view().sessions.remove(h)[x] by {
                let k = choose|k: int| 0 <= k < self.sessions@.len() && #[trigger] self.sessions@[k].hash@ == x;
                self.lemma_session_at(k);
                let k0 = if k < i { k } else { k + 1 };
                assert(self.sessions@[k] == s0[k0]);
                old(self).lemma_session_at(k0);
            }
            assert(self.session_map() =~= old(self).view().sessions.remove(h));
            assert(self.view().requests =~= old(self).view().requests);
            assert(self.view().blocked =~= old(self).view().blocked);
        }
        s
    }

    /// Adds a session for a chunk that has none.
    fn put_session(&mut self, s: FetchSession)
        requires
            old(self).wf(),
            !old(self).view().sessions.contains_key(s.hash@),
        ensures
            final(self).wf(),
            final(self).view() == (FetchView { sessions: old(self).view().sessions.insert(s.hash@, session_view(s)), ..old(self).view() }),
    {
        let ghost s0 = self.sessions@;
        let ghost h = s.hash@;
        let ghost sv = session_view(s);
        self.sessions.push(s);
        proof {
            let n = s0.len() as int;
            assert(self.sessions@ =~= s0.push(s));
            assert forall|a: int, b: int| 0 <= a < self.sessions@.len() && 0 <= b < self.sessions@.len() && a != b implies #[trigger] self.sessions@[a].hash@ != #[trigger] self.sessions@[b].hash@ by {
                if a < n && b < n {
                    assert(self.sessions@[a] == s0[a]);
                    assert(self.sessions@[b] == s0[b]);
                } else if a < n {
                    assert(self.sessions@[a] == s0[a]);
                    assert(old(self).session_map().contains_key(s0[a].hash@));
                } else {
                    assert(self.sessions@[b] == s0[b]);
                    assert(old(self).session_map().contains_key(s0[b].hash@));
                }
            }
            assert forall|x: Seq<u8>| #[trigger] self.session_map().contains_key(x) <==> old(self).view().sessions.insert(h, sv).contains_key(x) by {
                if self.session_map().contains_key(x) {
                    let k = choose|k: int| 0 <= k < self.sessions@.len() && #[trigger] self.sessions@[k].hash@ == x;
                    if k < n {
                        assert(s0[k].hash@ == x);
                        assert(old(self).session_map().contains_key(x));
                    }
                }
                if old(self).view().sessions.contains_key(x) {
                    let k = choose|k: int| 0 <= k < s0.len() && #[trigger] s0[k].hash@ == x;
                    assert(self.sessions@[k].hash@ == x);
                }
                if x == h {
                    assert(self.sessions@[n].hash@ == x);
                }
            }
            assert forall|x: Seq<u8>| #[trigger] self.session_map().contains_key(x) implies self.session_map()[x] == old(self).view().sessions.insert(h, sv)[x] by {
                let k = choose|k: int| 0 <= k < self.sessions@.len() && #[trigger] self.sessions@[k].hash@ == x;
                self.lemma_session_at(k);
                if k < n {
                    assert(self.sessions@[k] == s0[k]);
                    old(self).lemma_session_at(k);
                }
            }
            assert(self.session_map() =~= old(self).view().sessions.insert(h, sv));
            assert(self.view().requests =~= old(self).view().requests);
            assert(self.view().blocked =~= old(self).view().blocked);
        }
    }

    /// Asks the next peers for the chunk of a session, or ends the session
    /// when no untried peer is left.
    fn walk_down(&mut self, hash: &ChunkHash, now: u64, connected: &[PeerKey]) -> (r: FetchStep)
        requires
            old(self).wf(),
        ensures
            final(self).wf(),
            ({
                let (v, replies, reqs) = walk_down_spec(old(self).view(), hash@, now, peer_views(connected@));
                &&& final(self).view() == v
                &&& reply_views(r.replies@) == replies
                &&& request_views(r.requests@) == reqs
            }),
    {
        let i = match self.find_session(hash) {
            Some(i) => i,
            None => {
                let r = FetchStep { replies: Vec::new(), requests: Vec::new() };
                proof {
                    assert(reply_views(r.replies@) =~= Seq::<(u64, Option<Seq<u8>>)>::empty());
                    assert(request_views(r.requests@) =~= Seq::<(Seq<u8>, Seq<u8>)>::empty());
                }
                return r;
            },
        };
        proof {
            self.lemma_session_at(i as int);
        }
        let targets = next_targets(hash, connected, self.sessions[i].tried.as_slice(), MAX_FETCH_TARGETS);
        if targets.len() == 0 {
            let s = self.take_session(i);
            let mut replies: Vec<(u64, Option<Vec<u8>>)> = Vec::new();
            let mut k: usize = 0;
            while k < s.waiters.len()
                invariant
                    0 <= k <= s.waiters@.len(),
                    reply_views(replies@) == answers(s.waiters@.take(k as int), None),
                decreases s.waiters@.len() - k,
            {
                let ghost r0 = reply_views(replies@);
                replies.push((s.waiters[k], None));
                proof {
                    assert(reply_views(replies@) =~= r0.push((s.waiters@[k as int], None)));
                    assert(answers(s.waiters@.take(k + 1), None) =~= answers(s.waiters@.take(k as int), None).push((s.waiters@[k as int], None)));
                }
                k = k + 1;
            }
            proof {
                assert(s.waiters@.take(k as int) =~= s.waiters@);
            }
            if s.pin {
                self.block(hash, now.saturating_add(CHUNK_FETCH_BACKOFF_MILLIS));
            }
            let r = FetchStep { replies, requests: Vec::new() };
            proof {
                assert(request_views(r.requests@) =~= Seq::<(Seq<u8>, Seq<u8>)>::empty());
            }
            r
        } else {
            let mut requests: Vec<(PeerKey, ChunkHash)> = Vec::new();
            let mut k: usize = 0;
            let ghost tv = peer_views(targets@);
            while k < targets.len()
                invariant
                    0 <= k <= targets@.len(),
                    tv == peer_views(targets@),
                    request_views(requests@) == tv.take(k as int).map_values(|p: Seq<u8>| (p, hash@)),
                decreases targets@.len() - k,
            {
                let ghost r0 = request_views(requests@);
                let peer = targets[k].duplicate();
                requests.push((peer, *hash));
                proof {
                    assert(request_views(requests@) =~= r0.push((targets@[k as int]@, hash@)));
                    assert(tv.take(k + 1) =~= tv.take(k as int).push(targets@[k as int]@));
                    assert(tv.take(k + 1).map_values(|p: Seq<u8>| (p, hash@)) =~= tv.take(k as int).map_values(|p: Seq<u8>| (p, hash@)).push((targets@[k as int]@, hash@)));
                }
                k = k + 1;
            }
            proof {
                assert(tv.take(k as int) =~= tv);
            }
            FetchStep { replies: Vec::new(), requests }
        }
    }

    /// Records that a request for the chunk went out to `peer` under `id`.
    pub fn record_attempt(&mut self, hash: &ChunkHash, request_id: u64, peer: &PeerKey)
        requires
            old(self).wf(),
        ensures
            final(self).wf(),
            final(self).view() == record_spec(old(self).view(), hash@, request_id, peer@),
    {
        match self.find_session(hash) {
            Some(i) => {
                let ghost v0 = self.view();
                let s = self.take_session(i);
                let FetchSession { hash: h, waiters, attempts, mut tried, pin } = s;
                let ghost a0 = attempt_views(attempts@);
                let mut kept: Vec<(u64, PeerKey)> = Vec::new();
                let mut k: usize = 0;
                while k < attempts.len()
                    invariant
                        0 <= k <= attempts@.len(),
                        a0 == attempt_views(attempts@),
                        attempt_views(kept@) == without_attempt(a0.take(k as int), request_id),
                    decreases attempts@.len() - k,
                {
                    let ghost kv = attempt_views(kept@);
                    proof {
                        assert(a0.take(k + 1).drop_last() =~= a0.take(k as int));
                        assert(a0.take(k + 1).last() == (attempts@[k as int].0, attempts@[k as int].1@));
                    }
                    if attempts[k].0 != request_id {
                        let entry = (attempts[k].0, attempts[k].1.duplicate());
                        kept.push(entry);
                        proof {
                            assert(attempt_views(kept@) =~= kv.push((entry.0, entry.1@)));
                        }
                    }
                    k = k + 1;
                }
                proof {
                    assert(a0.take(k as int) =~= a0);
                }
                let ghost kv = attempt_views(kept@);
                kept.push((request_id, peer.duplicate()));
                proof {
                    assert(attempt_views(kept@) =~= kv.push((request_id, peer@)));
                }
                let ghost t0 = peer_views(tried@);
                if !crate::placement::is_listed(peer, tried.as_slice()) {
                    tried.push(peer.duplicate());
                    proof {
                        assert(peer_views(tried@) =~= t0.push(peer@));
                    }
                }
                let updated = FetchSession { hash: h, waiters, attempts: kept, tried, pin };
                self.put_session(updated);
                self.requests.insert(request_id, *hash);
                proof {
                    assert(self.view().sessions =~= v0.sessions.insert(hash@, with_attempt(v0.sessions[hash@], request_id, peer@)));
                    assert(self.view().requests =~= v0.requests.insert(request_id, hash@));
                }
            },
            None => {
                let ghost v0 = self.view();
                self.requests.insert(request_id, *hash);
                proof {
                    assert(self.view().sessions =~= v0.sessions);
                    assert(self.view().blocked =~= v0.blocked);
                    assert(self.view().requests =~= v0.requests.insert(request_id, hash@));
                }
            },
        }
    }

    /// A request for the chunk failed: drops it, and asks the next peers
    /// once no request for the chunk is out.
    fn on_attempt_failed(&mut self, hash: &ChunkHash, request_id: u64, now: u64, connected: &[PeerKey]) -> (r: FetchStep)
        requires
            old(self).wf(),
        ensures
            final(self).wf(),
            ({
                let (v, replies, reqs) = attempt_failed_spec(old(self).view(), hash@, request_id, now, peer_views(connected@));
                &&& final(self).view() == v
                &&& reply_views(r.replies@) == replies
                &&& request_views(r.requests@) == reqs
            }),
    {
        let i = match self.find_session(hash) {
            Some(i) => i,
            None => {
                let r = FetchStep { replies: Vec::new(), requests: Vec::new() };
                proof {
                    assert(reply_views(r.replies@) =~= Seq::<(u64, Option<Seq<u8>>)>::empty());
                    assert(request_views(r.requests@) =~= Seq::<(Seq<u8>, Seq<u8>)>::empty());
                }
                return r;
            },
        };
        let ghost v0 = self.view();
        let s = self.take_session(i);
        let FetchSession { hash: h, waiters, attempts, tried, pin } = s;
        let ghost a0 = attempt_views(attempts@);
        let mut kept: Vec<(u64, PeerKey)> = Vec::new();
        let mut k: usize = 0;
        while k < attempts.len()
            invariant
                0 <= k <= attempts@.len(),
                a0 == attempt_views(attempts@),
                attempt_views(kept@) == without_attempt(a0.take(k as int), request_id),
            decreases attempts@.len() - k,
        {
            let ghost kv = attempt_views(kept@);
            proof {
                assert(a0.take(k + 1).drop_last() =~= a0.take(k as int));
                assert(a0.take(k + 1).last() == (attempts@[k as int].0, attempts@[k as int].1@));
            }
            if attempts[k].0 != request_id {
                let entry = (attempts[k].0, attempts[k].1.duplicate());
                kept.push(entry);
                proof {
                    assert(attempt_views(kept@) =~= kv.push((entry.0, entry.1@)));
                }
            }
            k = k + 1;
        }
        proof {
            assert(a0.take(k as int) =~= a0);
        }
        let still_out = kept.len() > 0;
        let updated = FetchSession { hash: h, waiters, attempts: kept, tried, pin };
        self.put_session(updated);
        proof {
            assert(self.view().sessions =~= v0.sessions.insert(hash@, SessionView { attempts: without_attempt(v0.sessions[hash@].attempts, request_id), ..v0.sessions[hash@] }));
        }
        if still_out {
            let r = FetchStep { replies: Vec::new(), requests: Vec::new() };
            proof {
                assert(reply_views(r.replies@) =~= Seq::<(u64, Option<Seq<u8>>)>::empty());
                assert(request_views(r.requests@) =~= Seq::<(Seq<u8>, Seq<u8>)>::empty());
            }
            return r;
        }
        self.walk_down(hash, now, connected)
    }

    /// A request failed or timed out.
    pub fn handle_failure(&mut self, request_id: u64, now: u64, connected: &[PeerKey]) -> (r: FetchStep)
        requires
            old(self).wf(),
        ensures
            final(self).wf(),
            ({
                let (v, replies, reqs) = failure_spec(old(self).view(), request_id, now, peer_views(connected@));
                &&& final(self).view() == v
                &&& reply_views(r.replies@) == replies
                &&& request_views(r.requests@) == reqs
            }),
    {
        let ghost v0 = self.view();
        match self.requests.remove(&request_id) {
            Some(hash) => {
                proof {
                    assert(self.view().requests =~= v0.requests.remove(request_id));
                    assert(self.view().sessions == v0.sessions);
                    assert(self.view().blocked == v0.blocked);
                    assert(hash@ == v0.requests[request_id]);
                }
                self.on_attempt_failed(&hash, request_id, now, connected)
            },
            None => {
                let r = FetchStep { replies: Vec::new(), requests: Vec::new() };
                proof {
                    assert(self.view().requests =~= v0.requests);
                    assert(reply_views(r.replies@) =~= Seq::<(u64, Option<Seq<u8>>)>::empty());
                    assert(request_views(r.requests@) =~= Seq::<(Seq<u8>, Seq<u8>)>::empty());
                }
                r
            },
        }
    }

    /// The node asks for a chunk, for a waiter or none, to pin or only to
    /// cache.
    pub fn fetch_chunk(&mut self, hash: &ChunkHash, waiter: Option<u64>, pin: bool, now: u64, connected: &[PeerKey]) -> (r: FetchStep)
        requires
            old(self).wf(),
        ensures
            final(self).wf(),
            ({
                let (v, replies, reqs) = fetch_spec(old(self).view(), hash@, waiter, pin, now, peer_views(connected@));
                &&& final(self).view() == v
                &&& reply_views(r.replies@) == replies
                &&& request_views(r.requests@) == reqs
            }),
    {
        let ghost v0 = self.view();
        let ghost ws = match waiter { Some(w) => seq![w], None => Seq::<u64>::empty() };
        match self.find_session(hash) {
            Some(i) => {
                let s = self.take_session(i);
                let FetchSession { hash: h, mut waiters, attempts, tried, pin: was_pinned } = s;
                let ghost w0 = waiters@;
                match waiter {
                    Some(w) => {
                        waiters.push(w);
                    },
                    None => {},
                }
                proof {
                    assert(waiters@ =~= w0 + ws);
                }
                let updated = FetchSession { hash: h, waiters, attempts, tried, pin: was_pinned || pin };
                self.put_session(updated);
                let r = FetchStep { replies: Vec::new(), requests: Vec::new() };
                proof {
                    assert(self.view().sessions =~= v0.sessions.insert(hash@, SessionView { waiters: v0.sessions[hash@].waiters + ws, pin: v0.sessions[hash@].pin || pin, ..v0.sessions[hash@] }));
                    assert(reply_views(r.replies@) =~= Seq::<(u64, Option<Seq<u8>>)>::empty());
                    assert(request_views(r.requests@) =~= Seq::<(Seq<u8>, Seq<u8>)>::empty());
                }
                return r;
            },
            None => {},
        }
        if !pin && self.is_blocked(hash, now) {
            let mut replies: Vec<(u64, Option<Vec<u8>>)> = Vec::new();
            match waiter {
                Some(w) => {
                    replies.push((w, None));
                },
                None => {},
            }
            let r = FetchStep { replies, requests: Vec::new() };
            proof {
                assert(reply_views(r.replies@) =~= answers(ws, None));
                assert(request_views(r.requests@) =~= Seq::<(Seq<u8>, Seq<u8>)>::empty());
            }
            return r;
        }
        let mut waiters: Vec<u64> = Vec::new();
        match waiter {
            Some(w) => {
                waiters.push(w);
            },
            None => {},
        }
        let session = FetchSession { hash: *hash, waiters, attempts: Vec::new(), tried: Vec::new(), pin };
        proof {
            assert(session.waiters@ =~= ws);
            assert(attempt_views(session.attempts@) =~= Seq::<(u64, Seq<u8>)>::empty());
            assert(peer_views(session.tried@) =~= Seq::<Seq<u8>>::empty());
            assert(session_view(session) == (SessionView { waiters: ws, attempts: Seq::empty(), tried: Seq::empty(), pin }));
        }
        self.put_session(session);
        self.walk_down(hash, now, connected)
    }

    /// Drops the requests of a finished session.
    fn drop_requests(&mut self, attempts: &Vec<(u64, PeerKey)>)
        requires
            old(self).wf(),
        ensures
            final(self).wf(),
            final(self).view() == (FetchView { requests: without_requests(old(self).view().requests, attempt_views(attempts@)), ..old(self).view() }),
    {
        let ghost ids = attempt_views(attempts@).map_values(|a: (u64, Seq<u8>)| a.0);
        let ghost v0 = self.view();
        let mut k: usize = 0;
        while k < attempts.len()
            invariant
                self.wf(),
                0 <= k <= attempts@.len(),
                ids == attempt_views(attempts@).map_values(|a: (u64, Seq<u8>)| a.0),
                self.view().sessions == v0.sessions,
                self.view().blocked == v0.blocked,
                self.view().requests == v0.requests.remove_keys(ids.take(k as int).to_set()),
            decreases attempts@.len() - k,
        {
            let ghost r0 = self.view().requests;
            let id = attempts[k].0;
            self.requests.remove(&id);
            proof {
                assert(ids[k as int] == id);
                assert(ids.take(k + 1) =~= ids.take(k as int).push(id));
                assert forall|x: u64| #[trigger] ids.take(k + 1).to_set().contains(x) <==> ids.take(k as int).to_set().insert(id).contains(x) by {
                    if ids.take(k + 1).to_set().contains(x) {
                        assert(ids.take(k + 1).contains(x));
                        let q = choose|q: int| 0 <= q < ids.take(k + 1).len() && #[trigger] ids.take(k + 1)[q] == x;
                        if q < k {
                            assert(ids.take(k as int)[q] == x);
                            assert(ids.take(k as int).contains(x));
                        }
                    }
                    if ids.take(k as int).to_set().contains(x) {
                        assert(ids.take(k as int).contains(x));
                        let q = choose|q: int| 0 <= q < ids.take(k as int).len() && #[trigger] ids.take(k as int)[q] == x;
                        assert(ids.take(k + 1)[q] == x);
                        assert(ids.take(k + 1).contains(x));
                    }
                    if x == id {
                        assert(ids.take(k + 1)[k as int] == x);
                        assert(ids.take(k + 1).contains(x));
                    }
                }
                assert(ids.take(k + 1).to_set() =~= ids.take(k as int).to_set().insert(id));
                assert(self.view().requests =~= r0.remove(id));
                assert(self.view().requests =~= v0.requests.remove_keys(ids.take(k + 1).to_set()));
            }
            k = k + 1;
        }
        proof {
            assert(ids.take(k as int) =~= ids);
        }
    }

    /// A peer answered a pull: data that does not match the address counts
    /// as a failed request; otherwise the session ends, the chunk is pinned
    /// if the session asked to pin it and there is room, and cached if
    /// not (a chunk that could not be pinned is left alone for a while),
    /// and every waiter gets the data.
    pub fn handle_response(&mut self, fs: &mut FileSystem, request_id: u64, data: &[u8], now: u64, connected: &[PeerKey]) -> (r: FetchStep)
        requires
            old(self).wf(),
            old(fs).wf(),
        ensures
            final(self).wf(),
            final(fs).wf(),
            ({
                let v = old(self).view();
                let h = v.requests[request_id];
                let v1 = FetchView { requests: v.requests.remove(request_id), ..v };
                let s = v1.sessions[h];
                let contents = old(fs).storage().contents();
                let fits = old(fs).storage().pinned_bytes() + pin_cost(contents, seq![(sha256(data@), data@)]) <= old(fs).storage().capacity();
                if !v.requests.contains_key(request_id) {
                    &&& final(self).view() == v
                    &&& *final(fs) == *old(fs)
                    &&& r.replies@.len() == 0
                    &&& r.requests@.len() == 0
                } else if sha256(data@) != h {
                    let (v2, replies, reqs) = attempt_failed_spec(v1, h, request_id, now, peer_views(connected@));
                    &&& final(self).view() == v2
                    &&& reply_views(r.replies@) == replies
                    &&& request_views(r.requests@) == reqs
                    &&& *final(fs) == *old(fs)
                } else if !v1.sessions.contains_key(h) {
                    &&& final(self).view() == v1
                    &&& *final(fs) == *old(fs)
                    &&& r.replies@.len() == 0
                    &&& r.requests@.len() == 0
                } else {
                    &&& final(self).view().sessions == v1.sessions.remove(h)
                    &&& final(self).view().requests == without_requests(v1.requests, s.attempts)
                    &&& reply_views(r.replies@) == answers(s.waiters, Some(data@))
                    &&& r.requests@.len() == 0
                    &&& if s.pin && fits {
                        &&& final(self).view().blocked == v.blocked
                        &&& final(fs).tree() == old(fs).tree()
                        &&& final(fs).storage().contents() == crate::storage::pin_all(contents, seq![(sha256(data@), data@)])
                    } else {
                        &&& final(self).view().blocked == if s.pin { v.blocked.insert(h, backoff_from(now)) } else { v.blocked }
                        &&& crate::filesystem::cache_effect(*old(fs), *final(fs), data@)
                    }
                }
            }),
    {
        let ghost v = self.view();
        let hash = match self.requests.remove(&request_id) {
            Some(hash) => hash,
            None => {
                proof {
                    assert(self.view().requests =~= v.requests);
                }
                return FetchStep { replies: Vec::new(), requests: Vec::new() };
            },
        };
        proof {
            assert(self.view().requests =~= v.requests.remove(request_id));
            assert(self.view().sessions == v.sessions);
            assert(self.view().blocked == v.blocked);
            assert(hash@ == v.requests[request_id]);
        }
        let actual = ChunkHash::from_bytes(sha256_digest(data));
        if !actual.same(&hash) {
            return self.on_attempt_failed(&hash, request_id, now, connected);
        }
        let i = match self.find_session(&hash) {
            Some(i) => i,
            None => {
                return FetchStep { replies: Vec::new(), requests: Vec::new() };
            },
        };
        let session = self.take_session(i);
        self.drop_requests(&session.attempts);
        if session.pin {
            let pinned = fs.pin_chunk(vstd::slice::slice_to_vec(data));
            if pinned.is_err() {
                fs.cache_chunk(vstd::slice::slice_to_vec(data));
                self.block(&hash, now.saturating_add(CHUNK_FETCH_BACKOFF_MILLIS));
            }
        } else {
            fs.cache_chunk(vstd::slice::slice_to_vec(data));
        }
        let mut replies: Vec<(u64, Option<Vec<u8>>)> = Vec::new();
        let mut k: usize = 0;
        while k < session.waiters.len()
            invariant
                0 <= k <= session.waiters@.len(),
                reply_views(replies@) == answers(session.waiters@.take(k as int), Some(data@)),
            decreases session.waiters@.len() - k,
        {
            let ghost r0 = reply_views(replies@);
            let copy = vstd::slice::slice_to_vec(data);
            replies.push((session.waiters[k], Some(copy)));
            proof {
                assert(reply_views(replies@) =~= r0.push((session.waiters@[k as int], Some(data@))));
                assert(answers(session.waiters@.take(k + 1), Some(data@)) =~= answers(session.waiters@.take(k as int), Some(data@)).push((session.waiters@[k as int], Some(data@))));
            }
            k = k + 1;
        }
        proof {
            assert(session.waiters@.take(k as int) =~= session.waiters@);
        }
        FetchStep { replies, requests: Vec::new() }
    }
}

} // verus!
