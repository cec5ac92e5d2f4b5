use vstd::prelude::*;
use vstd::relations::{sorted_by, total_ordering};

use crate::digest::{sha256, sha256_digest};
use crate::domain::ChunkHash;
use crate::tree::PeerKey;

verus! {

broadcast use vstd::seq_lib::group_to_multiset_ensures;

/// `a` comes before `b` or equals it in the lexicographic order of byte
/// strings, a proper prefix first.
pub open spec fn lex_le(a: Seq<u8>, b: Seq<u8>) -> bool
    decreases a.len(),
{
    if a.len() == 0 {
        true
    } else if b.len() == 0 {
        false
    } else if a[0] != b[0] {
        a[0] < b[0]
    } else {
        lex_le(a.drop_first(), b.drop_first())
    }
}

proof fn lemma_lex_reflexive(a: Seq<u8>)
    ensures
        lex_le(a, a),
    decreases a.len(),
{
    if a.len() > 0 {
        lemma_lex_reflexive(a.drop_first());
    }
}

pub(crate) proof fn lemma_lex_antisymmetric(a: Seq<u8>, b: Seq<u8>)
    requires
        lex_le(a, b),
        lex_le(b, a),
    ensures
        a == b,
    decreases a.len(),
{
    if a.len() == 0 {
        assert(b.len() == 0);
        assert(a =~= b);
    } else {
        lemma_lex_antisymmetric(a.drop_first(), b.drop_first());
        assert(a =~= seq![a[0]] + a.drop_first());
        assert(b =~= seq![b[0]] + b.drop_first());
    }
}

pub(crate) proof fn lemma_lex_transitive(a: Seq<u8>, b: Seq<u8>, c: Seq<u8>)
    requires
        lex_le(a, b),
        lex_le(b, c),
    ensures
        lex_le(a, c),
    decreases a.len(),
{
    if a.len() > 0 && b.len() > 0 && c.len() > 0 && a[0] == b[0] && b[0] == c[0] {
        lemma_lex_transitive(a.drop_first(), b.drop_first(), c.drop_first());
    }
}

pub(crate) proof fn lemma_lex_total(a: Seq<u8>, b: Seq<u8>)
    ensures
        lex_le(a, b) || lex_le(b, a),
    decreases a.len(),
{
    if a.len() > 0 && b.len() > 0 && a[0] == b[0] {
        lemma_lex_total(a.drop_first(), b.drop_first());
    }
}

/// Whether `a` comes before `b` or equals it in the lexicographic order.
pub fn bytes_le(a: &[u8], b: &[u8]) -> (r: bool)
    ensures
        r == lex_le(a@, b@),
{
    let mut i: usize = 0;
    proof {
        assert(a@.skip(0) =~= a@);
        assert(b@.skip(0) =~= b@);
    }
    while i < a.len() && i < b.len() && a[i] == b[i]
        invariant
            0 <= i <= a@.len(),
            i <= b@.len(),
            lex_le(a@, b@) == lex_le(a@.skip(i as int), b@.skip(i as int)),
        decreases a@.len() - i,
    {
        proof {
            assert(a@.skip(i as int).drop_first() =~= a@.skip(i + 1));
            assert(b@.skip(i as int).drop_first() =~= b@.skip(i + 1));
        }
        i = i + 1;
    }
    if i == a.len() {
        true
    } else if i == b.len() {
        false
    } else {
        a[i] < b[i]
    }
}

/// A scored peer ranks before another, or equals it: a higher score
/// first, and on equal scores the greater byte string first.
pub open spec fn rank_leq(x: (u64, Seq<u8>), y: (u64, Seq<u8>)) -> bool {
    x.0 > y.0 || (x.0 == y.0 && lex_le(y.1, x.1))
}

/// The ranking order, as a relation.
pub open spec fn ranks() -> spec_fn((u64, Seq<u8>), (u64, Seq<u8>)) -> bool {
    |x: (u64, Seq<u8>), y: (u64, Seq<u8>)| rank_leq(x, y)
}

/// The ranking is a total order on scored peers.
pub proof fn lemma_ranks_total()
    ensures
        total_ordering(ranks()),
{
    assert forall|x: (u64, Seq<u8>)| #[trigger] ranks()(x, x) by {
        lemma_lex_reflexive(x.1);
    }
    assert forall|x: (u64, Seq<u8>), y: (u64, Seq<u8>)| #[trigger] ranks()(x, y) && #[trigger] ranks()(y, x) implies x == y by {
        lemma_lex_antisymmetric(x.1, y.1);
    }
    assert forall|x: (u64, Seq<u8>), y: (u64, Seq<u8>), z: (u64, Seq<u8>)| #[trigger] ranks()(x, y) && #[trigger] ranks()(y, z) implies ranks()(x, z) by {
        if x.0 == y.0 && y.0 == z.0 {
            lemma_lex_transitive(z.1, y.1, x.1);
        }
    }
    assert forall|x: (u64, Seq<u8>), y: (u64, Seq<u8>)| #[trigger] ranks()(x, y) || #[trigger] ranks()(y, x) by {
        lemma_lex_total(x.1, y.1);
    }
}

/// The peers of a ranking, in ranking order.
pub open spec fn ranked_keys(s: Seq<(u64, Seq<u8>)>) -> Seq<Seq<u8>> {
    s.map_values(|x: (u64, Seq<u8>)| x.1)
}

/// The first `n` peers of the scored peers once ranked.
pub open spec fn ranked_peers(scored: Seq<(u64, Seq<u8>)>, n: int) -> Seq<Seq<u8>> {
    let full = scored.sort_by(ranks());
    ranked_keys(if n < full.len() { full.take(n) } else { full })
}

/// The bytes of each peer key.
pub open spec fn peer_views(s: Seq<PeerKey>) -> Seq<Seq<u8>> {
    s.map_values(|p: PeerKey| p@)
}

/// The score and bytes of each scored peer.
pub open spec fn scored_views(s: Seq<(u64, PeerKey)>) -> Seq<(u64, Seq<u8>)> {
    s.map_values(|x: (u64, PeerKey)| (x.0, x.1@))
}

/// 256 to the power `n`.
pub open spec fn pow256(n: nat) -> int
    decreases n,
{
    if n == 0 {
        1
    } else {
        256 * pow256((n - 1) as nat)
    }
}

/// The bytes read as a big-endian number.
pub open spec fn be_value(s: Seq<u8>) -> int
    decreases s.len(),
{
    if s.len() == 0 {
        0
    } else {
        be_value(s.drop_last()) * 256 + s.last()
    }
}

proof fn lemma_be_value_bound(s: Seq<u8>)
    ensures
        0 <= be_value(s) < pow256(s.len()),
    decreases s.len(),
{
    if s.len() > 0 {
        lemma_be_value_bound(s.drop_last());
    }
}

/// The rendezvous score of a peer for a chunk: the first eight bytes of
/// the SHA-256 digest of the chunk address followed by the peer bytes,
/// read as a big-endian number.
pub open spec fn hrw_value(hash: Seq<u8>, peer: Seq<u8>) -> u64 {
    be_value(sha256(hash + peer).take(8)) as u64
}

/// The score that a digest gives: its first eight bytes, big-endian.
pub fn score_from_digest(digest: &[u8; 32]) -> (r: u64)
    ensures
        r == be_value(digest@.take(8)),
{
    let mut acc: u64 = 0;
    let mut i: usize = 0;
    proof {
        assert(digest@.take(0) =~= Seq::<u8>::empty());
        assert(pow256(8) == 0x1_0000_0000_0000_0000) by {
            reveal_with_fuel(pow256, 9);
        }
    }
    while i < 8
        invariant
            0 <= i <= 8,
            digest@.len() == 32,
            acc == be_value(digest@.take(i as int)),
            pow256(8) == 0x1_0000_0000_0000_0000,
        decreases 8 - i,
    {
        proof {
            assert(digest@.take(i + 1).drop_last() =~= digest@.take(i as int));
            lemma_be_value_bound(digest@.take(i + 1));
            assert(pow256((i + 1) as nat) <= pow256(8)) by {
                reveal_with_fuel(pow256, 9);
            }
        }
        acc = acc * 256 + digest[i] as u64;
        i = i + 1;
    }
    acc
}

/// The rendezvous score of a peer for a chunk.
pub fn hrw_score(hash: &ChunkHash, peer: &PeerKey) -> (r: u64)
    ensures
        r == hrw_value(hash@, peer@),
{
    let mut input: Vec<u8> = Vec::new();
    let mut i: usize = 0;
    while i < 32
        invariant
            0 <= i <= 32,
            hash@.len() == 32,
            input@ == hash@.take(i as int),
        decreases 32 - i,
    {
        input.push(hash.0[i]);
        proof {
            assert(input@ =~= hash@.take(i + 1));
        }
        i = i + 1;
    }
    let mut j: usize = 0;
    while j < peer.bytes.len()
        invariant
            0 <= j <= peer@.len(),
            hash@.len() == 32,
            input@ == hash@ + peer@.take(j as int),
        decreases peer@.len() - j,
    {
        input.push(peer.bytes[j]);
        proof {
            assert(input@ =~= hash@ + peer@.take(j + 1));
        }
        j = j + 1;
    }
    proof {
        assert(input@ =~= hash@ + peer@);
    }
    let digest = sha256_digest(input.as_slice());
    proof {
        lemma_be_value_bound(digest@.take(8));
        assert(pow256(8) == 0x1_0000_0000_0000_0000) by {
            reveal_with_fuel(pow256, 9);
        }
    }
    score_from_digest(&digest)
}

/// Inserting at the first place where the element ranks before the next
/// one keeps a ranking sorted.
proof fn lemma_insert_sorted(s: Seq<(u64, Seq<u8>)>, p: int, x: (u64, Seq<u8>))
    requires
        sorted_by(s, ranks()),
        0 <= p <= s.len(),
        forall|i: int| 0 <= i < p ==> #[trigger] rank_leq(s[i], x),
        p < s.len() ==> !rank_leq(s[p], x),
    ensures
        sorted_by(s.insert(p, x), ranks()),
{
    lemma_ranks_total();
    let t = s.insert(p, x);
    assert forall|i: int, j: int| 0 <= i < j < t.len() implies #[trigger] ranks()(t[i], t[j]) by {
        if i < p && j < p {
            assert(ranks()(s[i], s[j]));
        } else if i < p && j == p {
            assert(rank_leq(s[i], x));
        } else if i < p && j > p {
            assert(ranks()(s[i], s[j - 1]));
        } else if i == p {
            assert(ranks()(x, s[p]) || ranks()(s[p], x));
            if j - 1 > p {
                assert(ranks()(s[p], s[j - 1]));
            }
        } else {
            assert(ranks()(s[i - 1], s[j - 1]));
        }
    }
}

/// The first `n` peers once the scored peers are ranked: highest score
/// first, ties broken by the greater peer bytes.
pub fn rank_peers(scored: Vec<(u64, PeerKey)>, n: usize) -> (r: Vec<PeerKey>)
    ensures
        peer_views(r@) == ranked_peers(scored_views(scored@), n as int),
{
    let ghost all = scored_views(scored@);
    let mut sorted: Vec<(u64, PeerKey)> = Vec::new();
    let ghost n0 = scored@.len();
    let mut k: usize = 0;
    proof {
        lemma_ranks_total();
        assert(scored_views(sorted@) =~= Seq::<(u64, Seq<u8>)>::empty());
        assert(all.take(0) =~= Seq::<(u64, Seq<u8>)>::empty());
    }
    while k < scored.len()
        invariant
            all.len() == n0,
            n0 == scored@.len(),
            all == scored_views(scored@),
            0 <= k <= n0,
            sorted_by(scored_views(sorted@), ranks()),
            scored_views(sorted@).to_multiset() == all.take(k as int).to_multiset(),
            total_ordering(ranks()),
        decreases n0 - k,
    {
        let x = (scored[k].0, scored[k].1.duplicate());
        proof {
            assert(all[k as int] == (x.0, x.1@));
        }
        let ghost sv = scored_views(sorted@);
        let mut p: usize = 0;
        while p < sorted.len() && (sorted[p].0 > x.0 || (sorted[p].0 == x.0 && bytes_le(x.1.bytes.as_slice(), sorted[p].1.bytes.as_slice())))
            invariant
                0 <= p <= sorted@.len(),
                sv == scored_views(sorted@),
                forall|i: int| 0 <= i < p ==> #[trigger] rank_leq(sv[i], (x.0, x.1@)),
            decreases sorted@.len() - p,
        {
            p = p + 1;
        }
        proof {
            lemma_insert_sorted(sv, p as int, (x.0, x.1@));
        }
        sorted.insert(p, x);
        proof {
            assert(scored_views(sorted@) =~= sv.insert(p as int, (x.0, x.1@)));
            assert(all.take(k + 1) =~= all.take(k as int).push(all[k as int]));
        }
        k = k + 1;
    }
    proof {
        assert(all.take(n0 as int) =~= all);
        all.lemma_sort_by_ensures(ranks());
        vstd::seq_lib::lemma_sorted_unique(scored_views(sorted@), all.sort_by(ranks()), ranks());
    }
    let mut r: Vec<PeerKey> = Vec::new();
    let mut i: usize = 0;
    let ghost full = scored_views(sorted@);
    while i < sorted.len() && i < n
        invariant
            0 <= i <= sorted@.len(),
            i <= n,
            full == scored_views(sorted@),
            peer_views(r@) == ranked_keys(full.take(i as int)),
        decreases sorted@.len() - i,
    {
        let peer = sorted[i].1.duplicate();
        let ghost r0 = peer_views(r@);
        r.push(peer);
        proof {
            assert(full[i as int].1 == peer@);
            assert(peer_views(r@) =~= r0.push(peer@));
            assert(full.take(i + 1) =~= full.take(i as int).push(full[i as int]));
            assert(ranked_keys(full.take(i + 1)) =~= ranked_keys(full.take(i as int)).push(full[i as int].1));
        }
        i = i + 1;
    }
    proof {
        if (n as int) < full.len() {
            assert(i == n);
        } else {
            assert(full.take(i as int) =~= full);
        }
    }
    r
}

/// The scored members: each peer with its rendezvous score for the chunk.
pub open spec fn scored_members(hash: Seq<u8>, members: Seq<Seq<u8>>) -> Seq<(u64, Seq<u8>)> {
    members.map_values(|p: Seq<u8>| (hrw_value(hash, p), p))
}

/// The `n` members that rank highest for the chunk, highest first.
pub fn top_peers(hash: &ChunkHash, members: &[PeerKey], n: usize) -> (r: Vec<PeerKey>)
    ensures
        peer_views(r@) == ranked_peers(scored_members(hash@, peer_views(members@)), n as int),
{
    let mut scored: Vec<(u64, PeerKey)> = Vec::new();
    let mut i: usize = 0;
    while i < members.len()
        invariant
            0 <= i <= members@.len(),
            scored_views(scored@) == scored_members(hash@, peer_views(members@)).take(i as int),
        decreases members@.len() - i,
    {
        let score = hrw_score(hash, &members[i]);
        let ghost s0 = scored_views(scored@);
        let peer = members[i].duplicate();
        scored.push((score, peer));
        proof {
            let sm = scored_members(hash@, peer_views(members@));
            assert(peer_views(members@)[i as int] == members@[i as int]@);
            assert(sm[i as int] == (score, peer@));
            assert(scored_views(scored@) =~= s0.push((score, peer@)));
            assert(sm.take(i + 1) =~= sm.take(i as int).push(sm[i as int]));
        }
        i = i + 1;
    }
    proof {
        assert(scored_views(scored@) =~= scored_members(hash@, peer_views(members@)));
    }
    rank_peers(scored, n)
}

/// The members that should hold a chunk: the two that rank highest.
pub fn designated_holders(hash: &ChunkHash, members: &[PeerKey]) -> (r: Vec<PeerKey>)
    ensures
        peer_views(r@) == ranked_peers(scored_members(hash@, peer_views(members@)), 2),
{
    top_peers(hash, members, 2)
}

/// The first `limit` peers of the sequence that are not in `tried`, in
/// order.
pub open spec fn untried(s: Seq<Seq<u8>>, tried: Seq<Seq<u8>>, limit: int) -> Seq<Seq<u8>>
    decreases s.len(),
{
    if s.len() == 0 || limit <= 0 {
        Seq::empty()
    } else if tried.contains(s[0]) {
        untried(s.drop_first(), tried, limit)
    } else {
        seq![s[0]] + untried(s.drop_first(), tried, limit - 1)
    }
}

/// Whether the peer is in the list.
pub fn is_listed(peer: &PeerKey, peers: &[PeerKey]) -> (r: bool)
    ensures
        r == peer_views(peers@).contains(peer@),
{
    let mut i: usize = 0;
    while i < peers.len()
        invariant
            0 <= i <= peers@.len(),
            forall|k: int| 0 <= k < i ==> peers@[k]@ != peer@,
        decreases peers@.len() - i,
    {
        if peers[i].same(peer) {
            proof {
                assert(peer_views(peers@)[i as int] == peer@);
            }
            return true;
        }
        i = i + 1;
    }
    proof {
        if peer_views(peers@).contains(peer@) {
            let k = choose|k: int| 0 <= k < peer_views(peers@).len() && peer_views(peers@)[k] == peer@;
            assert(peers@[k]@ == peer@);
        }
    }
    false
}

/// The peers to ask next for a chunk: the connected peers in ranking
/// order, skipping those already tried, at most `limit` of them.
pub fn next_targets(hash: &ChunkHash, connected: &[PeerKey], tried: &[PeerKey], limit: usize) -> (r: Vec<PeerKey>)
    ensures
        peer_views(r@) == untried(
            ranked_peers(scored_members(hash@, peer_views(connected@)), connected@.len() as int),
            peer_views(tried@),
            limit as int,
        ),
{
    let ranked = top_peers(hash, connected, connected.len());
    let ghost all = peer_views(ranked@);
    let ghost tv = peer_views(tried@);
    let mut r: Vec<PeerKey> = Vec::new();
    let mut i: usize = 0;
    proof {
        assert(all.skip(0) =~= all);
        assert(peer_views(r@) + untried(all, tv, limit as int) =~= untried(all, tv, limit as int));
    }
    while i < ranked.len() && r.len() < limit
        invariant
            0 <= i <= ranked@.len(),
            all == peer_views(ranked@),
            tv == peer_views(tried@),
            r@.len() <= limit,
            peer_views(r@) + untried(all.skip(i as int), tv, limit - r@.len()) == untried(all, tv, limit as int),
        decreases ranked@.len() - i,
    {
        proof {
            assert(all.skip(i as int).drop_first() =~= all.skip(i + 1));
            assert(all.skip(i as int)[0] == ranked@[i as int]@);
        }
        if !is_listed(&ranked[i], tried) {
            let ghost before = peer_views(r@);
            r.push(ranked[i].duplicate());
            proof {
                assert(peer_views(r@) =~= before.push(ranked@[i as int]@));
                assert(before + untried(all.skip(i as int), tv, limit - before.len()) =~= peer_views(r@) + untried(all.skip(i + 1), tv, limit - peer_views(r@).len()));
            }
        }
        i = i + 1;
    }
    proof {
        if i == ranked@.len() {
            assert(all.skip(i as int).len() == 0);
        }
        assert(peer_views(r@) + untried(all.skip(i as int), tv, limit - r@.len()) =~= peer_views(r@));
    }
    r
}

/// Mapping the elements of two sequences with the same elements gives
/// sequences with the same elements.
proof fn lemma_map_same_elements<A, B>(m1: Seq<A>, m2: Seq<A>, f: spec_fn(A) -> B)
    requires
        m1.to_multiset() == m2.to_multiset(),
    ensures
        m1.map_values(f).to_multiset() == m2.map_values(f).to_multiset(),
    decreases m1.len(),
{
    broadcast use vstd::multiset::group_multiset_axioms;

    if m1.len() == 0 {
        assert(m2.to_multiset().len() == 0);
        assert(m1.map_values(f) =~= Seq::<B>::empty());
        assert(m2.map_values(f) =~= Seq::<B>::empty());
    } else {
        let x = m1[0];
        assert(m1.to_multiset().count(x) > 0);
        assert(m2.contains(x));
        let i = choose|i: int| 0 <= i < m2.len() && m2[i] == x;
        let r1 = m1.remove(0);
        let r2 = m2.remove(i);
        assert(r1.to_multiset() == m1.to_multiset().remove(x));
        assert(r2.to_multiset() == m2.to_multiset().remove(x));
        lemma_map_same_elements(r1, r2, f);
        let n1 = m1.map_values(f);
        let n2 = m2.map_values(f);
        assert(n1.remove(0) =~= r1.map_values(f));
        assert(n2.remove(i) =~= r2.map_values(f));
        assert(n1.remove(0).to_multiset() == n1.to_multiset().remove(n1[0]));
        assert(n2.remove(i).to_multiset() == n2.to_multiset().remove(n2[i]));
        assert(n1.contains(f(x)) && n2.contains(f(x))) by {
            assert(n1[0] == f(x));
            assert(n2[i] == f(x));
        }
        assert(n1.to_multiset() =~= n1.to_multiset().remove(f(x)).insert(f(x)));
        assert(n2.to_multiset() =~= n2.to_multiset().remove(f(x)).insert(f(x)));
    }
}

/// Every peer computes the same placement: the peers that rank highest
/// for a chunk do not depend on the order in which the members are
/// listed.
pub proof fn law_ranking_ignores_member_order(hash: Seq<u8>, m1: Seq<Seq<u8>>, m2: Seq<Seq<u8>>, n: int)
    requires
        m1.to_multiset() == m2.to_multiset(),
    ensures
        ranked_peers(scored_members(hash, m1), n) == ranked_peers(scored_members(hash, m2), n),
{
    let s1 = scored_members(hash, m1);
    let s2 = scored_members(hash, m2);
    lemma_ranks_total();
    s1.lemma_sort_by_ensures(ranks());
    s2.lemma_sort_by_ensures(ranks());
    lemma_map_same_elements(m1, m2, |p: Seq<u8>| (hrw_value(hash, p), p));
    vstd::seq_lib::lemma_sorted_unique(s1.sort_by(ranks()), s2.sort_by(ranks()), ranks());
}

/// Asking for more peers only adds to the end: the `n` highest-ranked
/// members are the first `n` of the `n + 1` highest-ranked.
pub proof fn law_ranking_prefix(scored: Seq<(u64, Seq<u8>)>, n: int)
    requires
        0 <= n,
    ensures
        ranked_peers(scored, n) == ranked_peers(scored, n + 1).take(
            if n < ranked_peers(scored, n + 1).len() { n } else { ranked_peers(scored, n + 1).len() as int },
        ),
{
    let full = scored.sort_by(ranks());
    assert(ranked_peers(scored, n) =~= ranked_peers(scored, n + 1).take(
        if n < ranked_peers(scored, n + 1).len() { n } else { ranked_peers(scored, n + 1).len() as int },
    ));
}

/// Among distinct members, the ranking names each member at most once.
pub proof fn lemma_ranked_distinct(hash: Seq<u8>, members: Seq<Seq<u8>>, n: int)
    requires
        members.no_duplicates(),
        0 <= n,
    ensures
        ranked_peers(scored_members(hash, members), n).no_duplicates(),
{
    broadcast use vstd::multiset::group_multiset_axioms;

    let sm = scored_members(hash, members);
    let full = sm.sort_by(ranks());
    lemma_ranks_total();
    sm.lemma_sort_by_ensures(ranks());
    assert(full.len() == sm.len()) by {
        assert(full.to_multiset().len() == full.len());
        assert(sm.to_multiset().len() == sm.len());
    }
    assert(sm.no_duplicates()) by {
        assert forall|i: int, j: int| 0 <= i < sm.len() && 0 <= j < sm.len() && i != j implies sm[i] != sm[j] by {
            assert(sm[i].1 == members[i]);
            assert(sm[j].1 == members[j]);
        }
    }
    sm.lemma_multiset_has_no_duplicates();
    assert forall|x: (u64, Seq<u8>)| full.to_multiset().contains(x) implies full.to_multiset().count(x) == 1 by {
        assert(sm.to_multiset().count(x) == full.to_multiset().count(x));
    }
    full.lemma_multiset_has_no_duplicates_conv();
    assert forall|k: int| 0 <= k < full.len() implies #[trigger] full[k] == (hrw_value(hash, full[k].1), full[k].1) by {
        assert(full.to_multiset().count(full[k]) > 0);
        assert(sm.to_multiset().count(full[k]) > 0);
        assert(sm.contains(full[k]));
        let j = choose|j: int| 0 <= j < sm.len() && sm[j] == full[k];
    }
    let part = if n < full.len() { full.take(n) } else { full };
    let top = ranked_peers(sm, n);
    assert(top =~= ranked_keys(part));
    assert forall|a: int, b: int| 0 <= a < top.len() && 0 <= b < top.len() && a != b implies top[a] != top[b] by {
        assert(part[a] == full[a] && part[b] == full[b]);
        assert(top[a] == full[a].1);
        assert(top[b] == full[b].1);
        assert(full[a] == (hrw_value(hash, full[a].1), full[a].1));
        assert(full[b] == (hrw_value(hash, full[b].1), full[b].1));
    }
}

/// What the ranking of a chunk returns: `n` members, or all of them when
/// there are fewer, each a member, in ranking order, and every member left
/// out ranks after each one returned.
pub proof fn law_top_peers_in_rank_order(hash: Seq<u8>, members: Seq<Seq<u8>>, n: int)
    requires
        0 <= n,
    ensures
        ranked_peers(scored_members(hash, members), n).len() == if n < members.len() { n } else { members.len() as int },
        forall|k: int| 0 <= k < ranked_peers(scored_members(hash, members), n).len()
            ==> members.contains(#[trigger] ranked_peers(scored_members(hash, members), n)[k]),
        forall|a: int, b: int| 0 <= a < b < ranked_peers(scored_members(hash, members), n).len() ==> rank_leq(
            (hrw_value(hash, #[trigger] ranked_peers(scored_members(hash, members), n)[a]), ranked_peers(scored_members(hash, members), n)[a]),
            (hrw_value(hash, #[trigger] ranked_peers(scored_members(hash, members), n)[b]), ranked_peers(scored_members(hash, members), n)[b]),
        ),
        forall|k: int, m: Seq<u8>| 0 <= k < ranked_peers(scored_members(hash, members), n).len() && #[trigger] members.contains(m)
            && !ranked_peers(scored_members(hash, members), n).contains(m) ==> rank_leq(
            (hrw_value(hash, #[trigger] ranked_peers(scored_members(hash, members), n)[k]), ranked_peers(scored_members(hash, members), n)[k]),
            (hrw_value(hash, m), m),
        ),
{
    broadcast use vstd::multiset::group_multiset_axioms;

    let sm = scored_members(hash, members);
    let full = sm.sort_by(ranks());
    lemma_ranks_total();
    sm.lemma_sort_by_ensures(ranks());
    assert(full.len() == sm.len()) by {
        assert(full.to_multiset().len() == full.len());
        assert(sm.to_multiset().len() == sm.len());
    }
    assert forall|k: int| 0 <= k < full.len() implies members.contains(#[trigger] full[k].1) && full[k] == (hrw_value(hash, full[k].1), full[k].1) by {
        assert(full.to_multiset().count(full[k]) > 0);
        assert(sm.to_multiset().count(full[k]) > 0);
        assert(sm.contains(full[k]));
        let j = choose|j: int| 0 <= j < sm.len() && sm[j] == full[k];
        assert(members[j] == full[k].1);
    }
    let part = if n < full.len() { full.take(n) } else { full };
    let top = ranked_peers(sm, n);
    assert(top =~= ranked_keys(part));
    assert forall|k: int| 0 <= k < top.len() implies members.contains(#[trigger] top[k]) by {
        assert(part[k] == full[k]);
        assert(top[k] == full[k].1);
    }
    assert forall|a: int, b: int| 0 <= a < b < top.len() implies rank_leq(
        (hrw_value(hash, #[trigger] top[a]), top[a]),
        (hrw_value(hash, #[trigger] top[b]), top[b]),
    ) by {
        assert(part[a] == full[a] && part[b] == full[b]);
        assert(ranks()(full[a], full[b]));
    }
    assert forall|k: int, m: Seq<u8>| 0 <= k < top.len() && #[trigger] members.contains(m) && !top.contains(m) implies rank_leq(
        (hrw_value(hash, #[trigger] top[k]), top[k]),
        (hrw_value(hash, m), m),
    ) by {
        let j = choose|j: int| 0 <= j < members.len() && members[j] == m;
        assert(sm[j] == (hrw_value(hash, m), m));
        assert(sm.to_multiset().count(sm[j]) > 0);
        assert(full.to_multiset().count(sm[j]) > 0);
        assert(full.contains(sm[j]));
        let q = choose|q: int| 0 <= q < full.len() && full[q] == sm[j];
        if q < top.len() {
            assert(part[q] == full[q]);
            assert(top[q] == m);
        }
        assert(part[k] == full[k]);
        assert(ranks()(full[k], full[q]));
    }
}

/// A member that joins below a chunk's `n` highest-ranked members leaves
/// them as they were, in the same order.
pub proof fn law_ranking_survives_arrival(hash: Seq<u8>, members: Seq<Seq<u8>>, p: Seq<u8>, n: int)
    requires
        0 <= n,
        !ranked_peers(scored_members(hash, members.push(p)), n).contains(p),
    ensures
        ranked_peers(scored_members(hash, members.push(p)), n) == ranked_peers(scored_members(hash, members), n),
{
    let joined = members.push(p);
    law_ranking_survives_departure(hash, joined, members.len() as int, n);
    assert(joined.remove(members.len() as int) =~= members);
}

/// Every chunk has two designated holders: among two or more distinct
/// members, the two that rank highest are two distinct members.
pub proof fn law_two_designated_holders(hash: Seq<u8>, members: Seq<Seq<u8>>)
    requires
        members.no_duplicates(),
        members.len() >= 2,
    ensures
        ranked_peers(scored_members(hash, members), 2).len() == 2,
        ranked_peers(scored_members(hash, members), 2)[0] != ranked_peers(scored_members(hash, members), 2)[1],
        members.contains(ranked_peers(scored_members(hash, members), 2)[0]),
        members.contains(ranked_peers(scored_members(hash, members), 2)[1]),
{
    broadcast use vstd::multiset::group_multiset_axioms;

    let sm = scored_members(hash, members);
    let full = sm.sort_by(ranks());
    lemma_ranks_total();
    sm.lemma_sort_by_ensures(ranks());
    assert(full.len() == sm.len()) by {
        assert(full.to_multiset().len() == full.len());
        assert(sm.to_multiset().len() == sm.len());
    }
    assert(sm.no_duplicates()) by {
        assert forall|i: int, j: int| 0 <= i < sm.len() && 0 <= j < sm.len() && i != j implies sm[i] != sm[j] by {
            assert(sm[i].1 == members[i]);
            assert(sm[j].1 == members[j]);
        }
    }
    sm.lemma_multiset_has_no_duplicates();
    assert forall|x: (u64, Seq<u8>)| full.to_multiset().contains(x) implies full.to_multiset().count(x) == 1 by {
        assert(sm.to_multiset().count(x) == full.to_multiset().count(x));
    }
    full.lemma_multiset_has_no_duplicates_conv();
    let top = ranked_peers(sm, 2);
    assert(top =~= ranked_keys(full.take(2)));
    assert forall|k: int| 0 <= k < 2 implies members.contains(#[trigger] full[k].1) && full[k] == (hrw_value(hash, full[k].1), full[k].1) by {
        assert(full.to_multiset().count(full[k]) > 0);
        assert(sm.to_multiset().count(full[k]) > 0);
        assert(sm.contains(full[k]));
        let j = choose|j: int| 0 <= j < sm.len() && sm[j] == full[k];
        assert(members[j] == full[k].1);
    }
    assert(full[0] != full[1]);
    assert(top[0] == full[0].1);
    assert(top[1] == full[1].1);
}

/// Rendezvous placement moves nothing needlessly: when a member that is
/// not among a chunk's `n` highest-ranked members leaves, those `n`
/// members stay the same, in the same order.
pub proof fn law_ranking_survives_departure(hash: Seq<u8>, members: Seq<Seq<u8>>, j: int, n: int)
    requires
        0 <= j < members.len(),
        0 <= n,
        !ranked_peers(scored_members(hash, members), n).contains(members[j]),
    ensures
        ranked_peers(scored_members(hash, members.remove(j)), n) == ranked_peers(scored_members(hash, members), n),
{
    broadcast use vstd::multiset::group_multiset_axioms;

    let sm = scored_members(hash, members);
    let sm2 = scored_members(hash, members.remove(j));
    assert(sm2 =~= sm.remove(j));
    let full = sm.sort_by(ranks());
    lemma_ranks_total();
    sm.lemma_sort_by_ensures(ranks());
    sm2.lemma_sort_by_ensures(ranks());
    assert(full.len() == sm.len()) by {
        assert(full.to_multiset().len() == full.len());
        assert(sm.to_multiset().len() == sm.len());
    }
    let x = sm[j];
    assert(x.1 == members[j]);
    assert(full.to_multiset().count(x) > 0) by {
        assert(sm.to_multiset().count(x) > 0);
    }
    assert(full.contains(x));
    let pos = choose|pos: int| 0 <= pos < full.len() && full[pos] == x;
    assert(pos >= n) by {
        if pos < n {
            let top = ranked_peers(sm, n);
            if n < full.len() {
                assert(top[pos] == full.take(n)[pos].1);
            } else {
                assert(top[pos] == full[pos].1);
            }
            assert(top[pos] == members[j]);
            assert(top.contains(members[j]));
        }
    }
    let rest = full.remove(pos);
    assert(sorted_by(rest, ranks())) by {
        assert forall|a: int, b: int| 0 <= a < b < rest.len() implies #[trigger] ranks()(rest[a], rest[b]) by {
            let a0 = if a < pos { a } else { a + 1 };
            let b0 = if b < pos { b } else { b + 1 };
            assert(rest[a] == full[a0]);
            assert(rest[b] == full[b0]);
            assert(ranks()(full[a0], full[b0]));
        }
    }
    assert(rest.to_multiset() == full.to_multiset().remove(x));
    assert(sm2.to_multiset() == sm.to_multiset().remove(x));
    vstd::seq_lib::lemma_sorted_unique(rest, sm2.sort_by(ranks()), ranks());
    assert(rest.len() == full.len() - 1);
    assert(n <= rest.len());
    assert(rest.take(n) =~= full.take(n));
    if n < rest.len() {
        assert(ranked_peers(sm2, n) == ranked_keys(rest.take(n)));
    } else {
        assert(rest =~= rest.take(n));
        assert(ranked_peers(sm2, n) == ranked_keys(rest));
    }
    assert(ranked_peers(sm, n) == ranked_keys(full.take(n)));
}


/// `k` is a place for `x` in the ranked sequence: everything before it
/// ranks before `x`, and `x` ranks before everything from it on.
pub open spec fn rank_place(f: Seq<(u64, Seq<u8>)>, x: (u64, Seq<u8>), k: int) -> bool {
    &&& 0 <= k <= f.len()
    &&& forall|i: int| 0 <= i < k ==> #[trigger] ranks()(f[i], x)
    &&& forall|i: int| k <= i < f.len() ==> #[trigger] ranks()(x, f[i])
}

/// In a ranked sequence there is a place for any scored peer: everything
/// before it ranks before the peer, the peer ranks before everything
/// after it.
proof fn lemma_rank_position(f: Seq<(u64, Seq<u8>)>, x: (u64, Seq<u8>))
    requires
        sorted_by(f, ranks()),
    ensures
        exists|k: int| #[trigger] rank_place(f, x, k),
    decreases f.len(),
{
    lemma_ranks_total();
    if f.len() == 0 {
        assert(rank_place(f, x, 0));
    } else {
        let d = f.drop_last();
        assert(sorted_by(d, ranks())) by {
            assert forall|a: int, b: int| 0 <= a < b < d.len() implies #[trigger] ranks()(d[a], d[b]) by {
                assert(d[a] == f[a] && d[b] == f[b]);
            }
        }
        lemma_rank_position(d, x);
        let k0 = choose|k: int| #[trigger] rank_place(d, x, k);
        let last = f.len() - 1;
        if k0 < d.len() {
            assert(ranks()(x, d[k0]));
            assert(ranks()(f[k0], f[last]));
            assert(ranks()(x, f[last]));
            assert forall|i: int| 0 <= i < k0 implies #[trigger] ranks()(f[i], x) by {
                assert(f[i] == d[i]);
            }
            assert forall|i: int| k0 <= i < f.len() implies #[trigger] ranks()(x, f[i]) by {
                if i < last {
                    assert(f[i] == d[i]);
                }
            }
            assert(rank_place(f, x, k0));
        } else if ranks()(f[last], x) {
            assert forall|i: int| 0 <= i < f.len() implies #[trigger] ranks()(f[i], x) by {
                if i < last {
                    assert(f[i] == d[i]);
                }
            }
            assert(forall|i: int| f.len() <= i < f.len() ==> #[trigger] ranks()(x, f[i]));
            assert(rank_place(f, x, f.len() as int));
        } else {
            assert(ranks()(x, f[last]));
            assert forall|i: int| 0 <= i < last implies #[trigger] ranks()(f[i], x) by {
                assert(f[i] == d[i]);
            }
            assert(forall|i: int| last <= i < f.len() ==> #[trigger] ranks()(x, f[i]));
            assert(rank_place(f, x, last));
        }
    }
}

/// `new_top` is `old_top` with `p` inserted at place `k`, cut to its
/// length; everything in `old_top` before `k` ranks before `p`, and `p`
/// ranks before everything from `k` on.
pub open spec fn inserted_at_rank(hash: Seq<u8>, old_top: Seq<Seq<u8>>, new_top: Seq<Seq<u8>>, p: Seq<u8>, k: int) -> bool {
    &&& 0 <= k <= old_top.len()
    &&& new_top == old_top.insert(k, p).take(new_top.len() as int)
    &&& forall|i: int| 0 <= i < k ==> rank_leq((hrw_value(hash, #[trigger] old_top[i]), old_top[i]), (hrw_value(hash, p), p))
    &&& forall|i: int| k <= i < old_top.len() ==> rank_leq((hrw_value(hash, p), p), (hrw_value(hash, #[trigger] old_top[i]), old_top[i]))
}

/// Rendezvous placement on arrival: when a new member joins, a chunk's
/// `n` highest-ranked members are the old ones with the newcomer inserted
/// at its rank; the lowest of them drops out only when there were `n`
/// already, and when the newcomer ranks below all `n` nothing changes.
pub proof fn law_ranking_on_arrival(hash: Seq<u8>, members: Seq<Seq<u8>>, p: Seq<u8>, n: int)
    requires
        0 <= n,
        !members.contains(p),
    ensures
        ranked_peers(scored_members(hash, members.push(p)), n).len() == if n < members.len() + 1 { n } else { members.len() + 1int },
        exists|k: int| #[trigger] inserted_at_rank(
            hash,
            ranked_peers(scored_members(hash, members), n),
            ranked_peers(scored_members(hash, members.push(p)), n),
            p,
            k,
        ),
{
    broadcast use vstd::multiset::group_multiset_axioms;
    broadcast use vstd::seq_lib::to_multiset_insert;

    let xp = (hrw_value(hash, p), p);
    let sm = scored_members(hash, members);
    let sm2 = scored_members(hash, members.push(p));
    assert(sm2 =~= sm.push(xp));
    lemma_ranks_total();
    sm.lemma_sort_by_ensures(ranks());
    sm2.lemma_sort_by_ensures(ranks());
    let f = sm.sort_by(ranks());
    let g = sm2.sort_by(ranks());
    assert(f.len() == sm.len()) by {
        assert(f.to_multiset().len() == f.len());
        assert(sm.to_multiset().len() == sm.len());
    }
    assert(g.len() == sm2.len()) by {
        assert(g.to_multiset().len() == g.len());
        assert(sm2.to_multiset().len() == sm2.len());
    }
    assert forall|k: int| 0 <= k < f.len() implies #[trigger] f[k] == (hrw_value(hash, f[k].1), f[k].1) by {
        assert(f.to_multiset().count(f[k]) > 0);
        assert(sm.to_multiset().count(f[k]) > 0);
        assert(sm.contains(f[k]));
        let j = choose|j: int| 0 <= j < sm.len() && sm[j] == f[k];
    }
    lemma_rank_position(f, xp);
    let k = choose|k: int| #[trigger] rank_place(f, xp, k);
    let h = f.insert(k, xp);
    assert(sorted_by(h, ranks())) by {
        assert forall|a: int, b: int| 0 <= a < b < h.len() implies #[trigger] ranks()(h[a], h[b]) by {
            if a < k && b < k {
                assert(h[a] == f[a] && h[b] == f[b]);
            } else if a < k && b == k {
                assert(h[a] == f[a]);
            } else if a < k {
                assert(h[a] == f[a] && h[b] == f[b - 1]);
            } else if a == k {
                assert(h[b] == f[b - 1]);
            } else {
                assert(h[a] == f[a - 1] && h[b] == f[b - 1]);
            }
        }
    }
    assert(h.to_multiset() == f.to_multiset().insert(xp));
    assert(sm2.to_multiset() == sm.to_multiset().insert(xp));
    vstd::seq_lib::lemma_sorted_unique(h, g, ranks());
    let old_top = ranked_peers(sm, n);
    let new_top = ranked_peers(sm2, n);
    let lo = if n < f.len() { n } else { f.len() as int };
    let ln = if n < g.len() { n } else { g.len() as int };
    assert(old_top =~= ranked_keys(f.take(lo)));
    assert(new_top =~= ranked_keys(g.take(ln)));
    assert(old_top.len() == lo);
    assert(new_top.len() == ln);
    let w = if k <= lo { k } else { lo };
    assert(new_top =~= old_top.insert(w, p).take(ln)) by {
        assert forall|j: int| 0 <= j < ln implies new_top[j] == old_top.insert(w, p).take(ln)[j] by {
            assert(new_top[j] == g[j].1);
            assert(g[j] == h[j]);
            if j < w {
                assert(h[j] == f[j]);
                assert(old_top[j] == f[j].1);
            } else if j == w {
                if w == k {
                    assert(h[j] == xp);
                } else {
                    assert(false);
                }
            } else {
                assert(h[j] == f[j - 1]);
                assert(old_top[j - 1] == f[j - 1].1);
            }
        }
    }
    assert forall|i: int| 0 <= i < w implies rank_leq((hrw_value(hash, #[trigger] old_top[i]), old_top[i]), (hrw_value(hash, p), p)) by {
        assert(old_top[i] == f[i].1);
        assert(ranks()(f[i], xp));
    }
    assert forall|i: int| w <= i < old_top.len() implies rank_leq((hrw_value(hash, p), p), (hrw_value(hash, #[trigger] old_top[i]), old_top[i])) by {
        assert(old_top[i] == f[i].1);
        assert(ranks()(xp, f[i]));
    }
    assert(inserted_at_rank(hash, old_top, new_top, p, w));
}

} // verus!
