use vstd::prelude::*;

use crate::domain::{Chunk, ChunkHash};

verus! {

/// The number of bytes of unpinned chunks kept as a read cache: sixteen
/// of the largest chunks.
pub const MAX_CACHED_BYTES: usize = 16777216;

/// Why chunks could not be stored.
#[derive(Debug)]
pub enum StorageError {
    StorageFull,
}

/// The sum of a sequence of integers.
pub open spec fn sum(s: Seq<int>) -> int
    decreases s.len(),
{
    if s.len() == 0 {
        0
    } else {
        sum(s.drop_last()) + s.last()
    }
}

pub proof fn lemma_sum_push(s: Seq<int>, x: int)
    ensures
        sum(s.push(x)) == sum(s) + x,
{
    assert(s.push(x).drop_last() =~= s);
}

pub proof fn lemma_sum_update(s: Seq<int>, i: int, x: int)
    requires
        0 <= i < s.len(),
    ensures
        sum(s.update(i, x)) == sum(s) - s[i] + x,
    decreases s.len(),
{
    if i == s.len() - 1 {
        assert(s.update(i, x).drop_last() =~= s.drop_last());
    } else {
        lemma_sum_update(s.drop_last(), i, x);
        assert(s.update(i, x).drop_last() =~= s.drop_last().update(i, x));
    }
}

pub proof fn lemma_sum_remove(s: Seq<int>, i: int)
    requires
        0 <= i < s.len(),
    ensures
        sum(s.remove(i)) == sum(s) - s[i],
    decreases s.len(),
{
    if i == s.len() - 1 {
        assert(s.remove(i) =~= s.drop_last());
    } else {
        lemma_sum_remove(s.drop_last(), i);
        assert(s.remove(i).drop_last() =~= s.drop_last().remove(i));
    }
}

pub proof fn lemma_sum_nonneg(s: Seq<int>)
    requires
        forall|i: int| 0 <= i < s.len() ==> s[i] >= 0,
    ensures
        sum(s) >= 0,
        forall|i: int| 0 <= i < s.len() ==> s[i] <= sum(s),
    decreases s.len(),
{
    if s.len() > 0 {
        lemma_sum_nonneg(s.drop_last());
        assert forall|i: int| 0 <= i < s.len() implies s[i] <= sum(s) by {
            if i < s.len() - 1 {
                assert(s.drop_last()[i] == s[i]);
            }
        }
    }
}

/// The sequence without the given element.
pub open spec fn without(s: Seq<Seq<u8>>, h: Seq<u8>) -> Seq<Seq<u8>> {
    s.filter(differs(h))
}

/// Holds of the elements other than `h`.
pub open spec fn differs(h: Seq<u8>) -> spec_fn(Seq<u8>) -> bool {
    |x: Seq<u8>| x != h
}

proof fn lemma_without_absent(s: Seq<Seq<u8>>, h: Seq<u8>)
    requires
        !s.contains(h),
    ensures
        without(s, h) == s,
    decreases s.len(),
{
    if s.len() > 0 {
        let p = differs(h);
        lemma_without_absent(s.drop_last(), h);
        assert(s.drop_last().push(s.last()) =~= s);
        s.drop_last().lemma_filter_push(s.last(), p);
        assert(!s.drop_last().contains(h)) by {
            if s.drop_last().contains(h) {
                let i = choose|i: int| 0 <= i < s.drop_last().len() && s.drop_last()[i] == h;
                assert(s[i] == h);
            }
        }
    } else {
        assert(s.filter(differs(h)) =~= s) by {
            reveal(Seq::filter);
        }
    }
}

/// Removing the only occurrence of an element is removing it at its index.
proof fn lemma_without_at(s: Seq<Seq<u8>>, k: int)
    requires
        s.no_duplicates(),
        0 <= k < s.len(),
    ensures
        without(s, s[k]) == s.remove(k),
    decreases s.len(),
{
    let h = s[k];
    let p = differs(h);
    assert(s.drop_last().push(s.last()) =~= s);
    s.drop_last().lemma_filter_push(s.last(), p);
    if k == s.len() - 1 {
        assert(!s.drop_last().contains(h)) by {
            if s.drop_last().contains(h) {
                let i = choose|i: int| 0 <= i < s.drop_last().len() && s.drop_last()[i] == h;
                assert(s[i] == h);
            }
        }
        lemma_without_absent(s.drop_last(), h);
        assert(s.remove(k) =~= s.drop_last());
    } else {
        assert(s.drop_last().no_duplicates());
        assert(s.drop_last()[k] == h);
        lemma_without_at(s.drop_last(), k);
        assert(s.last() != h);
        assert(s.remove(k) =~= s.drop_last().remove(k).push(s.last()));
    }
}

/// What stays in a sequence when an element is removed.
proof fn lemma_in_without(s: Seq<Seq<u8>>, h: Seq<u8>, m: int)
    requires
        0 <= m < s.len(),
        s[m] != h,
    ensures
        without(s, h).contains(s[m]),
{
    s.lemma_filter_contains(differs(h), m);
}

/// Whatever is in a sequence without an element was in the sequence.
proof fn lemma_from_without(s: Seq<Seq<u8>>, h: Seq<u8>, x: Seq<u8>)
    requires
        without(s, h).contains(x),
    ensures
        s.contains(x),
        x != h,
{
    s.lemma_filter_contains_rev(differs(h), x);
}

/// The bytes held by the first `n` chunks of a recency list.
pub open spec fn freed(contents: Map<Seq<u8>, (Seq<u8>, bool)>, lru: Seq<Seq<u8>>, n: int) -> int
    decreases n,
{
    if n <= 0 {
        0
    } else {
        freed(contents, lru, n - 1) + contents[lru[n - 1]].0.len()
    }
}

proof fn lemma_sum_zero(s: Seq<int>)
    requires
        forall|i: int| 0 <= i < s.len() ==> s[i] == 0,
    ensures
        sum(s) == 0,
    decreases s.len(),
{
    if s.len() > 0 {
        lemma_sum_zero(s.drop_last());
    }
}

/// A chunk to pin, seen as its address and its bytes.
pub open spec fn chunk_view(c: Chunk) -> (Seq<u8>, Seq<u8>) {
    (c.hash_view(), c.data_view())
}

/// The chunks to pin, seen as addresses and bytes.
pub open spec fn chunk_views(cs: Seq<Chunk>) -> Seq<(Seq<u8>, Seq<u8>)> {
    cs.map_values(|c: Chunk| chunk_view(c))
}

/// What storage holds after pinning one chunk: a stored chunk keeps its
/// bytes and becomes pinned, a new one is stored pinned.
pub open spec fn pin_step(m: Map<Seq<u8>, (Seq<u8>, bool)>, c: (Seq<u8>, Seq<u8>)) -> Map<Seq<u8>, (Seq<u8>, bool)> {
    if m.contains_key(c.0) {
        m.insert(c.0, (m[c.0].0, true))
    } else {
        m.insert(c.0, (c.1, true))
    }
}

/// The pinned bytes that pinning one chunk adds.
pub open spec fn pin_step_cost(m: Map<Seq<u8>, (Seq<u8>, bool)>, c: (Seq<u8>, Seq<u8>)) -> int {
    if m.contains_key(c.0) {
        if m[c.0].1 { 0 } else { m[c.0].0.len() as int }
    } else {
        c.1.len() as int
    }
}

/// The cached bytes that pinning one chunk moves to the pinned ones.
pub open spec fn pin_step_release(m: Map<Seq<u8>, (Seq<u8>, bool)>, c: (Seq<u8>, Seq<u8>)) -> int {
    if m.contains_key(c.0) && !m[c.0].1 { m[c.0].0.len() as int } else { 0 }
}

/// What storage holds after pinning the chunks one after another.
pub open spec fn pin_all(m: Map<Seq<u8>, (Seq<u8>, bool)>, cs: Seq<(Seq<u8>, Seq<u8>)>) -> Map<Seq<u8>, (Seq<u8>, bool)>
    decreases cs.len(),
{
    if cs.len() == 0 {
        m
    } else {
        pin_step(pin_all(m, cs.drop_last()), cs.last())
    }
}

/// The pinned bytes that pinning the chunks one after another adds.
pub open spec fn pin_cost(m: Map<Seq<u8>, (Seq<u8>, bool)>, cs: Seq<(Seq<u8>, Seq<u8>)>) -> int
    decreases cs.len(),
{
    if cs.len() == 0 {
        0
    } else {
        pin_cost(m, cs.drop_last()) + pin_step_cost(pin_all(m, cs.drop_last()), cs.last())
    }
}

/// The cached bytes that pinning the chunks one after another moves to
/// the pinned ones.
pub open spec fn pin_release(m: Map<Seq<u8>, (Seq<u8>, bool)>, cs: Seq<(Seq<u8>, Seq<u8>)>) -> int
    decreases cs.len(),
{
    if cs.len() == 0 {
        0
    } else {
        pin_release(m, cs.drop_last()) + pin_step_release(pin_all(m, cs.drop_last()), cs.last())
    }
}

/// The recency list after pinning the chunks one after another.
pub open spec fn lru_after_pins(lru: Seq<Seq<u8>>, cs: Seq<(Seq<u8>, Seq<u8>)>) -> Seq<Seq<u8>>
    decreases cs.len(),
{
    if cs.len() == 0 {
        lru
    } else {
        without(lru_after_pins(lru, cs.drop_last()), cs.last().0)
    }
}

/// Pinning more chunks never costs less.
pub proof fn lemma_pin_cost_grows(m: Map<Seq<u8>, (Seq<u8>, bool)>, cs: Seq<(Seq<u8>, Seq<u8>)>, k: int)
    requires
        0 <= k <= cs.len(),
    ensures
        pin_cost(m, cs.take(k)) <= pin_cost(m, cs),
        pin_cost(m, cs.take(k)) >= 0,
    decreases cs.len(),
{
    if k == cs.len() {
        assert(cs.take(k) =~= cs);
        lemma_pin_cost_nonneg(m, cs);
    } else {
        lemma_pin_cost_grows(m, cs.drop_last(), k);
        assert(cs.drop_last().take(k) =~= cs.take(k));
    }
}

proof fn lemma_pin_cost_nonneg(m: Map<Seq<u8>, (Seq<u8>, bool)>, cs: Seq<(Seq<u8>, Seq<u8>)>)
    ensures
        pin_cost(m, cs) >= 0,
    decreases cs.len(),
{
    if cs.len() > 0 {
        lemma_pin_cost_nonneg(m, cs.drop_last());
    }
}

/// What pinning a prefix of the chunks leaves: the chunks stored before,
/// and each address of the prefix pinned, holding the bytes stored
/// before or else those of its first occurrence.
proof fn lemma_pin_all_shape(m: Map<Seq<u8>, (Seq<u8>, bool)>, cs: Seq<(Seq<u8>, Seq<u8>)>)
    ensures
        forall|h: Seq<u8>| #[trigger] pin_all(m, cs).contains_key(h) <==> (m.contains_key(h) || exists|k: int| 0 <= k < cs.len() && cs[k].0 == h),
        forall|h: Seq<u8>| #![trigger pin_all(m, cs)[h]] m.contains_key(h) ==> pin_all(m, cs)[h].0 == m[h].0,
        forall|h: Seq<u8>| #![trigger pin_all(m, cs)[h]] (exists|k: int| 0 <= k < cs.len() && cs[k].0 == h) ==> pin_all(m, cs)[h].1,
        forall|h: Seq<u8>| #![trigger pin_all(m, cs)[h]] m.contains_key(h) && !(exists|k: int| 0 <= k < cs.len() && cs[k].0 == h) ==> pin_all(m, cs)[h] == m[h],
    decreases cs.len(),
{
    if cs.len() > 0 {
        let p = cs.drop_last();
        lemma_pin_all_shape(m, p);
        assert(pin_all(m, cs) == pin_step(pin_all(m, p), cs.last()));
        let last = cs.len() - 1;
        assert(cs[last].0 == cs.last().0);
        assert forall|h: Seq<u8>| #[trigger] pin_all(m, cs).contains_key(h) <==> (m.contains_key(h) || exists|k: int| 0 <= k < cs.len() && cs[k].0 == h) by {
            if exists|k: int| 0 <= k < p.len() && p[k].0 == h {
                let k = choose|k: int| 0 <= k < p.len() && p[k].0 == h;
                assert(cs[k].0 == h);
            }
            if exists|k: int| 0 <= k < cs.len() && cs[k].0 == h {
                let k = choose|k: int| 0 <= k < cs.len() && cs[k].0 == h;
                if k < p.len() {
                    assert(p[k].0 == h);
                }
            }
            if h == cs.last().0 {
                assert(cs[last].0 == h);
            }
        }
        assert forall|h: Seq<u8>| #![trigger pin_all(m, cs)[h]] (exists|k: int| 0 <= k < cs.len() && cs[k].0 == h) implies pin_all(m, cs)[h].1 by {
            let k = choose|k: int| 0 <= k < cs.len() && cs[k].0 == h;
            if h != cs.last().0 {
                assert(k < p.len());
                assert(p[k].0 == h);
                assert(pin_all(m, p)[h].1);
            }
        }
        assert forall|h: Seq<u8>| #![trigger pin_all(m, cs)[h]] m.contains_key(h) && !(exists|k: int| 0 <= k < cs.len() && cs[k].0 == h) implies pin_all(m, cs)[h] == m[h] by {
            assert(cs[cs.len() - 1].0 != h);
            if exists|k: int| 0 <= k < p.len() && p[k].0 == h {
                let k = choose|k: int| 0 <= k < p.len() && p[k].0 == h;
                assert(cs[k].0 == h);
            }
        }
    }
}

/// Pinning keeps the bytes of every stored chunk, and a newly stored
/// chunk holds the bytes of one of the chunks pinned under its address.
pub proof fn lemma_pin_all_data(m: Map<Seq<u8>, (Seq<u8>, bool)>, cs: Seq<(Seq<u8>, Seq<u8>)>)
    ensures
        forall|i: int| 0 <= i < cs.len() ==> #[trigger] pin_all(m, cs).contains_key(cs[i].0) && pin_all(m, cs)[cs[i].0].1,
        forall|h: Seq<u8>| #[trigger] m.contains_key(h) ==> pin_all(m, cs).contains_key(h) && pin_all(m, cs)[h].0 == m[h].0,
        forall|h: Seq<u8>| #[trigger] pin_all(m, cs).contains_key(h) && !m.contains_key(h) ==> exists|k: int| 0 <= k < cs.len() && cs[k].0 == h && pin_all(m, cs)[h].0 == cs[k].1,
    decreases cs.len(),
{
    lemma_pin_all_shape(m, cs);
    if cs.len() > 0 {
        let p = cs.drop_last();
        lemma_pin_all_data(m, p);
        let last = cs.len() - 1;
        assert(cs[last] == cs.last());
        assert forall|i: int| 0 <= i < cs.len() implies #[trigger] pin_all(m, cs).contains_key(cs[i].0) && pin_all(m, cs)[cs[i].0].1 by {
            if i < last {
                assert(p[i] == cs[i]);
            }
        }
        assert forall|h: Seq<u8>| #[trigger] pin_all(m, cs).contains_key(h) && !m.contains_key(h) implies exists|k: int| 0 <= k < cs.len() && cs[k].0 == h && pin_all(m, cs)[h].0 == cs[k].1 by {
            if h == cs.last().0 {
                if pin_all(m, p).contains_key(h) {
                    let k = choose|k: int| 0 <= k < p.len() && p[k].0 == h && pin_all(m, p)[h].0 == p[k].1;
                    assert(cs[k] == p[k]);
                } else {
                    assert(cs[last].0 == h);
                }
            } else {
                let k = choose|k: int| 0 <= k < p.len() && p[k].0 == h && pin_all(m, p)[h].0 == p[k].1;
                assert(cs[k] == p[k]);
            }
        }
    }
}

/// The sizes of the chunks whose pinned flag is `flag`, zero for the others.
pub open spec fn weights(datas: Seq<Vec<u8>>, pinned: Seq<bool>, flag: bool) -> Seq<int> {
    Seq::new(datas.len(), |i: int| if pinned[i] == flag { datas[i]@.len() as int } else { 0 })
}

/// The hash of each entry of a sequence of hashes, as bytes.
pub open spec fn hash_views(hs: Seq<ChunkHash>) -> Seq<Seq<u8>> {
    hs.map_values(|h: ChunkHash| h@)
}

/// Chunks kept in memory: pinned chunks, which this node holds for the
/// cluster within a fixed capacity, and cached chunks, kept for reading
/// and dropped oldest-used first when the cache is full.
pub struct ChunkStorage {
    hashes: Vec<ChunkHash>,
    datas: Vec<Vec<u8>>,
    pinned: Vec<bool>,
    cache_lru: Vec<ChunkHash>,
    pinned_bytes: usize,
    cached_bytes: usize,
    max_pinned_bytes: usize,
    max_cached_bytes: usize,
}

/// The store after caching a chunk: unchanged when the chunk is stored
/// already or larger than the whole cache; otherwise the fewest least
/// recently used cached chunks that make room are dropped, oldest first,
/// and the chunk is cached as the most recently used.
pub open spec fn cache_step(s0: ChunkStorage, s1: ChunkStorage, h: Seq<u8>, data: Seq<u8>) -> bool {
    &&& s1.capacity() == s0.capacity()
    &&& s1.cache_limit() == s0.cache_limit()
    &&& s1.pinned_bytes() == s0.pinned_bytes()
    &&& s0.contents().contains_key(h) || data.len() > s0.cache_limit() ==> {
        &&& s1.contents() == s0.contents()
        &&& s1.lru() == s0.lru()
        &&& s1.cached_bytes() == s0.cached_bytes()
    }
    &&& !(s0.contents().contains_key(h) || data.len() > s0.cache_limit()) ==> exists|n: int|
        {
            &&& 0 <= n <= s0.lru().len()
            &&& forall|j: int| 0 <= j < n ==> s0.cached_bytes() - #[trigger] freed(s0.contents(), s0.lru(), j) + data.len() > s0.cache_limit()
            &&& s0.cached_bytes() - freed(s0.contents(), s0.lru(), n) + data.len() <= s0.cache_limit()
            &&& s1.contents() == s0.contents().remove_keys(s0.lru().take(n).to_set()).insert(h, (data, false))
            &&& s1.lru() == s0.lru().skip(n).push(h)
            &&& s1.cached_bytes() == s0.cached_bytes() - freed(s0.contents(), s0.lru(), n) + data.len()
        }
}

impl ChunkStorage {
    /// What is stored: for each chunk address, its bytes and whether it
    /// is pinned.
    pub closed spec fn contents(&self) -> Map<Seq<u8>, (Seq<u8>, bool)> {
        Map::new(
            |h: Seq<u8>| exists|i: int| 0 <= i < self.hashes@.len() && #[trigger] self.hashes@[i]@ == h,
            |h: Seq<u8>|
                {
                    let i = choose|i: int| 0 <= i < self.hashes@.len() && #[trigger] self.hashes@[i]@ == h;
                    (self.datas@[i]@, self.pinned@[i])
                },
        )
    }

    /// The cached chunks, least recently used first.
    pub closed spec fn lru(&self) -> Seq<Seq<u8>> {
        hash_views(self.cache_lru@)
    }

    /// Bytes held by pinned chunks.
    pub closed spec fn pinned_bytes(&self) -> nat {
        self.pinned_bytes as nat
    }

    /// Bytes held by cached chunks.
    pub closed spec fn cached_bytes(&self) -> nat {
        self.cached_bytes as nat
    }

    /// The most bytes that pinned chunks may hold.
    pub closed spec fn capacity(&self) -> nat {
        self.max_pinned_bytes as nat
    }

    /// The most bytes that cached chunks may hold.
    pub closed spec fn cache_limit(&self) -> nat {
        self.max_cached_bytes as nat
    }

    /// The recency list's entry `k` names a stored, unpinned chunk.
    closed spec fn lru_slot_cached(&self, k: int) -> bool {
        exists|i: int|
            0 <= i < self.hashes@.len() && !self.pinned@[i] && #[trigger] self.hashes@[i]@
                == self.cache_lru@[k]@
    }

    /// The storage's bookkeeping is consistent.
    pub closed spec fn wf(&self) -> bool {
        &&& self.hashes@.len() == self.datas@.len()
        &&& self.hashes@.len() == self.pinned@.len()
        &&& forall|i: int, j: int|
            0 <= i < self.hashes@.len() && 0 <= j < self.hashes@.len() && i != j
                ==> #[trigger] self.hashes@[i]@ != #[trigger] self.hashes@[j]@
        &&& self.pinned_bytes as int == sum(weights(self.datas@, self.pinned@, true))
        &&& self.cached_bytes as int == sum(weights(self.datas@, self.pinned@, false))
        &&& self.pinned_bytes <= self.max_pinned_bytes
        &&& self.cached_bytes <= self.max_cached_bytes
        &&& self.max_cached_bytes == MAX_CACHED_BYTES
        &&& hash_views(self.cache_lru@).no_duplicates()
        &&& forall|k: int| 0 <= k < self.cache_lru@.len() ==> #[trigger] self.lru_slot_cached(k)
        &&& forall|i: int|
            0 <= i < self.hashes@.len() && !self.pinned@[i] ==> hash_views(
                self.cache_lru@,
            ).contains(#[trigger] self.hashes@[i]@)
    }

    /// The laws that every consistent storage obeys: pinned chunks stay
    /// within the capacity, cached chunks within the cache limit, and the
    /// recency list holds each cached chunk once and nothing else.
    pub proof fn lemma_wf_laws(&self)
        requires
            self.wf(),
        ensures
            self.pinned_bytes() <= self.capacity(),
            self.cached_bytes() <= self.cache_limit(),
            self.cache_limit() == MAX_CACHED_BYTES,
            self.lru().no_duplicates(),
            forall|h: Seq<u8>|
                #![trigger self.lru().contains(h)]
                self.lru().contains(h) <==> (self.contents().contains_key(h)
                    && !self.contents()[h].1),
    {
        assert forall|h: Seq<u8>| #![trigger self.lru().contains(h)] self.lru().contains(h) <==> (
        self.contents().contains_key(h) && !self.contents()[h].1) by {
            if self.lru().contains(h) {
                let k = choose|k: int| 0 <= k < self.lru().len() && self.lru()[k] == h;
                assert(self.cache_lru@[k]@ == h);
                assert(self.lru_slot_cached(k));
                let i = choose|i: int|
                    0 <= i < self.hashes@.len() && !self.pinned@[i] && #[trigger] self.hashes@[i]@
                        == self.cache_lru@[k]@;
                self.lemma_contents_at(i);
            }
            if self.contents().contains_key(h) && !self.contents()[h].1 {
                let i = choose|i: int| 0 <= i < self.hashes@.len() && #[trigger] self.hashes@[i]@ == h;
                self.lemma_contents_at(i);
            }
        }
    }

    proof fn lemma_contents_at(&self, i: int)
        requires
            self.wf(),
            0 <= i < self.hashes@.len(),
        ensures
            self.contents().contains_key(self.hashes@[i]@),
            self.contents()[self.hashes@[i]@] == (self.datas@[i]@, self.pinned@[i]),
    {
        let h = self.hashes@[i]@;
        assert(self.contents().dom().contains(h));
        let j = choose|j: int| 0 <= j < self.hashes@.len() && #[trigger] self.hashes@[j]@ == h;
        assert(i == j);
    }

    proof fn lemma_contents_absent(&self, h: Seq<u8>)
        requires
            forall|i: int| 0 <= i < self.hashes@.len() ==> #[trigger] self.hashes@[i]@ != h,
        ensures
            !self.contents().contains_key(h),
    {
    }

    /// An empty storage with room for `max_pinned_bytes` of pinned chunks.
    pub fn new(max_pinned_bytes: usize) -> (r: Self)
        ensures
            r.wf(),
            r.contents() == Map::<Seq<u8>, (Seq<u8>, bool)>::empty(),
            r.lru() == Seq::<Seq<u8>>::empty(),
            r.capacity() == max_pinned_bytes,
            r.cache_limit() == MAX_CACHED_BYTES,
            r.pinned_bytes() == 0,
            r.cached_bytes() == 0,
    {
        let r = ChunkStorage {
            hashes: Vec::new(),
            datas: Vec::new(),
            pinned: Vec::new(),
            cache_lru: Vec::new(),
            pinned_bytes: 0,
            cached_bytes: 0,
            max_pinned_bytes,
            max_cached_bytes: MAX_CACHED_BYTES,
        };
        proof {
            assert(weights(r.datas@, r.pinned@, true) =~= Seq::<int>::empty());
            assert(weights(r.datas@, r.pinned@, false) =~= Seq::<int>::empty());
            assert(r.contents() =~= Map::<Seq<u8>, (Seq<u8>, bool)>::empty());
            assert(hash_views(r.cache_lru@) =~= Seq::<Seq<u8>>::empty());
        }
        r
    }

    /// The capacity for pinned chunks, in bytes.
    pub fn capacity_bytes(&self) -> (r: usize)
        ensures
            r == self.capacity(),
    {
        self.max_pinned_bytes
    }

    /// The bytes still free for pinned chunks.
    pub fn free_bytes(&self) -> (r: usize)
        requires
            self.wf(),
        ensures
            r == self.capacity() - self.pinned_bytes(),
    {
        self.max_pinned_bytes - self.pinned_bytes
    }

    fn find(&self, hash: &ChunkHash) -> (r: Option<usize>)
        requires
            self.wf(),
        ensures
            match r {
                Some(i) => i < self.hashes@.len() && self.hashes@[i as int]@ == hash@,
                None => forall|i: int| 0 <= i < self.hashes@.len() ==> #[trigger] self.hashes@[i]@ != hash@,
            },
    {
        let mut i: usize = 0;
        while i < self.hashes.len()
            invariant
                0 <= i <= self.hashes@.len(),
                forall|j: int| 0 <= j < i ==> #[trigger] self.hashes@[j]@ != hash@,
            decreases self.hashes@.len() - i,
        {
            if self.hashes[i].same(hash) {
                return Some(i);
            }
            i = i + 1;
        }
        None
    }

    /// Whether a chunk with this address is stored, pinned or cached.
    pub fn contains(&self, hash: &ChunkHash) -> (r: bool)
        requires
            self.wf(),
        ensures
            r == self.contents().contains_key(hash@),
    {
        match self.find(hash) {
            Some(i) => {
                proof {
                    self.lemma_contents_at(i as int);
                }
                true
            },
            None => false,
        }
    }

    /// Whether a chunk with this address is stored and pinned.
    pub fn is_pinned(&self, hash: &ChunkHash) -> (r: bool)
        requires
            self.wf(),
        ensures
            r == (self.contents().contains_key(hash@) && self.contents()[hash@].1),
    {
        match self.find(hash) {
            Some(i) => {
                proof {
                    self.lemma_contents_at(i as int);
                }
                self.pinned[i]
            },
            None => false,
        }
    }

    /// Whether a chunk with this address is stored and only cached.
    pub fn is_cached(&self, hash: &ChunkHash) -> (r: bool)
        requires
            self.wf(),
        ensures
            r == (self.contents().contains_key(hash@) && !self.contents()[hash@].1),
    {
        match self.find(hash) {
            Some(i) => {
                proof {
                    self.lemma_contents_at(i as int);
                }
                !self.pinned[i]
            },
            None => false,
        }
    }

    fn lru_position(&self, hash: &ChunkHash) -> (r: Option<usize>)
        ensures
            match r {
                Some(k) => k < self.cache_lru@.len() && self.cache_lru@[k as int]@ == hash@,
                None => !hash_views(self.cache_lru@).contains(hash@),
            },
    {
        let mut k: usize = 0;
        while k < self.cache_lru.len()
            invariant
                0 <= k <= self.cache_lru@.len(),
                forall|j: int| 0 <= j < k ==> #[trigger] self.cache_lru@[j]@ != hash@,
            decreases self.cache_lru@.len() - k,
        {
            if self.cache_lru[k].same(hash) {
                return Some(k);
            }
            k = k + 1;
        }
        proof {
            if hash_views(self.cache_lru@).contains(hash@) {
                let j = choose|j: int| 0 <= j < hash_views(self.cache_lru@).len() && hash_views(self.cache_lru@)[j] == hash@;
                assert(self.cache_lru@[j]@ == hash@);
            }
        }
        None
    }

    /// The bytes of the chunk with this address, if it is stored. A cached
    /// chunk that is read becomes the most recently used.
    pub fn get(&mut self, hash: &ChunkHash) -> (r: Option<Vec<u8>>)
        requires
            old(self).wf(),
        ensures
            final(self).wf(),
            final(self).contents() == old(self).contents(),
            final(self).pinned_bytes() == old(self).pinned_bytes(),
            final(self).cached_bytes() == old(self).cached_bytes(),
            final(self).capacity() == old(self).capacity(),
            final(self).cache_limit() == old(self).cache_limit(),
            match r {
                Some(data) => old(self).contents().contains_key(hash@) && data@ == old(self).contents()[hash@].0,
                None => !old(self).contents().contains_key(hash@),
            },
            final(self).lru() == if old(self).contents().contains_key(hash@) && !old(self).contents()[hash@].1 {
                without(old(self).lru(), hash@).push(hash@)
            } else {
                old(self).lru()
            },
    {
        match self.find(hash) {
            None => {
                proof {
                    self.lemma_contents_absent(hash@);
                }
                None
            },
            Some(i) => {
                proof {
                    self.lemma_contents_at(i as int);
                }
                let data = self.datas[i].clone();
                proof {
                    assert(data@ =~= self.datas@[i as int]@);
                }
                if !self.pinned[i] {
                    let ghost before = *self;
                    proof {
                        self.lemma_wf_laws();
                        assert(self.lru().contains(hash@));
                    }
                    let k = match self.lru_position(hash) {
                        Some(k) => k,
                        None => {
                            proof {
                                assert(false);
                            }
                            0
                        },
                    };
                    proof {
                        lemma_without_at(self.lru(), k as int);
                        assert(self.lru()[k as int] == hash@);
                    }
                    let moved = self.cache_lru.remove(k);
                    self.cache_lru.push(moved);
                    proof {
                        let l0 = hash_views(before.cache_lru@);
                        assert(hash_views(self.cache_lru@) =~= l0.remove(k as int).push(hash@));
                        self.lemma_lru_same_members(&before, k as int);
                    }
                }
                Some(data)
            },
        }
    }

    proof fn lemma_lru_same_members(&self, before: &Self, k: int)
        requires
            before.wf(),
            0 <= k < before.cache_lru@.len(),
            self.hashes == before.hashes,
            self.datas == before.datas,
            self.pinned == before.pinned,
            self.pinned_bytes == before.pinned_bytes,
            self.cached_bytes == before.cached_bytes,
            self.max_pinned_bytes == before.max_pinned_bytes,
            self.max_cached_bytes == before.max_cached_bytes,
            hash_views(self.cache_lru@) == hash_views(before.cache_lru@).remove(k).push(before.cache_lru@[k]@),
        ensures
            self.wf(),
            self.contents() == before.contents(),
    {
        let l0 = hash_views(before.cache_lru@);
        let l1 = hash_views(self.cache_lru@);
        let h = before.cache_lru@[k]@;
        assert(l0[k] == h);
        assert(l1.no_duplicates()) by {
            assert forall|a: int, b: int| 0 <= a < l1.len() && 0 <= b < l1.len() && a != b implies l1[a] != l1[b] by {
                let ia = if a == l1.len() - 1 { k } else if a < k { a } else { a + 1 };
                let ib = if b == l1.len() - 1 { k } else if b < k { b } else { b + 1 };
                assert(l1[a] == l0[ia]);
                assert(l1[b] == l0[ib]);
            }
        }
        assert forall|j: int| 0 <= j < self.cache_lru@.len() implies #[trigger] self.lru_slot_cached(j) by {
            let ij = if j == l1.len() - 1 { k } else if j < k { j } else { j + 1 };
            assert(l1[j] == self.cache_lru@[j]@);
            assert(l0[ij] == before.cache_lru@[ij]@);
            assert(self.cache_lru@[j]@ == before.cache_lru@[ij]@);
            assert(before.lru_slot_cached(ij));
            let i = choose|i: int|
                0 <= i < before.hashes@.len() && !before.pinned@[i] && #[trigger] before.hashes@[i]@
                    == before.cache_lru@[ij]@;
            assert(self.hashes@[i]@ == self.cache_lru@[j]@);
        }
        assert forall|i: int| 0 <= i < self.hashes@.len() && !self.pinned@[i] implies hash_views(
            self.cache_lru@,
        ).contains(#[trigger] self.hashes@[i]@) by {
            assert(l0.contains(self.hashes@[i]@));
            let j = choose|j: int| 0 <= j < l0.len() && l0[j] == self.hashes@[i]@;
            let jj = if j == k { l1.len() - 1 } else if j < k { j } else { j - 1 };
            assert(l1[jj] == l0[j]);
        }
        assert(self.contents() =~= before.contents());
    }

    proof fn lemma_push_entry(&self, before: &Self, h: ChunkHash, d: Vec<u8>, p: bool)
        requires
            before.hashes@.len() == before.datas@.len(),
            before.hashes@.len() == before.pinned@.len(),
            forall|i: int, j: int|
                0 <= i < before.hashes@.len() && 0 <= j < before.hashes@.len() && i != j
                    ==> #[trigger] before.hashes@[i]@ != #[trigger] before.hashes@[j]@,
            forall|i: int| 0 <= i < before.hashes@.len() ==> #[trigger] before.hashes@[i]@ != h@,
            self.hashes@ == before.hashes@.push(h),
            self.datas@ == before.datas@.push(d),
            self.pinned@ == before.pinned@.push(p),
        ensures
            forall|i: int, j: int|
                0 <= i < self.hashes@.len() && 0 <= j < self.hashes@.len() && i != j
                    ==> #[trigger] self.hashes@[i]@ != #[trigger] self.hashes@[j]@,
            self.contents() == before.contents().insert(h@, (d@, p)),
            weights(self.datas@, self.pinned@, true) == weights(before.datas@, before.pinned@, true).push(if p { d@.len() as int } else { 0 }),
            weights(self.datas@, self.pinned@, false) == weights(before.datas@, before.pinned@, false).push(if p { 0 } else { d@.len() as int }),
    {
        assert(weights(self.datas@, self.pinned@, true) =~= weights(before.datas@, before.pinned@, true).push(if p { d@.len() as int } else { 0 }));
        assert(weights(self.datas@, self.pinned@, false) =~= weights(before.datas@, before.pinned@, false).push(if p { 0 } else { d@.len() as int }));
        let n = before.hashes@.len() as int;
        assert forall|k: Seq<u8>| #[trigger] self.contents().contains_key(k) == before.contents().insert(h@, (d@, p)).contains_key(k) by {
            if before.contents().contains_key(k) {
                let i = choose|i: int| 0 <= i < before.hashes@.len() && #[trigger] before.hashes@[i]@ == k;
                assert(self.hashes@[i]@ == k);
            }
            if k == h@ {
                assert(self.hashes@[n]@ == k);
            }
        }
        assert forall|k: Seq<u8>| #[trigger] self.contents().contains_key(k) implies self.contents()[k] == before.contents().insert(h@, (d@, p))[k] by {
            let i = choose|i: int| 0 <= i < self.hashes@.len() && #[trigger] self.hashes@[i]@ == k;
            if i < n {
                assert(before.hashes@[i]@ == k);
                let j = choose|j: int| 0 <= j < before.hashes@.len() && #[trigger] before.hashes@[j]@ == k;
                assert(i == j);
            }
        }
        assert(self.contents() =~= before.contents().insert(h@, (d@, p)));
    }

    proof fn lemma_remove_entry(&self, before: &Self, i: int)
        requires
            before.hashes@.len() == before.datas@.len(),
            before.hashes@.len() == before.pinned@.len(),
            0 <= i < before.hashes@.len(),
            forall|a: int, b: int|
                0 <= a < before.hashes@.len() && 0 <= b < before.hashes@.len() && a != b
                    ==> #[trigger] before.hashes@[a]@ != #[trigger] before.hashes@[b]@,
            self.hashes@ == before.hashes@.remove(i),
            self.datas@ == before.datas@.remove(i),
            self.pinned@ == before.pinned@.remove(i),
        ensures
            forall|a: int, b: int|
                0 <= a < self.hashes@.len() && 0 <= b < self.hashes@.len() && a != b
                    ==> #[trigger] self.hashes@[a]@ != #[trigger] self.hashes@[b]@,
            forall|a: int| 0 <= a < self.hashes@.len() ==> #[trigger] self.hashes@[a]@ != before.hashes@[i]@,
            self.contents() == before.contents().remove(before.hashes@[i]@),
            weights(self.datas@, self.pinned@, true) == weights(before.datas@, before.pinned@, true).remove(i),
            weights(self.datas@, self.pinned@, false) == weights(before.datas@, before.pinned@, false).remove(i),
    {
        assert(weights(self.datas@, self.pinned@, true) =~= weights(before.datas@, before.pinned@, true).remove(i));
        assert(weights(self.datas@, self.pinned@, false) =~= weights(before.datas@, before.pinned@, false).remove(i));
        let h = before.hashes@[i]@;
        assert forall|a: int, b: int|
            0 <= a < self.hashes@.len() && 0 <= b < self.hashes@.len() && a != b
                implies #[trigger] self.hashes@[a]@ != #[trigger] self.hashes@[b]@ by {
            let ia = if a < i { a } else { a + 1 };
            let ib = if b < i { b } else { b + 1 };
            assert(self.hashes@[a] == before.hashes@[ia]);
            assert(self.hashes@[b] == before.hashes@[ib]);
        }
        assert forall|a: int| 0 <= a < self.hashes@.len() implies #[trigger] self.hashes@[a]@ != h by {
            let ia = if a < i { a } else { a + 1 };
            assert(self.hashes@[a] == before.hashes@[ia]);
        }
        let expected = before.contents().remove(h);
        assert forall|k: Seq<u8>| #[trigger] self.contents().contains_key(k) == expected.contains_key(k) by {
            if self.contents().contains_key(k) {
                let a = choose|a: int| 0 <= a < self.hashes@.len() && #[trigger] self.hashes@[a]@ == k;
                let ia = if a < i { a } else { a + 1 };
                assert(before.hashes@[ia]@ == k);
            }
            if expected.contains_key(k) {
                let b = choose|b: int| 0 <= b < before.hashes@.len() && #[trigger] before.hashes@[b]@ == k;
                assert(b != i);
                let a = if b < i { b } else { b - 1 };
                assert(self.hashes@[a]@ == k);
            }
        }
        assert forall|k: Seq<u8>| #[trigger] self.contents().contains_key(k) implies self.contents()[k] == expected[k] by {
            let a = choose|a: int| 0 <= a < self.hashes@.len() && #[trigger] self.hashes@[a]@ == k;
            let ia = if a < i { a } else { a + 1 };
            assert(before.hashes@[ia]@ == k);
            let b = choose|b: int| 0 <= b < before.hashes@.len() && #[trigger] before.hashes@[b]@ == k;
            assert(ia == b);
        }
        assert(self.contents() =~= expected);
    }

    proof fn lemma_pin_entry(&self, before: &Self, i: int)
        requires
            before.hashes@.len() == before.datas@.len(),
            before.hashes@.len() == before.pinned@.len(),
            0 <= i < before.hashes@.len(),
            forall|a: int, b: int|
                0 <= a < before.hashes@.len() && 0 <= b < before.hashes@.len() && a != b
                    ==> #[trigger] before.hashes@[a]@ != #[trigger] before.hashes@[b]@,
            self.hashes@ == before.hashes@,
            self.datas@ == before.datas@,
            self.pinned@ == before.pinned@.update(i, true),
        ensures
            self.contents() == before.contents().insert(before.hashes@[i]@, (before.datas@[i]@, true)),
            weights(self.datas@, self.pinned@, true) == weights(before.datas@, before.pinned@, true).update(i, before.datas@[i]@.len() as int),
            weights(self.datas@, self.pinned@, false) == weights(before.datas@, before.pinned@, false).update(i, 0),
    {
        assert(weights(self.datas@, self.pinned@, true) =~= weights(before.datas@, before.pinned@, true).update(i, before.datas@[i]@.len() as int));
        assert(weights(self.datas@, self.pinned@, false) =~= weights(before.datas@, before.pinned@, false).update(i, 0));
        let h = before.hashes@[i]@;
        let expected = before.contents().insert(h, (before.datas@[i]@, true));
        assert forall|k: Seq<u8>| #[trigger] self.contents().contains_key(k) == expected.contains_key(k) by {
            if self.contents().contains_key(k) {
                let a = choose|a: int| 0 <= a < self.hashes@.len() && #[trigger] self.hashes@[a]@ == k;
                assert(before.hashes@[a]@ == k);
            }
            if expected.contains_key(k) && k != h {
                let b = choose|b: int| 0 <= b < before.hashes@.len() && #[trigger] before.hashes@[b]@ == k;
                assert(self.hashes@[b]@ == k);
            }
            if k == h {
                assert(self.hashes@[i]@ == k);
            }
        }
        assert forall|k: Seq<u8>| #[trigger] self.contents().contains_key(k) implies self.contents()[k] == expected[k] by {
            let a = choose|a: int| 0 <= a < self.hashes@.len() && #[trigger] self.hashes@[a]@ == k;
            if k != h {
                let b = choose|b: int| 0 <= b < before.hashes@.len() && #[trigger] before.hashes@[b]@ == k;
                assert(a == b);
                assert(a != i);
            } else {
                assert(a == i);
            }
        }
        assert(self.contents() =~= expected);
    }

    /// The same storage with entry `i` dropped: an unpinned entry leaves the
    /// recency list at its position `k`, and its bytes leave the count of
    /// its kind.
    proof fn lemma_drop_entry(&self, before: &Self, i: int, k: int)
        requires
            before.wf(),
            0 <= i < before.hashes@.len(),
            self.hashes@ == before.hashes@.remove(i),
            self.datas@ == before.datas@.remove(i),
            self.pinned@ == before.pinned@.remove(i),
            self.max_pinned_bytes == before.max_pinned_bytes,
            self.max_cached_bytes == before.max_cached_bytes,
            before.pinned@[i] ==> {
                &&& self.cache_lru@ == before.cache_lru@
                &&& self.pinned_bytes == before.pinned_bytes - before.datas@[i]@.len()
                &&& self.cached_bytes == before.cached_bytes
            },
            !before.pinned@[i] ==> {
                &&& 0 <= k < before.cache_lru@.len()
                &&& before.cache_lru@[k]@ == before.hashes@[i]@
                &&& self.cache_lru@ == before.cache_lru@.remove(k)
                &&& self.cached_bytes == before.cached_bytes - before.datas@[i]@.len()
                &&& self.pinned_bytes == before.pinned_bytes
            },
        ensures
            self.wf(),
            self.contents() == before.contents().remove(before.hashes@[i]@),
            self.lru() == without(before.lru(), before.hashes@[i]@),
    {
        let h = before.hashes@[i]@;
        self.lemma_remove_entry(before, i);
        lemma_sum_remove(weights(before.datas@, before.pinned@, true), i);
        lemma_sum_remove(weights(before.datas@, before.pinned@, false), i);
        before.lemma_wf_laws();
        before.lemma_contents_at(i);
        let l0 = hash_views(before.cache_lru@);
        let l1 = hash_views(self.cache_lru@);
        if before.pinned@[i] {
            assert(!l0.contains(h));
            lemma_without_absent(l0, h);
            assert(l1 == l0);
        } else {
            lemma_without_at(l0, k);
            assert(l1 =~= l0.remove(k));
        }
        assert(l1 == without(l0, h));
        assert(l1.no_duplicates()) by {
            if !before.pinned@[i] {
                assert forall|a: int, b: int| 0 <= a < l1.len() && 0 <= b < l1.len() && a != b implies l1[a] != l1[b] by {
                    let ia = if a < k { a } else { a + 1 };
                    let ib = if b < k { b } else { b + 1 };
                    assert(l1[a] == l0[ia]);
                    assert(l1[b] == l0[ib]);
                }
            }
        }
        assert forall|j: int| 0 <= j < self.cache_lru@.len() implies #[trigger] self.lru_slot_cached(j) by {
            assert(l1[j] == self.cache_lru@[j]@);
            assert(l1.contains(l1[j]));
            lemma_from_without(l0, h, l1[j]);
            let m = choose|m: int| 0 <= m < l0.len() && l0[m] == l1[j];
            assert(before.cache_lru@[m]@ == l1[j]);
            assert(before.lru_slot_cached(m));
            let b = choose|b: int|
                0 <= b < before.hashes@.len() && !before.pinned@[b] && #[trigger] before.hashes@[b]@
                    == before.cache_lru@[m]@;
            assert(b != i);
            let a = if b < i { b } else { b - 1 };
            assert(self.hashes@[a] == before.hashes@[b]);
            assert(self.pinned@[a] == before.pinned@[b]);
            assert(0 <= a < self.hashes@.len() && !self.pinned@[a] && self.hashes@[a]@ == self.cache_lru@[j]@);
        }
        assert forall|a: int| 0 <= a < self.hashes@.len() && !self.pinned@[a] implies l1.contains(#[trigger] self.hashes@[a]@) by {
            let b = if a < i { a } else { a + 1 };
            assert(self.hashes@[a] == before.hashes@[b]);
            assert(self.pinned@[a] == before.pinned@[b]);
            assert(l0.contains(self.hashes@[a]@));
            let m = choose|m: int| 0 <= m < l0.len() && l0[m] == self.hashes@[a]@;
            lemma_in_without(l0, h, m);
        }
    }

    /// The same storage with the unpinned entry `i` pinned: it leaves the
    /// recency list at its position `k` and its bytes move to the pinned
    /// count.
    proof fn lemma_pin_cached(&self, before: &Self, i: int, k: int)
        requires
            before.wf(),
            0 <= i < before.hashes@.len(),
            !before.pinned@[i],
            0 <= k < before.cache_lru@.len(),
            before.cache_lru@[k]@ == before.hashes@[i]@,
            self.hashes@ == before.hashes@,
            self.datas@ == before.datas@,
            self.pinned@ == before.pinned@.update(i, true),
            self.cache_lru@ == before.cache_lru@.remove(k),
            self.max_pinned_bytes == before.max_pinned_bytes,
            self.max_cached_bytes == before.max_cached_bytes,
            self.pinned_bytes == before.pinned_bytes + before.datas@[i]@.len(),
            self.cached_bytes == before.cached_bytes - before.datas@[i]@.len(),
            self.pinned_bytes <= self.max_pinned_bytes,
        ensures
            self.wf(),
            self.contents() == before.contents().insert(before.hashes@[i]@, (before.datas@[i]@, true)),
            self.lru() == without(before.lru(), before.hashes@[i]@),
    {
        let h = before.hashes@[i]@;
        self.lemma_pin_entry(before, i);
        lemma_sum_update(weights(before.datas@, before.pinned@, true), i, before.datas@[i]@.len() as int);
        lemma_sum_update(weights(before.datas@, before.pinned@, false), i, 0);
        let l0 = hash_views(before.cache_lru@);
        let l1 = hash_views(self.cache_lru@);
        lemma_without_at(l0, k);
        assert(l1 =~= l0.remove(k));
        assert(l1.no_duplicates()) by {
            assert forall|a: int, b: int| 0 <= a < l1.len() && 0 <= b < l1.len() && a != b implies l1[a] != l1[b] by {
                let ia = if a < k { a } else { a + 1 };
                let ib = if b < k { b } else { b + 1 };
                assert(l1[a] == l0[ia]);
                assert(l1[b] == l0[ib]);
            }
        }
        assert forall|j: int| 0 <= j < self.cache_lru@.len() implies #[trigger] self.lru_slot_cached(j) by {
            let m = if j < k { j } else { j + 1 };
            assert(self.cache_lru@[j] == before.cache_lru@[m]);
            assert(before.lru_slot_cached(m));
            let b = choose|b: int|
                0 <= b < before.hashes@.len() && !before.pinned@[b] && #[trigger] before.hashes@[b]@
                    == before.cache_lru@[m]@;
            assert(m != k);
            assert(l0[m] != l0[k]);
            assert(b != i);
            assert(0 <= b < self.hashes@.len() && !self.pinned@[b] && self.hashes@[b]@ == self.cache_lru@[j]@);
        }
        assert forall|a: int| 0 <= a < self.hashes@.len() && !self.pinned@[a] implies l1.contains(#[trigger] self.hashes@[a]@) by {
            assert(a != i);
            assert(l0.contains(self.hashes@[a]@));
            let m = choose|m: int| 0 <= m < l0.len() && l0[m] == self.hashes@[a]@;
            lemma_in_without(l0, h, m);
        }
    }

    /// Drops the chunk with this address, pinned or cached; says whether
    /// one was stored.
    pub fn evict(&mut self, hash: &ChunkHash) -> (r: bool)
        requires
            old(self).wf(),
        ensures
            final(self).wf(),
            r == old(self).contents().contains_key(hash@),
            final(self).contents() == old(self).contents().remove(hash@),
            final(self).lru() == without(old(self).lru(), hash@),
            final(self).capacity() == old(self).capacity(),
            final(self).cache_limit() == old(self).cache_limit(),
            r && old(self).contents()[hash@].1 ==> final(self).pinned_bytes() == old(self).pinned_bytes() - old(self).contents()[hash@].0.len()
                && final(self).cached_bytes() == old(self).cached_bytes(),
            r && !old(self).contents()[hash@].1 ==> final(self).cached_bytes() == old(self).cached_bytes() - old(self).contents()[hash@].0.len()
                && final(self).pinned_bytes() == old(self).pinned_bytes(),
            !r ==> final(self).pinned_bytes() == old(self).pinned_bytes() && final(self).cached_bytes() == old(self).cached_bytes(),
    {
        proof {
            self.lemma_wf_laws();
        }
        let i = match self.find(hash) {
            None => {
                proof {
                    self.lemma_contents_absent(hash@);
                    assert(!self.lru().contains(hash@));
                    lemma_without_absent(self.lru(), hash@);
                    assert(self.contents().remove(hash@) =~= self.contents());
                }
                return false;
            },
            Some(i) => i,
        };
        proof {
            self.lemma_contents_at(i as int);
            lemma_sum_nonneg(weights(self.datas@, self.pinned@, true));
            lemma_sum_nonneg(weights(self.datas@, self.pinned@, false));
        }
        let ghost before = *self;
        let was_pinned = self.pinned[i];
        let mut k: usize = 0;
        if !was_pinned {
            k = match self.lru_position(hash) {
                Some(k) => k,
                None => {
                    proof {
                        assert(false);
                    }
                    0
                },
            };
            self.cache_lru.remove(k);
        }
        let removed = self.datas.remove(i);
        self.hashes.remove(i);
        self.pinned.remove(i);
        let len = removed.len();
        proof {
            assert(weights(before.datas@, before.pinned@, was_pinned)[i as int] == len);
        }
        if was_pinned {
            self.pinned_bytes = self.pinned_bytes - len;
        } else {
            self.cached_bytes = self.cached_bytes - len;
        }
        proof {
            self.lemma_drop_entry(&before, i as int, k as int);
        }
        true
    }

    /// Pins the cached chunk with this address if the pinned capacity has
    /// room for it; says whether the chunk is pinned afterwards.
    pub fn promote_to_pinned(&mut self, hash: &ChunkHash) -> (r: bool)
        requires
            old(self).wf(),
        ensures
            final(self).wf(),
            final(self).capacity() == old(self).capacity(),
            final(self).cache_limit() == old(self).cache_limit(),
            r == (old(self).contents().contains_key(hash@) && (old(self).contents()[hash@].1
                || old(self).pinned_bytes() + old(self).contents()[hash@].0.len() <= old(self).capacity())),
            r && !old(self).contents()[hash@].1 ==> {
                &&& final(self).contents() == old(self).contents().insert(hash@, (old(self).contents()[hash@].0, true))
                &&& final(self).lru() == without(old(self).lru(), hash@)
                &&& final(self).pinned_bytes() == old(self).pinned_bytes() + old(self).contents()[hash@].0.len()
                &&& final(self).cached_bytes() == old(self).cached_bytes() - old(self).contents()[hash@].0.len()
            },
            !(r && !old(self).contents()[hash@].1) ==> {
                &&& final(self).contents() == old(self).contents()
                &&& final(self).lru() == old(self).lru()
                &&& final(self).pinned_bytes() == old(self).pinned_bytes()
                &&& final(self).cached_bytes() == old(self).cached_bytes()
            },
    {
        let i = match self.find(hash) {
            None => {
                proof {
                    self.lemma_contents_absent(hash@);
                }
                return false;
            },
            Some(i) => i,
        };
        proof {
            self.lemma_contents_at(i as int);
            self.lemma_wf_laws();
            lemma_sum_nonneg(weights(self.datas@, self.pinned@, false));
            assert(!self.pinned@[i as int] ==> weights(self.datas@, self.pinned@, false)[i as int] == self.datas@[i as int]@.len());
        }
        if self.pinned[i] {
            return true;
        }
        let len = self.datas[i].len();
        if len > self.max_pinned_bytes - self.pinned_bytes {
            return false;
        }
        let ghost before = *self;
        let k = match self.lru_position(hash) {
            Some(k) => k,
            None => {
                proof {
                    assert(false);
                }
                0
            },
        };
        self.cache_lru.remove(k);
        self.pinned.set(i, true);
        self.pinned_bytes = self.pinned_bytes + len;
        self.cached_bytes = self.cached_bytes - len;
        proof {
            self.lemma_pin_cached(&before, i as int, k as int);
        }
        true
    }

    proof fn lemma_no_lru_no_cached(&self)
        requires
            self.wf(),
            self.cache_lru@.len() == 0,
        ensures
            self.cached_bytes == 0,
    {
        let w = weights(self.datas@, self.pinned@, false);
        assert forall|i: int| 0 <= i < w.len() implies w[i] == 0 by {
            if !self.pinned@[i] {
                assert(hash_views(self.cache_lru@).contains(self.hashes@[i]@));
            }
        }
        lemma_sum_zero(w);
    }

    proof fn lemma_push_cached(&self, before: &Self, h: ChunkHash, d: Vec<u8>)
        requires
            before.wf(),
            !before.contents().contains_key(h@),
            self.hashes@ == before.hashes@.push(h),
            self.datas@ == before.datas@.push(d),
            self.pinned@ == before.pinned@.push(false),
            self.cache_lru@ == before.cache_lru@.push(h),
            self.max_pinned_bytes == before.max_pinned_bytes,
            self.max_cached_bytes == before.max_cached_bytes,
            self.pinned_bytes == before.pinned_bytes,
            self.cached_bytes == before.cached_bytes + d@.len(),
            self.cached_bytes <= self.max_cached_bytes,
        ensures
            self.wf(),
            self.contents() == before.contents().insert(h@, (d@, false)),
            self.lru() == before.lru().push(h@),
    {
        assert forall|i: int| 0 <= i < before.hashes@.len() implies #[trigger] before.hashes@[i]@ != h@ by {
            before.lemma_contents_at(i);
        }
        self.lemma_push_entry(before, h, d, false);
        lemma_sum_push(weights(before.datas@, before.pinned@, true), 0);
        lemma_sum_push(weights(before.datas@, before.pinned@, false), d@.len() as int);
        before.lemma_wf_laws();
        let l0 = hash_views(before.cache_lru@);
        let l1 = hash_views(self.cache_lru@);
        assert(l1 =~= l0.push(h@));
        assert(!l0.contains(h@));
        assert(l1.no_duplicates()) by {
            assert forall|a: int, b: int| 0 <= a < l1.len() && 0 <= b < l1.len() && a != b implies l1[a] != l1[b] by {
                if a == l0.len() {
                    assert(l0[b] == l1[b]);
                } else if b == l0.len() {
                    assert(l0[a] == l1[a]);
                } else {
                    assert(l0[a] == l1[a]);
                    assert(l0[b] == l1[b]);
                }
            }
        }
        let n = before.hashes@.len() as int;
        assert forall|j: int| 0 <= j < self.cache_lru@.len() implies #[trigger] self.lru_slot_cached(j) by {
            if j == before.cache_lru@.len() {
                assert(0 <= n < self.hashes@.len() && !self.pinned@[n] && self.hashes@[n]@ == self.cache_lru@[j]@);
            } else {
                assert(self.cache_lru@[j] == before.cache_lru@[j]);
                assert(before.lru_slot_cached(j));
                let b = choose|b: int|
                    0 <= b < before.hashes@.len() && !before.pinned@[b] && #[trigger] before.hashes@[b]@
                        == before.cache_lru@[j]@;
                assert(0 <= b < self.hashes@.len() && !self.pinned@[b] && self.hashes@[b]@ == self.cache_lru@[j]@);
            }
        }
        assert forall|a: int| 0 <= a < self.hashes@.len() && !self.pinned@[a] implies l1.contains(#[trigger] self.hashes@[a]@) by {
            if a == n {
                assert(l1[l0.len() as int] == h@);
            } else {
                assert(l0.contains(self.hashes@[a]@));
                let m = choose|m: int| 0 <= m < l0.len() && l0[m] == self.hashes@[a]@;
                assert(l1[m] == l0[m]);
            }
        }
    }

    /// Keeps an unpinned copy of a chunk for reading, making room by
    /// dropping the least recently used cached chunks. Nothing changes when
    /// the chunk is already stored or is larger than the whole cache.
    pub fn cache(&mut self, hash: ChunkHash, data: Vec<u8>)
        requires
            old(self).wf(),
        ensures
            final(self).wf(),
            final(self).capacity() == old(self).capacity(),
            final(self).cache_limit() == old(self).cache_limit(),
            final(self).pinned_bytes() == old(self).pinned_bytes(),
            old(self).contents().contains_key(hash@) || data@.len() > old(self).cache_limit() ==> {
                &&& final(self).contents() == old(self).contents()
                &&& final(self).lru() == old(self).lru()
                &&& final(self).cached_bytes() == old(self).cached_bytes()
            },
            !(old(self).contents().contains_key(hash@) || data@.len() > old(self).cache_limit()) ==> exists|n: int|
                {
                    &&& 0 <= n <= old(self).lru().len()
                    &&& forall|j: int| 0 <= j < n ==> old(self).cached_bytes() - #[trigger] freed(old(self).contents(), old(self).lru(), j) + data@.len() > old(self).cache_limit()
                    &&& old(self).cached_bytes() - freed(old(self).contents(), old(self).lru(), n) + data@.len() <= old(self).cache_limit()
                    &&& final(self).contents() == old(self).contents().remove_keys(old(self).lru().take(n).to_set()).insert(hash@, (data@, false))
                    &&& final(self).lru() == old(self).lru().skip(n).push(hash@)
                    &&& final(self).cached_bytes() == old(self).cached_bytes() - freed(old(self).contents(), old(self).lru(), n) + data@.len()
                },
            cache_step(*old(self), *final(self), hash@, data@),
    {
        let chunk_size = data.len();
        if self.contains(&hash) || chunk_size > self.max_cached_bytes {
            return;
        }
        let ghost v0 = self.contents();
        let ghost l0 = self.lru();
        let ghost c0 = self.cached_bytes as int;
        let ghost mut n: int = 0;
        proof {
            self.lemma_wf_laws();
            assert(l0.take(0).to_set() =~= Set::<Seq<u8>>::empty());
            assert(v0.remove_keys(Set::<Seq<u8>>::empty()) =~= v0);
            assert(l0.skip(0) =~= l0);
        }
        while chunk_size > self.max_cached_bytes - self.cached_bytes
            invariant
                self.wf(),
                self.max_pinned_bytes == old(self).max_pinned_bytes,
                self.max_cached_bytes == old(self).max_cached_bytes,
                self.pinned_bytes == old(self).pinned_bytes,
                chunk_size == data@.len(),
                chunk_size <= self.max_cached_bytes,
                !v0.contains_key(hash@),
                l0 == old(self).lru(),
                v0 == old(self).contents(),
                c0 == old(self).cached_bytes,
                l0.no_duplicates(),
                forall|h: Seq<u8>| #![trigger l0.contains(h)] l0.contains(h) <==> (v0.contains_key(h) && !v0[h].1),
                0 <= n <= l0.len(),
                self.lru() == l0.skip(n),
                self.contents() == v0.remove_keys(l0.take(n).to_set()),
                self.cached_bytes == c0 - freed(v0, l0, n),
                forall|j: int| 0 <= j < n ==> c0 - #[trigger] freed(v0, l0, j) + data@.len() > self.max_cached_bytes,
            decreases self.cache_lru@.len(),
        {
            if self.cache_lru.len() == 0 {
                proof {
                    self.lemma_no_lru_no_cached();
                }
                return;
            }
            proof {
                assert(self.lru_slot_cached(0));
            }
            let oldest = self.cache_lru[0];
            let i = match self.find(&oldest) {
                Some(i) => i,
                None => {
                    proof {
                        let b = choose|b: int|
                            0 <= b < self.hashes@.len() && !self.pinned@[b] && #[trigger] self.hashes@[b]@
                                == self.cache_lru@[0]@;
                        assert(false);
                    }
                    return;
                },
            };
            let ghost before = *self;
            proof {
                self.lemma_contents_at(i as int);
                assert(self.lru()[0] == oldest@);
                assert(l0[n] == oldest@);
                assert(!self.pinned@[i as int]) by {
                    assert(self.lru().contains(oldest@));
                    self.lemma_wf_laws();
                }
                lemma_sum_nonneg(weights(self.datas@, self.pinned@, false));
                assert(weights(self.datas@, self.pinned@, false)[i as int] == self.datas@[i as int]@.len());
            }
            self.cache_lru.remove(0);
            let removed = self.datas.remove(i);
            self.hashes.remove(i);
            self.pinned.remove(i);
            self.cached_bytes = self.cached_bytes - removed.len();
            proof {
                self.lemma_drop_entry(&before, i as int, 0);
                let h0 = l0[n];
                assert(!l0.take(n).contains(h0)) by {
                    if l0.take(n).contains(h0) {
                        let q = choose|q: int| 0 <= q < n && l0.take(n)[q] == h0;
                        assert(l0[q] == l0[n]);
                    }
                }
                assert(!l0.take(n).to_set().contains(h0));
                assert(before.contents()[h0] == v0[h0]);
                assert(l0.take(n + 1).to_set() =~= l0.take(n).to_set().insert(h0)) by {
                    assert(l0.take(n + 1) =~= l0.take(n).push(h0));
                    l0.take(n).lemma_push_to_set_commute(h0);
                }
                assert(v0.remove_keys(l0.take(n + 1).to_set()) =~= before.contents().remove(h0));
                lemma_without_at(before.lru(), 0);
                assert(before.lru().remove(0) =~= l0.skip(n + 1));
                n = n + 1;
            }
        }
        let ghost before = *self;
        proof {
            assert(!self.contents().contains_key(hash@));
        }
        self.hashes.push(hash);
        self.datas.push(data);
        self.pinned.push(false);
        self.cache_lru.push(hash);
        self.cached_bytes = self.cached_bytes + chunk_size;
        proof {
            self.lemma_push_cached(&before, hash, data);
        }
    }

    proof fn lemma_push_pinned(&self, before: &Self, h: ChunkHash, d: Vec<u8>)
        requires
            before.wf(),
            !before.contents().contains_key(h@),
            self.hashes@ == before.hashes@.push(h),
            self.datas@ == before.datas@.push(d),
            self.pinned@ == before.pinned@.push(true),
            self.cache_lru@ == before.cache_lru@,
            self.max_pinned_bytes == before.max_pinned_bytes,
            self.max_cached_bytes == before.max_cached_bytes,
            self.pinned_bytes == before.pinned_bytes + d@.len(),
            self.cached_bytes == before.cached_bytes,
            self.pinned_bytes <= self.max_pinned_bytes,
        ensures
            self.wf(),
            self.contents() == before.contents().insert(h@, (d@, true)),
    {
        assert forall|i: int| 0 <= i < before.hashes@.len() implies #[trigger] before.hashes@[i]@ != h@ by {
            before.lemma_contents_at(i);
        }
        self.lemma_push_entry(before, h, d, true);
        lemma_sum_push(weights(before.datas@, before.pinned@, true), d@.len() as int);
        lemma_sum_push(weights(before.datas@, before.pinned@, false), 0);
        assert forall|j: int| 0 <= j < self.cache_lru@.len() implies #[trigger] self.lru_slot_cached(j) by {
            assert(before.lru_slot_cached(j));
            let b = choose|b: int|
                0 <= b < before.hashes@.len() && !before.pinned@[b] && #[trigger] before.hashes@[b]@
                    == before.cache_lru@[j]@;
            assert(0 <= b < self.hashes@.len() && !self.pinned@[b] && self.hashes@[b]@ == self.cache_lru@[j]@);
        }
        assert forall|a: int| 0 <= a < self.hashes@.len() && !self.pinned@[a] implies hash_views(self.cache_lru@).contains(#[trigger] self.hashes@[a]@) by {
            assert(a < before.hashes@.len());
            assert(self.hashes@[a] == before.hashes@[a]);
        }
    }

    /// Pins one chunk: a stored chunk keeps its bytes and becomes pinned;
    /// a new one is stored pinned.
    fn pin_one(&mut self, chunk: Chunk)
        requires
            old(self).wf(),
            old(self).pinned_bytes() + pin_step_cost(old(self).contents(), chunk_view(chunk)) <= old(self).capacity(),
        ensures
            final(self).wf(),
            final(self).capacity() == old(self).capacity(),
            final(self).cache_limit() == old(self).cache_limit(),
            final(self).contents() == pin_step(old(self).contents(), chunk_view(chunk)),
            final(self).lru() == without(old(self).lru(), chunk_view(chunk).0),
            final(self).pinned_bytes() == old(self).pinned_bytes() + pin_step_cost(old(self).contents(), chunk_view(chunk)),
            final(self).cached_bytes() == old(self).cached_bytes() - pin_step_release(old(self).contents(), chunk_view(chunk)),
    {
        let (hash, data) = chunk.into_parts();
        proof {
            self.lemma_wf_laws();
        }
        match self.find(&hash) {
            Some(i) => {
                proof {
                    self.lemma_contents_at(i as int);
                }
                if self.pinned[i] {
                    proof {
                        assert(!self.lru().contains(hash@));
                        lemma_without_absent(self.lru(), hash@);
                        assert(self.contents().insert(hash@, (self.contents()[hash@].0, true)) =~= self.contents());
                    }
                    return;
                }
                let ghost before = *self;
                proof {
                    lemma_sum_nonneg(weights(self.datas@, self.pinned@, false));
                    assert(weights(self.datas@, self.pinned@, false)[i as int] == self.datas@[i as int]@.len());
                }
                let len = self.datas[i].len();
                let k = match self.lru_position(&hash) {
                    Some(k) => k,
                    None => {
                        proof {
                            assert(false);
                        }
                        0
                    },
                };
                self.cache_lru.remove(k);
                self.pinned.set(i, true);
                self.pinned_bytes = self.pinned_bytes + len;
                self.cached_bytes = self.cached_bytes - len;
                proof {
                    self.lemma_pin_cached(&before, i as int, k as int);
                }
            },
            None => {
                proof {
                    self.lemma_contents_absent(hash@);
                    assert(!self.lru().contains(hash@));
                    lemma_without_absent(self.lru(), hash@);
                }
                let ghost before = *self;
                let len = data.len();
                self.hashes.push(hash);
                self.datas.push(data);
                self.pinned.push(true);
                self.pinned_bytes = self.pinned_bytes + len;
                proof {
                    self.lemma_push_pinned(&before, hash, data);
                }
            },
        }
    }

    /// The pinned bytes that pinning the chunks would add, or `None` when
    /// that exceeds what a `usize` holds.
    fn pin_cost_of(&self, chunks: &Vec<Chunk>) -> (r: Option<usize>)
        requires
            self.wf(),
        ensures
            match r {
                Some(c) => c == pin_cost(self.contents(), chunk_views(chunks@)),
                None => pin_cost(self.contents(), chunk_views(chunks@)) > usize::MAX,
            },
    {
        let ghost m = self.contents();
        let ghost cs = chunk_views(chunks@);
        let mut seen: Vec<ChunkHash> = Vec::new();
        let mut required: usize = 0;
        let mut i: usize = 0;
        while i < chunks.len()
            invariant
                self.wf(),
                m == self.contents(),
                cs == chunk_views(chunks@),
                0 <= i <= chunks@.len(),
                required == pin_cost(m, cs.take(i as int)),
                forall|h: Seq<u8>| #![trigger hash_views(seen@).contains(h)] hash_views(seen@).contains(h) <==> (exists|k: int| 0 <= k < i && #[trigger] cs[k].0 == h),
            decreases chunks@.len() - i,
        {
            let chunk = &chunks[i];
            let hash = chunk.hash();
            let ghost pre = cs.take(i as int);
            let ghost w = pin_all(m, pre);
            proof {
                lemma_pin_all_shape(m, pre);
                assert(cs.take(i + 1) =~= pre.push(cs[i as int]));
                assert(cs.take(i + 1).drop_last() =~= pre);
                assert(cs[i as int] == chunk_view(*chunk));
            }
            let mut already = false;
            let mut j: usize = 0;
            while j < seen.len()
                invariant
                    0 <= j <= seen@.len(),
                    already == exists|q: int| 0 <= q < j && #[trigger] seen@[q]@ == hash@,
                decreases seen@.len() - j,
            {
                if seen[j].same(hash) {
                    already = true;
                }
                j = j + 1;
            }
            proof {
                if already {
                    let q = choose|q: int| 0 <= q < seen@.len() && #[trigger] seen@[q]@ == hash@;
                    assert(hash_views(seen@)[q] == hash@);
                    assert(hash_views(seen@).contains(hash@));
                } else if hash_views(seen@).contains(hash@) {
                    let q = choose|q: int| 0 <= q < hash_views(seen@).len() && hash_views(seen@)[q] == hash@;
                    assert(seen@[q]@ == hash@);
                }
            }
            let step: usize = if already {
                0
            } else {
                match self.find(hash) {
                    Some(e) => {
                        proof {
                            self.lemma_contents_at(e as int);
                        }
                        if self.pinned[e] { 0 } else { self.datas[e].len() }
                    },
                    None => {
                        proof {
                            self.lemma_contents_absent(hash@);
                        }
                        chunk.data().len()
                    },
                }
            };
            proof {
                let h = hash@;
                if already {
                    let k = choose|k: int| 0 <= k < i && #[trigger] cs[k].0 == h;
                    assert(pre[k].0 == h);
                    assert(w[h].1);
                } else {
                    if exists|k: int| 0 <= k < pre.len() && pre[k].0 == h {
                        let k = choose|k: int| 0 <= k < pre.len() && pre[k].0 == h;
                        assert(cs[k].0 == h);
                        assert(false);
                    }
                    if m.contains_key(h) {
                        assert(w[h] == m[h]);
                    }
                }
                assert(step == pin_step_cost(w, cs[i as int]));
            }
            match required.checked_add(step) {
                Some(t) => {
                    required = t;
                },
                None => {
                    proof {
                        lemma_pin_cost_grows(m, cs, i + 1);
                    }
                    return None;
                },
            }
            let ghost seen0 = seen@;
            if !already {
                seen.push(*hash);
            }
            proof {
                assert forall|h: Seq<u8>| #![trigger hash_views(seen@).contains(h)] hash_views(seen@).contains(h) <==> (exists|k: int| 0 <= k < i + 1 && #[trigger] cs[k].0 == h) by {
                    if h == hash@ {
                        assert(cs[i as int].0 == h);
                        if !already {
                            assert(hash_views(seen@)[seen@.len() - 1] == h);
                        }
                    } else {
                        if hash_views(seen@).contains(h) {
                            let q = choose|q: int| 0 <= q < hash_views(seen@).len() && hash_views(seen@)[q] == h;
                            assert(seen@[q] == seen0[q]);
                            assert(hash_views(seen0)[q] == h);
                        }
                        if hash_views(seen0).contains(h) {
                            let q = choose|q: int| 0 <= q < hash_views(seen0).len() && hash_views(seen0)[q] == h;
                            assert(seen@[q] == seen0[q]);
                            assert(hash_views(seen@)[q] == h);
                        }
                        if exists|k: int| 0 <= k < i + 1 && #[trigger] cs[k].0 == h {
                            let k = choose|k: int| 0 <= k < i + 1 && #[trigger] cs[k].0 == h;
                            assert(k < i);
                        }
                    }
                }
            }
            i = i + 1;
        }
        proof {
            assert(cs.take(i as int) =~= cs);
        }
        Some(required)
    }

    /// Pins all the chunks, or none of them when their bytes do not fit
    /// in the free pinned capacity. Chunks already pinned cost nothing,
    /// cached ones move to the pinned bytes, and of several chunks with one
    /// address the first is kept.
    pub fn try_pin(&mut self, chunks: Vec<Chunk>) -> (r: Result<(), StorageError>)
        requires
            old(self).wf(),
        ensures
            final(self).wf(),
            final(self).capacity() == old(self).capacity(),
            final(self).cache_limit() == old(self).cache_limit(),
            r is Ok <==> old(self).pinned_bytes() + pin_cost(old(self).contents(), chunk_views(chunks@)) <= old(self).capacity(),
            r is Ok ==> {
                &&& final(self).contents() == pin_all(old(self).contents(), chunk_views(chunks@))
                &&& final(self).lru() == lru_after_pins(old(self).lru(), chunk_views(chunks@))
                &&& final(self).pinned_bytes() == old(self).pinned_bytes() + pin_cost(old(self).contents(), chunk_views(chunks@))
                &&& final(self).cached_bytes() == old(self).cached_bytes() - pin_release(old(self).contents(), chunk_views(chunks@))
            },
            r is Err ==> {
                &&& *final(self) == *old(self)
                &&& final(self).contents() == old(self).contents()
                &&& final(self).lru() == old(self).lru()
                &&& final(self).pinned_bytes() == old(self).pinned_bytes()
                &&& final(self).cached_bytes() == old(self).cached_bytes()
            },
    {
        let ghost cs = chunk_views(chunks@);
        let ghost v0 = self.contents();
        let ghost l0 = self.lru();
        let required = match self.pin_cost_of(&chunks) {
            Some(c) => c,
            None => {
                return Err(StorageError::StorageFull);
            },
        };
        if required > self.max_pinned_bytes - self.pinned_bytes {
            return Err(StorageError::StorageFull);
        }
        let ghost p0 = self.pinned_bytes as int;
        let ghost c0 = self.cached_bytes as int;
        let ghost all = chunks@;
        let ghost mut t: int = 0;
        let mut chunks = chunks;
        proof {
            assert(cs.take(0) =~= Seq::<(Seq<u8>, Seq<u8>)>::empty());
            assert(all.skip(0) =~= all);
        }
        while chunks.len() > 0
            invariant
                self.wf(),
                self.max_pinned_bytes == old(self).max_pinned_bytes,
                self.max_cached_bytes == old(self).max_cached_bytes,
                cs == chunk_views(all),
                0 <= t <= all.len(),
                chunks@ == all.skip(t),
                self.contents() == pin_all(v0, cs.take(t)),
                self.lru() == lru_after_pins(l0, cs.take(t)),
                self.pinned_bytes == p0 + pin_cost(v0, cs.take(t)),
                self.cached_bytes == c0 - pin_release(v0, cs.take(t)),
                p0 + pin_cost(v0, cs) <= self.max_pinned_bytes,
            decreases chunks@.len(),
        {
            let chunk = chunks.remove(0);
            proof {
                assert(chunk == all[t]);
                assert(cs[t] == chunk_view(chunk));
                assert(cs.take(t + 1) =~= cs.take(t).push(cs[t]));
                assert(cs.take(t + 1).drop_last() =~= cs.take(t));
                lemma_pin_cost_grows(v0, cs, t + 1);
                assert(chunks@ =~= all.skip(t + 1));
            }
            self.pin_one(chunk);
            proof {
                t = t + 1;
            }
        }
        proof {
            assert(t == all.len());
            assert(cs.take(t) =~= cs);
        }
        Ok(())
    }

    /// The addresses of the pinned chunks, each once.
    pub fn pinned_hashes(&self) -> (r: Vec<ChunkHash>)
        requires
            self.wf(),
        ensures
            hash_views(r@).no_duplicates(),
            forall|h: Seq<u8>| #![trigger hash_views(r@).contains(h)] hash_views(r@).contains(h) <==> (self.contents().contains_key(h) && self.contents()[h].1),
    {
        let mut r: Vec<ChunkHash> = Vec::new();
        let mut i: usize = 0;
        while i < self.hashes.len()
            invariant
                self.wf(),
                0 <= i <= self.hashes@.len(),
                hash_views(r@).no_duplicates(),
                forall|h: Seq<u8>| #![trigger hash_views(r@).contains(h)] hash_views(r@).contains(h) <==> (exists|k: int| 0 <= k < i && self.pinned@[k] && #[trigger] self.hashes@[k]@ == h),
            decreases self.hashes@.len() - i,
        {
            let ghost r0 = r@;
            if self.pinned[i] {
                r.push(self.hashes[i]);
            }
            proof {
                let hi = self.hashes@[i as int]@;
                assert forall|h: Seq<u8>| #![trigger hash_views(r@).contains(h)] hash_views(r@).contains(h) <==> (exists|k: int| 0 <= k < i + 1 && self.pinned@[k] && #[trigger] self.hashes@[k]@ == h) by {
                    if hash_views(r@).contains(h) {
                        let q = choose|q: int| 0 <= q < hash_views(r@).len() && hash_views(r@)[q] == h;
                        if q < r0.len() {
                            assert(hash_views(r0)[q] == h);
                            assert(hash_views(r0).contains(h));
                        } else {
                            assert(self.hashes@[i as int]@ == h);
                        }
                    }
                    if exists|k: int| 0 <= k < i + 1 && self.pinned@[k] && #[trigger] self.hashes@[k]@ == h {
                        let k = choose|k: int| 0 <= k < i + 1 && self.pinned@[k] && #[trigger] self.hashes@[k]@ == h;
                        if k < i {
                            assert(hash_views(r0).contains(h));
                            let q = choose|q: int| 0 <= q < hash_views(r0).len() && hash_views(r0)[q] == h;
                            assert(hash_views(r@)[q] == h);
                        } else {
                            assert(hash_views(r@)[r@.len() - 1] == h);
                        }
                    }
                }
                if self.pinned@[i as int] {
                    assert(!hash_views(r0).contains(hi)) by {
                        if hash_views(r0).contains(hi) {
                            let k = choose|k: int| 0 <= k < i && self.pinned@[k] && #[trigger] self.hashes@[k]@ == hi;
                            assert(k != i);
                        }
                    }
                    assert(hash_views(r@) =~= hash_views(r0).push(hi));
                    assert(hash_views(r@).no_duplicates()) by {
                        assert forall|a: int, b: int| 0 <= a < hash_views(r@).len() && 0 <= b < hash_views(r@).len() && a != b implies hash_views(r@)[a] != hash_views(r@)[b] by {
                            if a == r0.len() {
                                assert(hash_views(r0).contains(hash_views(r@)[b]));
                            } else if b == r0.len() {
                                assert(hash_views(r0).contains(hash_views(r@)[a]));
                            }
                        }
                    }
                } else {
                    assert(hash_views(r@) =~= hash_views(r0));
                }
            }
            i = i + 1;
        }
        proof {
            assert forall|h: Seq<u8>| #![trigger hash_views(r@).contains(h)] hash_views(r@).contains(h) <==> (self.contents().contains_key(h) && self.contents()[h].1) by {
                if hash_views(r@).contains(h) {
                    let k = choose|k: int| 0 <= k < i && self.pinned@[k] && #[trigger] self.hashes@[k]@ == h;
                    self.lemma_contents_at(k);
                }
                if self.contents().contains_key(h) && self.contents()[h].1 {
                    let k = choose|k: int| 0 <= k < self.hashes@.len() && #[trigger] self.hashes@[k]@ == h;
                    self.lemma_contents_at(k);
                }
            }
        }
        r
    }
}

} // verus!
