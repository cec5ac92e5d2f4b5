use vstd::prelude::*;
use vstd::string::StringSliceAdditionalSpecFns;

use crate::chunking::{pieces, file_cuts, split, truncate, truncated, total_size, lemma_total_size_push, lemma_total_size_prefix, lemma_total_size_nonneg};
use crate::digest::sha256;
use crate::domain::{Chunk, ChunkHash, ChunkRef, MetaView, NodeId, NodeMeta};
use crate::error::FileSystemError;
use crate::hlc::PHYSICAL_LIMIT;
use crate::storage::{chunk_views, pin_all, pin_cost, without, ChunkStorage};
use crate::tree::{applies, is_fresh, lists_children, NodeOperation, NodeTree, NodeTreeError, OpView, PeerKey, op_views};

verus! {

/// The identifier that version-5 UUIDs derive from a namespace and a name.
pub uninterp spec fn uuid_v5(namespace: u128, name: Seq<u8>) -> u128;

/// Calls `uuid::Uuid::new_v5` with the namespace given by its 128 bits
/// and returns the 128 bits of the result; claimed: the result is the
/// version-5 UUID of exactly this namespace and name.
#[verifier::external_body]
fn new_v5(namespace: u128, name: &[u8]) -> (r: u128)
    ensures
        r == uuid_v5(namespace, name@),
{
    uuid::Uuid::new_v5(&uuid::Uuid::from_u128(namespace), name).as_u128()
}

/// Whether two strings hold the same characters.
fn same_text(a: &str, b: &str) -> (r: bool)
    ensures
        r == (a@ == b@),
{
    let x = a.to_owned();
    let y = b.to_owned();
    x == y
}

/// The metadata of the root directory.
pub open spec fn root_meta() -> MetaView {
    MetaView::Directory { name: Seq::empty() }
}

/// The metadata of a node as the file system shows it: the root is an
/// unnamed directory, and a node in the trash or unknown to the tree has
/// none.
pub open spec fn meta_of(nodes: Map<u128, (u128, MetaView)>, node: u128) -> Option<MetaView> {
    if node == 0 {
        Some(root_meta())
    } else if nodes.contains_key(node) && nodes[node].0 != u128::MAX {
        Some(nodes[node].1)
    } else {
        None
    }
}

/// The parent is reserved or held by the tree, so its children can be
/// listed.
pub open spec fn parent_known(nodes: Map<u128, (u128, MetaView)>, parent: u128) -> bool {
    parent == 0 || parent == u128::MAX || nodes.contains_key(parent)
}

/// `c` is a child of `parent` with this name.
pub open spec fn is_child_named(nodes: Map<u128, (u128, MetaView)>, parent: u128, name: Seq<char>, c: u128) -> bool {
    nodes.contains_key(c) && nodes[c].0 == parent && nodes[c].1.name() == name
}

/// Some child of `parent` has this name.
pub open spec fn has_child_named(nodes: Map<u128, (u128, MetaView)>, parent: u128, name: Seq<char>) -> bool {
    exists|c: u128| #[trigger] is_child_named(nodes, parent, name, c)
}

/// A lookup of `name` in `parent` succeeds.
pub open spec fn lookup_succeeds(nodes: Map<u128, (u128, MetaView)>, parent: u128, name: Seq<char>) -> bool {
    parent_known(nodes, parent) && has_child_named(nodes, parent, name)
}

/// The metadata is that of a directory.
pub open spec fn is_directory_meta(meta: Option<MetaView>) -> bool {
    meta matches Some(MetaView::Directory { .. })
}

/// Some node has `c` as its parent.
pub open spec fn has_children(nodes: Map<u128, (u128, MetaView)>, c: u128) -> bool {
    exists|d: u128| #[trigger] nodes.contains_key(d) && nodes[d].0 == c
}

/// The node is the root or the trash.
pub open spec fn reserved(c: u128) -> bool {
    c == 0 || c == u128::MAX
}

/// The operations are the single move of `c` into the trash, keeping its
/// metadata.
pub open spec fn trashes(nodes: Map<u128, (u128, MetaView)>, ops: Seq<OpView>, c: u128) -> bool {
    &&& ops.len() == 1
    &&& ops[0].child == c
    &&& ops[0].parent == u128::MAX
    &&& ops[0].meta == nodes[c].1
}

/// The chunks that writing the data stores: each piece of its
/// content-defined cut, addressed by its digest.
pub open spec fn data_chunks(data: Seq<u8>) -> Seq<(Seq<u8>, Seq<u8>)> {
    pieces(data, file_cuts(data)).map_values(|p: Seq<u8>| (sha256(p), p))
}

/// The references point at the pieces: the digest and the length of each.
pub open spec fn refs_of_pieces(refs: Seq<ChunkRef>, ps: Seq<Seq<u8>>) -> bool {
    &&& refs.len() == ps.len()
    &&& forall|i: int| 0 <= i < refs.len() ==> #[trigger] refs[i].hash@ == sha256(ps[i]) && refs[i].size == ps[i].len()
}

/// `n` zero bytes.
pub open spec fn zeros(n: nat) -> Seq<u8> {
    Seq::new(n, |i: int| 0u8)
}

/// The bytes a reference reads: the stored chunk, or zeros for a chunk
/// that is not stored.
pub open spec fn chunk_bytes(contents: Map<Seq<u8>, (Seq<u8>, bool)>, r: ChunkRef) -> Seq<u8> {
    if contents.contains_key(r.hash@) {
        contents[r.hash@].0
    } else {
        zeros(r.size as nat)
    }
}

/// What a chunk covering the bytes from `start` contributes to a read of
/// the bytes from `offset` up to `end`: the part of its bytes inside both
/// the read and the reference.
pub open spec fn segment(contents: Map<Seq<u8>, (Seq<u8>, bool)>, r: ChunkRef, start: int, offset: int, end: int) -> Seq<u8> {
    let data = chunk_bytes(contents, r);
    let a = if offset > start { offset - start } else { 0 };
    let b = if end - start < r.size { end - start } else { r.size as int };
    let available = if b < data.len() { b } else { data.len() as int };
    if a < available {
        data.subrange(a, available)
    } else {
        Seq::empty()
    }
}

/// The bytes that a read from `offset` up to `end` gives of a file made of
/// the references.
pub open spec fn read_span(contents: Map<Seq<u8>, (Seq<u8>, bool)>, refs: Seq<ChunkRef>, offset: int, end: int) -> Seq<u8>
    decreases refs.len(),
{
    if refs.len() == 0 {
        Seq::empty()
    } else {
        read_span(contents, refs.drop_last(), offset, end) + segment(contents, refs.last(), total_size(refs.drop_last()), offset, end)
    }
}

/// The addresses that a read from `offset` up to `end` looks up, in order:
/// those of the references that overlap the read.
pub open spec fn read_touches(refs: Seq<ChunkRef>, offset: int, end: int) -> Seq<Seq<u8>>
    decreases refs.len(),
{
    if refs.len() == 0 || offset >= end {
        Seq::empty()
    } else {
        let start = total_size(refs.drop_last());
        read_touches(refs.drop_last(), offset, end) + if start + refs.last().size > offset && start < end {
            seq![refs.last().hash@]
        } else {
            Seq::empty()
        }
    }
}

/// The recency list after a lookup of one address.
pub open spec fn touch(lru: Seq<Seq<u8>>, contents: Map<Seq<u8>, (Seq<u8>, bool)>, h: Seq<u8>) -> Seq<Seq<u8>> {
    if contents.contains_key(h) && !contents[h].1 {
        without(lru, h).push(h)
    } else {
        lru
    }
}

/// The recency list after lookups of the addresses, in order.
pub open spec fn touch_all(lru: Seq<Seq<u8>>, contents: Map<Seq<u8>, (Seq<u8>, bool)>, hs: Seq<Seq<u8>>) -> Seq<Seq<u8>>
    decreases hs.len(),
{
    if hs.len() == 0 {
        lru
    } else {
        touch(touch_all(lru, contents, hs.drop_last()), contents, hs.last())
    }
}

/// The addresses of the chunks of a read from `offset` up to `end` that
/// are not stored, in order.
pub open spec fn missing_span(contents: Map<Seq<u8>, (Seq<u8>, bool)>, refs: Seq<ChunkRef>, offset: int, end: int) -> Seq<Seq<u8>>
    decreases refs.len(),
{
    if refs.len() == 0 {
        Seq::empty()
    } else {
        let start = total_size(refs.drop_last());
        missing_span(contents, refs.drop_last(), offset, end) + if start < end && start + refs.last().size > offset
            && !contents.contains_key(refs.last().hash@) {
            seq![refs.last().hash@]
        } else {
            Seq::empty()
        }
    }
}

/// Once the chunks start at or past the end of the read, they add
/// nothing to it.
pub proof fn lemma_read_tail(contents: Map<Seq<u8>, (Seq<u8>, bool)>, refs: Seq<ChunkRef>, i: int, offset: int, end: int)
    requires
        0 <= i <= refs.len(),
        i < refs.len() ==> total_size(refs.take(i)) >= end,
    ensures
        read_span(contents, refs, offset, end) == read_span(contents, refs.take(i), offset, end),
        read_touches(refs, offset, end) == read_touches(refs.take(i), offset, end),
        missing_span(contents, refs, offset, end) == missing_span(contents, refs.take(i), offset, end),
    decreases refs.len() - i,
{
    if i == refs.len() {
        assert(refs.take(i) =~= refs);
    } else {
        lemma_read_tail_step(contents, refs, i, refs.len() as int, offset, end);
        assert(refs.take(refs.len() as int) =~= refs);
    }
}

proof fn lemma_read_tail_step(contents: Map<Seq<u8>, (Seq<u8>, bool)>, refs: Seq<ChunkRef>, i: int, k: int, offset: int, end: int)
    requires
        0 <= i < refs.len(),
        i <= k <= refs.len(),
        total_size(refs.take(i)) >= end,
    ensures
        read_span(contents, refs.take(k), offset, end) == read_span(contents, refs.take(i), offset, end),
        read_touches(refs.take(k), offset, end) == read_touches(refs.take(i), offset, end),
        missing_span(contents, refs.take(k), offset, end) == missing_span(contents, refs.take(i), offset, end),
    decreases k - i,
{
    if k > i {
        lemma_read_tail_step(contents, refs, i, k - 1, offset, end);
        let p = refs.take(k);
        assert(p.drop_last() =~= refs.take(k - 1));
        assert(p.last() == refs[k - 1]);
        lemma_total_size_prefix(refs, i, k - 1);
        let start = total_size(refs.take(k - 1));
        assert(start >= end);
        assert(segment(contents, refs[k - 1], start, offset, end) =~= Seq::<u8>::empty());
        assert(read_span(contents, p, offset, end) =~= read_span(contents, refs.take(k - 1), offset, end));
        if offset < end {
            assert(read_touches(p, offset, end) =~= read_touches(refs.take(k - 1), offset, end));
        }
        assert(missing_span(contents, p, offset, end) =~= missing_span(contents, refs.take(k - 1), offset, end));
    }
}

/// A read that starts at or past its end gives nothing.
proof fn lemma_read_empty(contents: Map<Seq<u8>, (Seq<u8>, bool)>, refs: Seq<ChunkRef>, offset: int, end: int)
    requires
        offset >= end,
    ensures
        read_span(contents, refs, offset, end) == Seq::<u8>::empty(),
    decreases refs.len(),
{
    if refs.len() > 0 {
        lemma_read_empty(contents, refs.drop_last(), offset, end);
        assert(segment(contents, refs.last(), total_size(refs.drop_last()), offset, end) =~= Seq::<u8>::empty());
        assert(read_span(contents, refs, offset, end) =~= Seq::<u8>::empty());
    }
}

/// The end of a read of `length` bytes from `offset` in a file of `size`
/// bytes.
pub open spec fn read_end(offset: u64, length: u64, size: u64) -> int {
    let e = if offset + length > u64::MAX { u64::MAX as int } else { offset + length };
    if e < size { e } else { size as int }
}

/// Every stored chunk is addressed by the digest of its bytes.
pub open spec fn addressed(contents: Map<Seq<u8>, (Seq<u8>, bool)>) -> bool {
    forall|h: Seq<u8>| #[trigger] contents.contains_key(h) ==> sha256(contents[h].0) == h
}

/// Pinning addressed chunks into an addressed store leaves it addressed.
pub proof fn lemma_pin_all_addressed(m: Map<Seq<u8>, (Seq<u8>, bool)>, cs: Seq<(Seq<u8>, Seq<u8>)>)
    requires
        addressed(m),
        forall|i: int| 0 <= i < cs.len() ==> #[trigger] cs[i].0 == sha256(cs[i].1),
    ensures
        addressed(pin_all(m, cs)),
    decreases cs.len(),
{
    if cs.len() > 0 {
        let p = cs.drop_last();
        assert forall|i: int| 0 <= i < p.len() implies #[trigger] p[i].0 == sha256(p[i].1) by {
            assert(p[i] == cs[i]);
        }
        lemma_pin_all_addressed(m, p);
        let last = cs.len() - 1;
        assert(cs[last] == cs.last());
    }
}

/// The file system went from `fs0` to `fs1` by writing `data` to the
/// regular file `node`: its chunks are pinned, and the single operation
/// moves the node in place with metadata that refers to them.
pub open spec fn wrote(fs0: FileSystem, fs1: FileSystem, node: u128, data: Seq<u8>, ops: Seq<OpView>) -> bool {
    &&& meta_of(fs0.nodes(), node) matches Some(MetaView::RegularFile { .. })
    &&& crate::chunking::tiles(file_cuts(data), data.len() as int)
    &&& fs0.storage().pinned_bytes() + pin_cost(fs0.storage().contents(), data_chunks(data)) <= fs0.storage().capacity()
    &&& fs1.storage().contents() == pin_all(fs0.storage().contents(), data_chunks(data))
    &&& fs1.storage().pinned_bytes() == fs0.storage().pinned_bytes() + pin_cost(fs0.storage().contents(), data_chunks(data))
    &&& fs1.storage().capacity() == fs0.storage().capacity()
    &&& ops.len() == 1
    &&& ops[0].child == node
    &&& ops[0].parent == fs0.nodes()[node].0
    &&& ops[0].meta matches MetaView::RegularFile { name: new_name, size, chunk_refs } && {
        &&& new_name == fs0.nodes()[node].1.name()
        &&& size == data.len()
        &&& refs_of_pieces(chunk_refs, pieces(data, file_cuts(data)))
    }
    &&& local_step(fs0.tree(), fs1.tree(), ops[0])
}

/// Chunks with equal digests hold equal bytes, among the stored chunks and
/// the pieces of the data.
pub open spec fn no_digest_collision(contents: Map<Seq<u8>, (Seq<u8>, bool)>, ps: Seq<Seq<u8>>) -> bool {
    &&& forall|i: int, j: int| 0 <= i < ps.len() && 0 <= j < ps.len() && sha256(#[trigger] ps[i]) == sha256(#[trigger] ps[j]) ==> ps[i] == ps[j]
    &&& forall|i: int, h: Seq<u8>| 0 <= i < ps.len() && #[trigger] contents.contains_key(h) && sha256(#[trigger] ps[i]) == h ==> contents[h].0 == ps[i]
}

/// Within a tree without cycles a node does not lie above its parent.
pub proof fn lemma_parent_not_below(nodes: Map<u128, (u128, MetaView)>, c: u128)
    requires
        crate::tree::acyclic(nodes),
        nodes.contains_key(c),
    ensures
        !crate::tree::is_ancestor(nodes, nodes[c].0, c),
{
    if crate::tree::is_ancestor(nodes, nodes[c].0, c) {
        let k = choose|k: nat| crate::tree::parent_chain(nodes, nodes[c].0, k) == Some(c);
        assert(crate::tree::parent_chain(nodes, c, k + 1) == crate::tree::parent_chain(nodes, nodes[c].0, k));
        assert(crate::tree::is_ancestor(nodes, c, c));
    }
}

/// Reading the whole of a file whose references point at the pieces of
/// the data, from a store that holds each piece under its digest, gives
/// the data.
pub proof fn lemma_read_pieces(contents: Map<Seq<u8>, (Seq<u8>, bool)>, refs: Seq<ChunkRef>, ps: Seq<Seq<u8>>, k: int, len: int)
    requires
        refs_of_pieces(refs, ps),
        forall|i: int| 0 <= i < ps.len() ==> #[trigger] contents.contains_key(sha256(ps[i])) && contents[sha256(ps[i])].0 == ps[i],
        0 <= k <= refs.len(),
        ps.flatten_alt().len() <= len,
    ensures
        total_size(refs.take(k)) == ps.take(k).flatten_alt().len(),
        read_span(contents, refs.take(k), 0, len) == ps.take(k).flatten_alt(),
    decreases k,
{
    if k == 0 {
        assert(refs.take(0) =~= Seq::<ChunkRef>::empty());
        assert(ps.take(0) =~= Seq::<Seq<u8>>::empty());
        assert(total_size(refs.take(0)) == 0);
    } else {
        lemma_read_pieces(contents, refs, ps, k - 1, len);
        let r = refs.take(k);
        let q = ps.take(k);
        assert(r.drop_last() =~= refs.take(k - 1));
        assert(q.drop_last() =~= ps.take(k - 1));
        assert(r.last() == refs[k - 1]);
        assert(q.last() == ps[k - 1]);
        assert(r =~= refs.take(k - 1).push(refs[k - 1]));
        lemma_total_size_push(refs.take(k - 1), refs[k - 1]);
        lemma_flatten_prefix_len(ps, k, ps.len() as int);
        assert(ps.take(ps.len() as int) =~= ps);
        assert(q.flatten_alt() == q.drop_last().flatten_alt() + q.last());
        let start = total_size(refs.take(k - 1));
        assert(refs[k - 1].hash@ == sha256(ps[k - 1]));
        assert(chunk_bytes(contents, refs[k - 1]) == ps[k - 1]);
        assert(start + ps[k - 1].len() <= len);
        assert(segment(contents, refs[k - 1], start, 0, len) =~= ps[k - 1]) by {
            if ps[k - 1].len() == 0 {
            }
        }
    }
}

proof fn lemma_flatten_prefix_len(ps: Seq<Seq<u8>>, i: int, j: int)
    requires
        0 <= i <= j <= ps.len(),
    ensures
        ps.take(i).flatten_alt().len() <= ps.take(j).flatten_alt().len(),
    decreases j - i,
{
    if i < j {
        lemma_flatten_prefix_len(ps, i, j - 1);
        assert(ps.take(j).drop_last() =~= ps.take(j - 1));
    } else {
        assert(ps.take(j) =~= ps.take(i));
    }
    if j == ps.len() {
        assert(ps.take(j) =~= ps);
    }
}

/// After a write whose operation is the newest, the node holds the
/// written metadata and the store holds every piece of the data under its
/// digest, provided no two different chunks share a digest.
proof fn lemma_written_chunks_stored(fs0: FileSystem, fs1: FileSystem, node: u128, data: Seq<u8>, ops: Seq<OpView>)
    requires
        fs0.wf(),
        fs1.wf(),
        wrote(fs0, fs1, node, data, ops),
        is_fresh(fs0.tree().log(), ops[0]),
        no_digest_collision(fs0.storage().contents(), pieces(data, file_cuts(data))),
    ensures
        fs1.nodes() == fs0.nodes().insert(node, (ops[0].parent, ops[0].meta)),
        forall|i: int| 0 <= i < pieces(data, file_cuts(data)).len() ==> #[trigger] fs1.storage().contents().contains_key(sha256(pieces(data, file_cuts(data))[i]))
            && fs1.storage().contents()[sha256(pieces(data, file_cuts(data))[i])].0 == pieces(data, file_cuts(data))[i],
{
    let n0 = fs0.nodes();
    let op = ops[0];
    assert(node != 0);
    assert(n0.contains_key(node));
    fs0.tree().lemma_wf_acyclic();
    lemma_parent_not_below(n0, node);
    assert(op.child != op.parent) by {
        if op.child == op.parent {
            assert(crate::tree::parent_chain(n0, node, 0) == Some(node));
        }
    }
    assert(fs1.nodes() == n0.insert(node, (op.parent, op.meta)));
    let ps = pieces(data, file_cuts(data));
    let cs = data_chunks(data);
    let c0 = fs0.storage().contents();
    let c1 = fs1.storage().contents();
    crate::storage::lemma_pin_all_data(c0, cs);
    assert forall|i: int| 0 <= i < ps.len() implies #[trigger] c1.contains_key(sha256(ps[i])) && c1[sha256(ps[i])].0 == ps[i] by {
        assert(cs[i] == (sha256(ps[i]), ps[i]));
        let h = sha256(ps[i]);
        assert(c1.contains_key(cs[i].0));
        if c0.contains_key(h) {
        } else {
            let k = choose|k: int| 0 <= k < cs.len() && cs[k].0 == h && c1[h].0 == cs[k].1;
            assert(cs[k] == (sha256(ps[k]), ps[k]));
        }
    }
}

/// Every reference reads at least as many bytes as it covers.
pub open spec fn covering(contents: Map<Seq<u8>, (Seq<u8>, bool)>, refs: Seq<ChunkRef>) -> bool {
    forall|i: int| 0 <= i < refs.len() ==> #[trigger] chunk_bytes(contents, refs[i]).len() >= refs[i].size
}

/// The bytes a reference covers.
pub open spec fn ref_bytes(contents: Map<Seq<u8>, (Seq<u8>, bool)>, r: ChunkRef) -> Seq<u8> {
    chunk_bytes(contents, r).take(r.size as int)
}

/// The bytes that the references cover, one after the other.
pub open spec fn file_bytes(contents: Map<Seq<u8>, (Seq<u8>, bool)>, refs: Seq<ChunkRef>) -> Seq<u8>
    decreases refs.len(),
{
    if refs.len() == 0 {
        Seq::empty()
    } else {
        ref_bytes(contents, refs[0]) + file_bytes(contents, refs.drop_first())
    }
}

proof fn lemma_file_bytes_last(contents: Map<Seq<u8>, (Seq<u8>, bool)>, refs: Seq<ChunkRef>)
    requires
        refs.len() > 0,
    ensures
        file_bytes(contents, refs) == file_bytes(contents, refs.drop_last()) + ref_bytes(contents, refs.last()),
    decreases refs.len(),
{
    let rest = refs.drop_first();
    if rest.len() == 0 {
        assert(refs.drop_last() =~= Seq::<ChunkRef>::empty());
        assert(file_bytes(contents, rest) =~= Seq::<u8>::empty());
        assert(file_bytes(contents, refs) == ref_bytes(contents, refs[0]) + file_bytes(contents, rest));
        assert(file_bytes(contents, refs) =~= ref_bytes(contents, refs[0]));
    } else {
        lemma_file_bytes_last(contents, rest);
        assert(refs.drop_last().drop_first() =~= rest.drop_last());
        assert(refs.drop_last()[0] == refs[0]);
        assert(rest.last() == refs.last());
        assert(file_bytes(contents, refs) =~= file_bytes(contents, refs.drop_last()) + ref_bytes(contents, refs.last()));
    }
}

proof fn lemma_file_bytes_len(contents: Map<Seq<u8>, (Seq<u8>, bool)>, refs: Seq<ChunkRef>)
    requires
        covering(contents, refs),
    ensures
        file_bytes(contents, refs).len() == total_size(refs),
    decreases refs.len(),
{
    if refs.len() > 0 {
        let rest = refs.drop_first();
        assert forall|i: int| 0 <= i < rest.len() implies #[trigger] chunk_bytes(contents, rest[i]).len() >= rest[i].size by {
            assert(rest[i] == refs[i + 1]);
        }
        lemma_file_bytes_len(contents, rest);
        assert(chunk_bytes(contents, refs[0]).len() >= refs[0].size);
    }
}

/// A read from the start of a file whose references cover their bytes
/// gives the first bytes of the file.
proof fn lemma_read_prefix(contents: Map<Seq<u8>, (Seq<u8>, bool)>, refs: Seq<ChunkRef>, e: int)
    requires
        covering(contents, refs),
        0 <= e,
    ensures
        read_span(contents, refs, 0, e) == file_bytes(contents, refs).take(
            if e < total_size(refs) { e } else { total_size(refs) },
        ),
    decreases refs.len(),
{
    if refs.len() == 0 {
        assert(file_bytes(contents, refs).take(0) =~= Seq::<u8>::empty());
    } else {
        let d = refs.drop_last();
        let r = refs.last();
        assert(refs =~= d.push(r));
        lemma_total_size_push(d, r);
        lemma_total_size_nonneg(d);
        assert forall|i: int| 0 <= i < d.len() implies #[trigger] chunk_bytes(contents, d[i]).len() >= d[i].size by {
            assert(d[i] == refs[i]);
        }
        assert(chunk_bytes(contents, refs[refs.len() - 1]).len() >= refs[refs.len() - 1].size);
        lemma_read_prefix(contents, d, e);
        lemma_file_bytes_last(contents, refs);
        lemma_file_bytes_len(contents, d);
        let start = total_size(d);
        let fd = file_bytes(contents, d);
        let rb = ref_bytes(contents, r);
        assert(rb.len() == r.size);
        if e <= start {
            assert(segment(contents, r, start, 0, e) =~= Seq::<u8>::empty());
            assert(read_span(contents, refs, 0, e) =~= (fd + rb).take(e));
        } else {
            let b = if e - start < r.size { e - start } else { r.size as int };
            assert(segment(contents, r, start, 0, e) =~= rb.take(b));
            assert(read_span(contents, refs, 0, e) =~= (fd + rb).take(start + b));
        }
    }
}

/// Truncating the references keeps the first bytes of the file, and the
/// references still cover their bytes.
proof fn lemma_truncated_bytes(contents: Map<Seq<u8>, (Seq<u8>, bool)>, refs: Seq<ChunkRef>, n: u64)
    requires
        covering(contents, refs),
    ensures
        covering(contents, truncated(refs, n)),
        file_bytes(contents, truncated(refs, n)) == file_bytes(contents, refs).take(
            if n < total_size(refs) { n as int } else { total_size(refs) },
        ),
    decreases refs.len(),
{
    lemma_total_size_nonneg(refs);
    lemma_file_bytes_len(contents, refs);
    let t = truncated(refs, n);
    if refs.len() == 0 || n == 0 {
        assert(file_bytes(contents, refs).take(0) =~= Seq::<u8>::empty());
    } else {
        let r0 = refs[0];
        let rest = refs.drop_first();
        assert(chunk_bytes(contents, refs[0]).len() >= refs[0].size);
        assert forall|i: int| 0 <= i < rest.len() implies #[trigger] chunk_bytes(contents, rest[i]).len() >= rest[i].size by {
            assert(rest[i] == refs[i + 1]);
        }
        lemma_total_size_nonneg(rest);
        lemma_file_bytes_len(contents, rest);
        let rb = ref_bytes(contents, r0);
        assert(rb.len() == r0.size);
        if r0.size <= n {
            let m = (n - r0.size) as u64;
            let tt = truncated(rest, m);
            lemma_truncated_bytes(contents, rest, m);
            assert(t == seq![r0] + tt);
            assert(t.drop_first() =~= tt);
            assert(t[0] == r0);
            assert forall|i: int| 0 <= i < t.len() implies #[trigger] chunk_bytes(contents, t[i]).len() >= t[i].size by {
                if i > 0 {
                    assert(t[i] == tt[i - 1]);
                }
            }
            let k = if n < total_size(refs) { n as int } else { total_size(refs) };
            assert(file_bytes(contents, refs) == rb + file_bytes(contents, rest));
            assert(file_bytes(contents, t) =~= file_bytes(contents, refs).take(k));
        } else {
            let q = ChunkRef { hash: r0.hash, size: n };
            assert(t =~= seq![q]);
            assert(t.drop_first() =~= Seq::<ChunkRef>::empty());
            assert(file_bytes(contents, t.drop_first()) =~= Seq::<u8>::empty());
            assert(file_bytes(contents, t) == ref_bytes(contents, t[0]) + file_bytes(contents, t.drop_first()));
            assert(file_bytes(contents, t) =~= ref_bytes(contents, q));
            assert(chunk_bytes(contents, t[0]).len() >= t[0].size);
            assert(file_bytes(contents, refs) == rb + file_bytes(contents, rest));
            assert(ref_bytes(contents, q) =~= file_bytes(contents, refs).take(n as int));
        }
    }
}

/// A read of any range of a file whose references cover their bytes
/// gives that range of the file's bytes.
proof fn lemma_read_slice(contents: Map<Seq<u8>, (Seq<u8>, bool)>, refs: Seq<ChunkRef>, o: int, e: int)
    requires
        covering(contents, refs),
        0 <= o <= e,
    ensures
        read_span(contents, refs, o, e) == file_bytes(contents, refs).subrange(
            if o < total_size(refs) { o } else { total_size(refs) },
            if e < total_size(refs) { e } else { total_size(refs) },
        ),
    decreases refs.len(),
{
    lemma_total_size_nonneg(refs);
    lemma_file_bytes_len(contents, refs);
    if refs.len() == 0 {
        assert(file_bytes(contents, refs).subrange(0, 0) =~= Seq::<u8>::empty());
    } else {
        let d = refs.drop_last();
        let r = refs.last();
        assert(refs =~= d.push(r));
        lemma_total_size_push(d, r);
        lemma_total_size_nonneg(d);
        assert forall|i: int| 0 <= i < d.len() implies #[trigger] chunk_bytes(contents, d[i]).len() >= d[i].size by {
            assert(d[i] == refs[i]);
        }
        assert(chunk_bytes(contents, refs[refs.len() - 1]).len() >= refs[refs.len() - 1].size);
        lemma_read_slice(contents, d, o, e);
        lemma_file_bytes_last(contents, refs);
        lemma_file_bytes_len(contents, d);
        let start = total_size(d);
        let t = start + r.size;
        let fd = file_bytes(contents, d);
        let rb = ref_bytes(contents, r);
        let whole = fd + rb;
        assert(rb.len() == r.size);
        let o1 = if o < t { o } else { t };
        let e1 = if e < t { e } else { t };
        let o0 = if o < start { o } else { start };
        let e0 = if e < start { e } else { start };
        let a = if o > start { o - start } else { 0 };
        let b = if e - start < r.size { e - start } else { r.size as int };
        if a < b {
            assert(segment(contents, r, start, o, e) =~= rb.subrange(a, b));
            assert(read_span(contents, refs, o, e) =~= fd.subrange(o0, e0) + rb.subrange(a, b));
            assert(whole.subrange(o1, e1) =~= fd.subrange(o0, e0) + rb.subrange(a, b));
        } else {
            assert(segment(contents, r, start, o, e) =~= Seq::<u8>::empty());
            assert(read_span(contents, refs, o, e) =~= fd.subrange(o0, e0));
            assert(whole.subrange(o1, e1) =~= fd.subrange(o0, e0));
        }
    }
}

/// A partial read is a slice of the whole read: reading the bytes from
/// `offset` up to `end` of a file whose stored chunks are at least as long
/// as its references gives those bytes of the read of the whole file.
pub proof fn law_partial_read_is_a_slice(contents: Map<Seq<u8>, (Seq<u8>, bool)>, refs: Seq<ChunkRef>, offset: int, end: int)
    requires
        covering(contents, refs),
        0 <= offset <= end <= total_size(refs),
    ensures
        read_span(contents, refs, offset, end) == read_span(contents, refs, 0, total_size(refs)).subrange(offset, end),
{
    lemma_total_size_nonneg(refs);
    lemma_file_bytes_len(contents, refs);
    lemma_read_slice(contents, refs, offset, end);
    lemma_read_slice(contents, refs, 0, total_size(refs));
    let fb = file_bytes(contents, refs);
    assert(fb.subrange(0, total_size(refs)) =~= fb);
}

/// The chunks a read reports missing are exactly those it touches that
/// are not stored: for a non-empty read, an address is reported exactly
/// when the read looks it up and the store lacks it, so nothing is
/// reported exactly when every chunk the read touches is stored.
pub proof fn law_missing_are_the_unstored_touched(contents: Map<Seq<u8>, (Seq<u8>, bool)>, refs: Seq<ChunkRef>, offset: int, end: int)
    requires
        offset < end,
    ensures
        forall|x: Seq<u8>| #[trigger] missing_span(contents, refs, offset, end).contains(x)
            <==> read_touches(refs, offset, end).contains(x) && !contents.contains_key(x),
        (missing_span(contents, refs, offset, end).len() == 0) <==> (forall|k: int| 0 <= k < read_touches(refs, offset, end).len()
            ==> contents.contains_key(#[trigger] read_touches(refs, offset, end)[k])),
    decreases refs.len(),
{
    let m = missing_span(contents, refs, offset, end);
    let t = read_touches(refs, offset, end);
    if refs.len() > 0 {
        let d = refs.drop_last();
        law_missing_are_the_unstored_touched(contents, d, offset, end);
        let md = missing_span(contents, d, offset, end);
        let td = read_touches(d, offset, end);
        let h = refs.last().hash@;
        let start = total_size(d);
        let hit = start + refs.last().size > offset && start < end;
        assert forall|x: Seq<u8>| #[trigger] m.contains(x) <==> t.contains(x) && !contents.contains_key(x) by {
            if hit && !contents.contains_key(h) {
                assert(m =~= md.push(h));
            } else {
                assert(m =~= md);
            }
            if hit {
                assert(t =~= td.push(h));
            } else {
                assert(t =~= td);
            }
            if m.contains(x) {
                let k = choose|k: int| 0 <= k < m.len() && m[k] == x;
                if k < md.len() {
                    assert(md[k] == x);
                    assert(md.contains(x));
                    let q = choose|q: int| 0 <= q < td.len() && td[q] == x;
                    assert(t[q] == x);
                } else {
                    assert(t[t.len() - 1] == x);
                }
            }
            if t.contains(x) && !contents.contains_key(x) {
                let k = choose|k: int| 0 <= k < t.len() && t[k] == x;
                if k < td.len() {
                    assert(td[k] == x);
                    assert(td.contains(x));
                    assert(md.contains(x));
                    let q = choose|q: int| 0 <= q < md.len() && md[q] == x;
                    assert(m[q] == x);
                } else {
                    assert(hit);
                    assert(x == h);
                    assert(m =~= md.push(h));
                    assert(m[m.len() - 1] == x);
                }
            }
        }
    }
    if m.len() == 0 {
        assert forall|k: int| 0 <= k < t.len() implies contents.contains_key(#[trigger] t[k]) by {
            assert(t.contains(t[k]));
            if !contents.contains_key(t[k]) {
                assert(m.contains(t[k]));
            }
        }
    } else {
        assert(m.contains(m[0]));
        let k = choose|k: int| 0 <= k < t.len() && t[k] == m[0];
        assert(!contents.contains_key(t[k]));
    }
}

/// The file system went from `fs1` to `fs2` by truncating the regular
/// file `node` to `size` bytes: the single operation moves the node in
/// place with its references cut down to `size`, and the store is
/// unchanged.
pub open spec fn truncated_file(fs1: FileSystem, fs2: FileSystem, node: u128, size: u64, ops: Seq<OpView>) -> bool {
    &&& meta_of(fs1.nodes(), node) matches Some(MetaView::RegularFile { name, chunk_refs, .. }) && {
        &&& ops.len() == 1
        &&& ops[0].child == node
        &&& ops[0].parent == fs1.nodes()[node].0
        &&& ops[0].meta == (MetaView::RegularFile { name, size, chunk_refs: truncated(chunk_refs, size) })
    }
    &&& local_step(fs1.tree(), fs2.tree(), ops[0])
    &&& fs2.storage() == fs1.storage()
}

/// What a read gives back after a write and a truncation: once `data` has
/// been written to a file and the file then truncated to `size` bytes, no
/// more than were written, each operation the newest of its tree, the file
/// is a regular file of `size` bytes whose whole read gives the first
/// `size` bytes of `data`, provided no two different chunks share a
/// digest.
pub proof fn law_read_after_truncate(
    fs0: FileSystem,
    fs1: FileSystem,
    fs2: FileSystem,
    node: u128,
    data: Seq<u8>,
    ops1: Seq<OpView>,
    size: u64,
    ops2: Seq<OpView>,
)
    requires
        fs0.wf(),
        fs1.wf(),
        fs2.wf(),
        wrote(fs0, fs1, node, data, ops1),
        is_fresh(fs0.tree().log(), ops1[0]),
        no_digest_collision(fs0.storage().contents(), pieces(data, file_cuts(data))),
        truncated_file(fs1, fs2, node, size, ops2),
        is_fresh(fs1.tree().log(), ops2[0]),
        size <= data.len(),
    ensures
        meta_of(fs2.nodes(), node) matches Some(MetaView::RegularFile { size: s, chunk_refs, .. }) && {
            &&& s == size
            &&& read_span(fs2.storage().contents(), chunk_refs, 0, s as int) == data.take(size as int)
        },
{
    let ps = pieces(data, file_cuts(data));
    let c1 = fs1.storage().contents();
    lemma_written_chunks_stored(fs0, fs1, node, data, ops1);
    let op1 = ops1[0];
    let op2 = ops2[0];
    if let MetaView::RegularFile { size: len, chunk_refs: refs1, .. } = op1.meta {
        assert(meta_of(fs1.nodes(), node) == Some(op1.meta));
        crate::chunking::lemma_pieces_cover(data, file_cuts(data));
        lemma_read_pieces(c1, refs1, ps, refs1.len() as int, data.len() as int);
        assert(refs1.take(refs1.len() as int) =~= refs1);
        assert(ps.take(ps.len() as int) =~= ps);
        assert(total_size(refs1) == data.len());
        assert forall|i: int| 0 <= i < refs1.len() implies #[trigger] chunk_bytes(c1, refs1[i]).len() >= refs1[i].size by {
            assert(refs1[i].hash@ == sha256(ps[i]));
            assert(c1.contains_key(sha256(ps[i])));
        }
        lemma_read_prefix(c1, refs1, data.len() as int);
        lemma_file_bytes_len(c1, refs1);
        let fb = file_bytes(c1, refs1);
        assert(fb =~= fb.take(data.len() as int));
        assert(fb == data);
        // the truncation
        let n1 = fs1.nodes();
        assert(node != 0);
        assert(n1.contains_key(node));
        fs1.tree().lemma_wf_acyclic();
        lemma_parent_not_below(n1, node);
        assert(op2.child != op2.parent) by {
            if op2.child == op2.parent {
                assert(crate::tree::parent_chain(n1, node, 0) == Some(node));
            }
        }
        assert(fs2.nodes() == n1.insert(node, (op2.parent, op2.meta)));
        let t = truncated(refs1, size);
        assert(op2.meta == (MetaView::RegularFile { name: n1[node].1.name(), size, chunk_refs: t }));
        lemma_truncated_bytes(c1, refs1, size);
        crate::chunking::lemma_truncated_size(refs1, size);
        assert(total_size(t) == size);
        lemma_read_prefix(c1, t, size as int);
        lemma_file_bytes_len(c1, t);
        assert(fs2.storage().contents() == c1);
        assert(file_bytes(c1, t) == data.take(size as int));
        assert(file_bytes(c1, t).take(size as int) =~= file_bytes(c1, t));
    }
}

/// What a read gives back of a write: once `write_file` has written
/// `data` to a file and its operation is the newest of the tree, the file
/// is a regular file of `data`'s length whose whole read gives `data`,
/// provided no two different chunks share a digest.
pub proof fn law_read_after_write(fs0: FileSystem, fs1: FileSystem, node: u128, data: Seq<u8>, ops: Seq<OpView>)
    requires
        fs0.wf(),
        fs1.wf(),
        wrote(fs0, fs1, node, data, ops),
        is_fresh(fs0.tree().log(), ops[0]),
        no_digest_collision(fs0.storage().contents(), pieces(data, file_cuts(data))),
    ensures
        meta_of(fs1.nodes(), node) matches Some(MetaView::RegularFile { size, chunk_refs, .. }) && {
            &&& size == data.len()
            &&& read_span(fs1.storage().contents(), chunk_refs, 0, size as int) == data
        },
{
    let op = ops[0];
    let ps = pieces(data, file_cuts(data));
    let c1 = fs1.storage().contents();
    lemma_written_chunks_stored(fs0, fs1, node, data, ops);
    if let MetaView::RegularFile { size, chunk_refs, .. } = op.meta {
        crate::chunking::lemma_pieces_cover(data, file_cuts(data));
        lemma_read_pieces(c1, chunk_refs, ps, chunk_refs.len() as int, data.len() as int);
        assert(chunk_refs.take(chunk_refs.len() as int) =~= chunk_refs);
        assert(ps.take(ps.len() as int) =~= ps);
    }
}

/// What a lookup gives after a create: once a node has been created in a
/// parent under a name and its operation is the newest of the tree, the
/// parent has a child of that name, the new node, with the given metadata,
/// unless the node already lay above the parent (then the tree skips the
/// move).
pub proof fn law_lookup_after_create(fs0: FileSystem, fs1: FileSystem, parent: u128, name: Seq<char>, meta: MetaView, node: u128, ops: Seq<OpView>)
    requires
        fs0.wf(),
        ops.len() == 1,
        ops[0].parent == parent,
        ops[0].child == node,
        ops[0].meta == meta,
        meta.name() == name,
        local_step(fs0.tree(), fs1.tree(), ops[0]),
        is_fresh(fs0.tree().log(), ops[0]),
        node != parent,
        !crate::tree::is_ancestor(fs0.nodes(), parent, node),
    ensures
        is_child_named(fs1.nodes(), parent, name, node),
        has_child_named(fs1.nodes(), parent, name),
        parent != u128::MAX && node != 0 ==> meta_of(fs1.nodes(), node) == Some(meta),
{
    assert(fs1.nodes() == fs0.nodes().insert(node, (parent, meta)));
}

/// What a lookup gives after a delete: once a node has been moved to the
/// trash and that operation is the newest of the tree, the node has no
/// metadata and is no child of any other node, unless the node lay above
/// the trash.
pub proof fn law_lookup_after_delete(fs0: FileSystem, fs1: FileSystem, node: u128, ops: Seq<OpView>, parent: u128, name: Seq<char>)
    requires
        fs0.wf(),
        trashes(fs0.nodes(), ops, node),
        local_step(fs0.tree(), fs1.tree(), ops[0]),
        is_fresh(fs0.tree().log(), ops[0]),
        !reserved(node),
        !crate::tree::is_ancestor(fs0.nodes(), u128::MAX, node),
        parent != u128::MAX,
    ensures
        meta_of(fs1.nodes(), node) is None,
        !is_child_named(fs1.nodes(), parent, name, node),
{
    assert(fs1.nodes() == fs0.nodes().insert(node, (u128::MAX, fs0.nodes()[node].1)));
}

/// What a lookup gives after a rename: once a node has been moved under a
/// new parent with a new name and that operation is the newest of the
/// tree, the new parent has a child of the new name, the node, with its
/// metadata renamed, unless the node lay above the new parent.
pub proof fn law_lookup_after_rename(fs0: FileSystem, fs1: FileSystem, node: u128, new_parent: u128, new_name: Seq<char>, ops: Seq<OpView>)
    requires
        fs0.wf(),
        meta_of(fs0.nodes(), node) is Some,
        ops.len() == 1,
        ops[0].child == node,
        ops[0].parent == new_parent,
        ops[0].meta == renamed(meta_of(fs0.nodes(), node).unwrap(), new_name),
        local_step(fs0.tree(), fs1.tree(), ops[0]),
        is_fresh(fs0.tree().log(), ops[0]),
        node != new_parent,
        !crate::tree::is_ancestor(fs0.nodes(), new_parent, node),
    ensures
        is_child_named(fs1.nodes(), new_parent, new_name, node),
        new_parent != u128::MAX && node != 0 ==> meta_of(fs1.nodes(), node) == Some(renamed(meta_of(fs0.nodes(), node).unwrap(), new_name)),
{
    let m = meta_of(fs0.nodes(), node).unwrap();
    assert(renamed(m, new_name).name() == new_name);
    assert(fs1.nodes() == fs0.nodes().insert(node, (new_parent, renamed(m, new_name))));
}

/// The metadata with the name replaced.
pub open spec fn renamed(meta: MetaView, name: Seq<char>) -> MetaView {
    match meta {
        MetaView::Directory { .. } => MetaView::Directory { name },
        MetaView::RegularFile { size, chunk_refs, .. } => MetaView::RegularFile { name, size, chunk_refs },
        MetaView::Symlink { target, .. } => MetaView::Symlink { name, target },
    }
}

/// Renaming changes the name and nothing else: the renamed metadata has
/// the new name and the same kind, and renaming it back to the old name
/// gives the metadata back, size, chunks and link target included.
pub proof fn law_rename_keeps_all_but_the_name(meta: MetaView, name: Seq<char>)
    ensures
        renamed(meta, name).name() == name,
        renamed(renamed(meta, name), meta.name()) == meta,
        (renamed(meta, name) is Directory) == (meta is Directory),
        (renamed(meta, name) is RegularFile) == (meta is RegularFile),
        (renamed(meta, name) is Symlink) == (meta is Symlink),
{
}

/// One local operation of the tree: the tree applies it, it is stamped by
/// this peer, and while the clock stays in order it is later than every
/// logged operation.
pub open spec fn local_step(t0: NodeTree, t1: NodeTree, op: OpView) -> bool {
    &&& t1.peer() == t0.peer()
    &&& op.actor == t0.peer()
    &&& applies(t0.nodes(), t0.log(), t1.nodes(), t1.log(), op)
    &&& (t0.in_order() && t0.clock_has_room() && t1.clock().physical() < PHYSICAL_LIMIT ==> {
        &&& is_fresh(t0.log(), op)
        &&& t1.in_order()
    })
}

/// A node together with its metadata.
pub struct FileSystemEntry {
    pub node_id: NodeId,
    pub meta: NodeMeta,
}

/// The result of a change to the tree together with the operations that
/// made it, which the other peers must receive.
#[must_use]
pub struct TreeMutation<T> {
    result: T,
    operations: Vec<NodeOperation>,
}

impl<T> TreeMutation<T> {
    /// The result of the change.
    pub closed spec fn result(&self) -> T {
        self.result
    }

    /// The operations that made the change.
    pub closed spec fn operations(&self) -> Seq<OpView> {
        op_views(self.operations@)
    }

    /// A change with its result and its operations.
    pub fn new(result: T, operations: Vec<NodeOperation>) -> (r: Self)
        ensures
            r.result() == result,
            r.operations() == op_views(operations@),
    {
        TreeMutation { result, operations }
    }

    /// The result and the operations, taken apart.
    pub fn into_parts(self) -> (r: (T, Vec<NodeOperation>))
        ensures
            r.0 == self.result(),
            op_views(r.1@) == self.operations(),
    {
        (self.result, self.operations)
    }
}

/// What caching a chunk does: nothing to the tree or the pinned chunks;
/// a chunk already stored, or too large for the cache, changes nothing;
/// otherwise the chunk is stored cached and only cached chunks may have
/// made room for it.
pub open spec fn cache_effect(fs0: FileSystem, fs1: FileSystem, data: Seq<u8>) -> bool {
    let m0 = fs0.storage().contents();
    let m1 = fs1.storage().contents();
    &&& fs1.tree() == fs0.tree()
    &&& fs1.storage().capacity() == fs0.storage().capacity()
    &&& fs1.storage().pinned_bytes() == fs0.storage().pinned_bytes()
    &&& (m0.contains_key(sha256(data)) || data.len() > fs0.storage().cache_limit() ==> m1 == m0)
    &&& (!(m0.contains_key(sha256(data)) || data.len() > fs0.storage().cache_limit()) ==> {
        &&& m1.contains_key(sha256(data))
        &&& m1[sha256(data)] == (data, false)
        &&& forall|h: Seq<u8>| #[trigger] m1.contains_key(h) && h != sha256(data) ==> m0.contains_key(h) && m1[h] == m0[h]
        &&& forall|h: Seq<u8>| #[trigger] m0.contains_key(h) && m0[h].1 ==> m1.contains_key(h)
    })
}

/// The in-memory file system: the metadata tree and the chunk store.
pub struct FileSystem {
    tree: NodeTree,
    storage: ChunkStorage,
}

impl FileSystem {
    /// The metadata tree.
    pub closed spec fn tree(&self) -> NodeTree {
        self.tree
    }

    /// The chunk store.
    pub closed spec fn storage(&self) -> ChunkStorage {
        self.storage
    }

    /// For each node id, its parent and metadata.
    pub open spec fn nodes(&self) -> Map<u128, (u128, MetaView)> {
        self.tree().nodes()
    }

    /// Both parts are consistent.
    pub open spec fn wf(&self) -> bool {
        self.tree().wf() && self.storage().wf() && addressed(self.storage().contents())
    }

    /// A file system made of the tree and the store.
    pub fn new(tree: NodeTree, storage: ChunkStorage) -> (r: Self)
        requires
            tree.wf(),
            storage.wf(),
            addressed(storage.contents()),
        ensures
            r.wf(),
            r.tree() == tree,
            r.storage() == storage,
    {
        FileSystem { tree, storage }
    }

    /// The capacity for pinned chunks, in bytes.
    pub fn capacity_bytes(&self) -> (r: usize)
        ensures
            r == self.storage().capacity(),
    {
        self.storage.capacity_bytes()
    }

    /// The bytes still free for pinned chunks.
    pub fn free_bytes(&self) -> (r: usize)
        requires
            self.wf(),
        ensures
            r == self.storage().capacity() - self.storage().pinned_bytes(),
    {
        self.storage.free_bytes()
    }

    /// The bytes of a stored chunk, if any; a cached chunk that is read
    /// becomes the most recently used.
    pub fn chunk(&mut self, hash: &ChunkHash) -> (r: Option<Vec<u8>>)
        requires
            old(self).wf(),
        ensures
            final(self).wf(),
            final(self).tree() == old(self).tree(),
            final(self).storage().contents() == old(self).storage().contents(),
            final(self).storage().capacity() == old(self).storage().capacity(),
            final(self).storage().pinned_bytes() == old(self).storage().pinned_bytes(),
            final(self).storage().cached_bytes() == old(self).storage().cached_bytes(),
            final(self).storage().lru() == if old(self).storage().contents().contains_key(hash@) && !old(self).storage().contents()[hash@].1 {
                crate::storage::without(old(self).storage().lru(), hash@).push(hash@)
            } else {
                old(self).storage().lru()
            },
            match r {
                Some(data) => old(self).storage().contents().contains_key(hash@) && data@ == old(self).storage().contents()[hash@].0,
                None => !old(self).storage().contents().contains_key(hash@),
            },
    {
        self.storage.get(hash)
    }

    /// The metadata of a node: the root is an unnamed directory; a node in
    /// the trash or unknown to the tree is not found.
    pub fn metadata(&self, node_id: NodeId) -> (r: Result<NodeMeta, FileSystemError>)
        ensures
            match r {
                Ok(meta) => meta_of(self.nodes(), node_id.id) == Some(meta@),
                Err(e) => e is NotFound && meta_of(self.nodes(), node_id.id) is None,
            },
    {
        if node_id.id == NodeId::root().id {
            let name = String::new();
            proof {
                assert(name@ =~= Seq::<char>::empty());
            }
            return Ok(NodeMeta::Directory { name });
        }
        if self.tree.is_trashed(node_id) {
            return Err(FileSystemError::NotFound);
        }
        match self.tree.metadata(node_id) {
            Some(meta) => Ok(meta.duplicate()),
            None => Err(FileSystemError::NotFound),
        }
    }

    /// The parent of a node; the root for a node the tree does not hold.
    pub fn parent_id(&self, node_id: NodeId) -> (r: NodeId)
        ensures
            r.id == if self.nodes().contains_key(node_id.id) { self.nodes()[node_id.id].0 } else { 0 },
    {
        match self.tree.parent_id(node_id) {
            Some(parent) => parent,
            None => NodeId::root(),
        }
    }

    /// A child of `parent_id` with the name; which one, where several have
    /// it, is not fixed.
    pub fn child_id(&self, parent_id: NodeId, name: &str) -> (r: Result<NodeId, FileSystemError>)
        ensures
            match r {
                Ok(c) => parent_known(self.nodes(), parent_id.id) && is_child_named(self.nodes(), parent_id.id, name@, c.id),
                Err(e) => e is NotFound && !lookup_succeeds(self.nodes(), parent_id.id, name@),
            },
    {
        let children = match self.tree.children(parent_id) {
            Ok(children) => {
                proof {
                    assert(parent_known(self.nodes(), parent_id.id));
                }
                children
            },
            Err(_) => {
                return Err(FileSystemError::NotFound);
            },
        };
        let mut i: usize = 0;
        while i < children.len()
            invariant
                parent_known(self.nodes(), parent_id.id),
                0 <= i <= children@.len(),
                lists_children(self.nodes(), parent_id.id, children@),
                forall|j: int| 0 <= j < i ==> !#[trigger] is_child_named(self.nodes(), parent_id.id, name@, children@[j].id),
            decreases children@.len() - i,
        {
            let child = children[i];
            proof {
                assert(self.nodes().contains_key(children@[i as int].id));
            }
            match self.tree.metadata(child) {
                Some(meta) => {
                    if same_text(meta.name(), name) {
                        return Ok(child);
                    }
                },
                None => {},
            }
            i = i + 1;
        }
        proof {
            if has_child_named(self.nodes(), parent_id.id, name@) {
                let c = choose|c: u128| #[trigger] is_child_named(self.nodes(), parent_id.id, name@, c);
                let j = choose|j: int| 0 <= j < children@.len() && #[trigger] children@[j].id == c;
                assert(is_child_named(self.nodes(), parent_id.id, name@, children@[j].id));
            }
        }
        Err(FileSystemError::NotFound)
    }

    fn create_node(&mut self, parent: NodeId, name: &str, meta: NodeMeta) -> (r: Result<TreeMutation<FileSystemEntry>, FileSystemError>)
        requires
            old(self).wf(),
        ensures
            final(self).wf(),
            final(self).storage() == old(self).storage(),
            match r {
                Ok(m) => {
                    &&& !lookup_succeeds(old(self).nodes(), parent.id, name@)
                    &&& m.result().node_id.id == uuid_v5(parent.id, name.spec_bytes())
                    &&& m.result().meta@ == meta@
                    &&& m.operations().len() == 1
                    &&& m.operations()[0].parent == parent.id
                    &&& m.operations()[0].child == m.result().node_id.id
                    &&& m.operations()[0].meta == meta@
                    &&& local_step(old(self).tree(), final(self).tree(), m.operations()[0])
                },
                Err(e) => {
                    &&& e is AlreadyExists
                    &&& lookup_succeeds(old(self).nodes(), parent.id, name@)
                    &&& *final(self) == *old(self)
                },
            },
    {
        if self.child_id(parent, name).is_ok() {
            return Err(FileSystemError::AlreadyExists);
        }
        let node_id = NodeId::from_u128(new_v5(parent.as_u128(), name.as_bytes()));
        let operation = self.tree.create_node(parent, node_id, meta.duplicate());
        let mut operations: Vec<NodeOperation> = Vec::new();
        operations.push(operation);
        proof {
            assert(op_views(operations@)[0] == operation@);
        }
        Ok(TreeMutation::new(FileSystemEntry { node_id, meta }, operations))
    }

    /// Creates an empty directory `name` in `parent_id`.
    pub fn create_directory(&mut self, parent_id: NodeId, name: &str) -> (r: Result<TreeMutation<FileSystemEntry>, FileSystemError>)
        requires
            old(self).wf(),
        ensures
            final(self).wf(),
            final(self).storage() == old(self).storage(),
            match r {
                Ok(m) => {
                    &&& !lookup_succeeds(old(self).nodes(), parent_id.id, name@)
                    &&& m.result().node_id.id == uuid_v5(parent_id.id, name.spec_bytes())
                    &&& m.result().meta@ == (MetaView::Directory { name: name@ })
                    &&& m.operations().len() == 1
                    &&& m.operations()[0].parent == parent_id.id
                    &&& m.operations()[0].child == m.result().node_id.id
                    &&& m.operations()[0].meta == m.result().meta@
                    &&& local_step(old(self).tree(), final(self).tree(), m.operations()[0])
                },
                Err(e) => {
                    &&& e is AlreadyExists
                    &&& lookup_succeeds(old(self).nodes(), parent_id.id, name@)
                    &&& *final(self) == *old(self)
                },
            },
    {
        let dir_name = name.to_owned();
        self.create_node(parent_id, name, NodeMeta::Directory { name: dir_name })
    }

    /// Creates an empty regular file `name` in `parent_id`.
    pub fn create_file(&mut self, parent_id: NodeId, name: &str) -> (r: Result<TreeMutation<FileSystemEntry>, FileSystemError>)
        requires
            old(self).wf(),
        ensures
            final(self).wf(),
            final(self).storage() == old(self).storage(),
            match r {
                Ok(m) => {
                    &&& !lookup_succeeds(old(self).nodes(), parent_id.id, name@)
                    &&& m.result().node_id.id == uuid_v5(parent_id.id, name.spec_bytes())
                    &&& m.result().meta@ == (MetaView::RegularFile { name: name@, size: 0, chunk_refs: Seq::empty() })
                    &&& m.operations().len() == 1
                    &&& m.operations()[0].parent == parent_id.id
                    &&& m.operations()[0].child == m.result().node_id.id
                    &&& m.operations()[0].meta == m.result().meta@
                    &&& local_step(old(self).tree(), final(self).tree(), m.operations()[0])
                },
                Err(e) => {
                    &&& e is AlreadyExists
                    &&& lookup_succeeds(old(self).nodes(), parent_id.id, name@)
                    &&& *final(self) == *old(self)
                },
            },
    {
        let file_name = name.to_owned();
        let refs: Vec<ChunkRef> = Vec::new();
        proof {
            assert(refs@ =~= Seq::<ChunkRef>::empty());
        }
        self.create_node(parent_id, name, NodeMeta::RegularFile { name: file_name, size: 0, chunk_refs: refs })
    }

    /// Creates a symbolic link `name` in `parent_id` that points at
    /// `target`.
    pub fn create_symlink(&mut self, parent_id: NodeId, name: &str, target: String) -> (r: Result<TreeMutation<FileSystemEntry>, FileSystemError>)
        requires
            old(self).wf(),
        ensures
            final(self).wf(),
            final(self).storage() == old(self).storage(),
            match r {
                Ok(m) => {
                    &&& !lookup_succeeds(old(self).nodes(), parent_id.id, name@)
                    &&& m.result().node_id.id == uuid_v5(parent_id.id, name.spec_bytes())
                    &&& m.result().meta@ == (MetaView::Symlink { name: name@, target: target@ })
                    &&& m.operations().len() == 1
                    &&& m.operations()[0].parent == parent_id.id
                    &&& m.operations()[0].child == m.result().node_id.id
                    &&& m.operations()[0].meta == m.result().meta@
                    &&& local_step(old(self).tree(), final(self).tree(), m.operations()[0])
                },
                Err(e) => {
                    &&& e is AlreadyExists
                    &&& lookup_succeeds(old(self).nodes(), parent_id.id, name@)
                    &&& *final(self) == *old(self)
                },
            },
    {
        let link_name = name.to_owned();
        self.create_node(parent_id, name, NodeMeta::Symlink { name: link_name, target })
    }

    /// The entries of a directory: each child that has metadata, with its
    /// name and metadata, each once, in no particular order.
    pub fn list_directory(&self, node_id: NodeId) -> (r: Result<Vec<(NodeId, String, NodeMeta)>, FileSystemError>)
        requires
            self.wf(),
        ensures
            match r {
                Ok(entries) => {
                    &&& meta_of(self.nodes(), node_id.id) matches Some(MetaView::Directory { .. })
                    &&& forall|a: int, b: int| 0 <= a < entries@.len() && 0 <= b < entries@.len() && a != b ==> #[trigger] entries@[a].0 != #[trigger] entries@[b].0
                    &&& forall|i: int| 0 <= i < entries@.len() ==> {
                        &&& self.nodes().contains_key(#[trigger] entries@[i].0.id)
                        &&& self.nodes()[entries@[i].0.id].0 == node_id.id
                        &&& meta_of(self.nodes(), entries@[i].0.id) == Some(entries@[i].2@)
                        &&& entries@[i].1@ == entries@[i].2@.name()
                    }
                    &&& forall|c: u128| #[trigger] self.nodes().contains_key(c) && self.nodes()[c].0 == node_id.id && meta_of(self.nodes(), c) is Some
                        ==> exists|i: int| 0 <= i < entries@.len() && #[trigger] entries@[i].0.id == c
                },
                Err(e) => {
                    &&& (e is NotFound <==> meta_of(self.nodes(), node_id.id) is None)
                    &&& (e is NotADirectory <==> (meta_of(self.nodes(), node_id.id) is Some && !(meta_of(self.nodes(), node_id.id) matches Some(MetaView::Directory { .. }))))
                    &&& (e is NotFound || e is NotADirectory)
                },
            },
    {
        let meta = self.metadata(node_id)?;
        match meta {
            NodeMeta::Directory { .. } => {},
            _ => {
                return Err(FileSystemError::NotADirectory);
            },
        }
        let ids = match self.tree.children(node_id) {
            Ok(ids) => ids,
            Err(_) => {
                proof {
                    assert(false);
                }
                return Err(FileSystemError::NotFound);
            },
        };
        let mut entries: Vec<(NodeId, String, NodeMeta)> = Vec::new();
        let mut i: usize = 0;
        while i < ids.len()
            invariant
                0 <= i <= ids@.len(),
                lists_children(self.nodes(), node_id.id, ids@),
                forall|a: int, b: int| 0 <= a < entries@.len() && 0 <= b < entries@.len() && a != b ==> #[trigger] entries@[a].0 != #[trigger] entries@[b].0,
                forall|a: int| 0 <= a < entries@.len() ==> exists|j: int| 0 <= j < i && #[trigger] ids@[j] == #[trigger] entries@[a].0,
                forall|a: int| 0 <= a < entries@.len() ==> {
                    &&& self.nodes().contains_key(#[trigger] entries@[a].0.id)
                    &&& self.nodes()[entries@[a].0.id].0 == node_id.id
                    &&& meta_of(self.nodes(), entries@[a].0.id) == Some(entries@[a].2@)
                    &&& entries@[a].1@ == entries@[a].2@.name()
                },
                forall|j: int| 0 <= j < i && meta_of(self.nodes(), ids@[j].id) is Some ==> exists|a: int| 0 <= a < entries@.len() && #[trigger] entries@[a].0 == #[trigger] ids@[j],
            decreases ids@.len() - i,
        {
            let child = ids[i];
            proof {
                assert(self.nodes().contains_key(ids@[i as int].id));
            }
            let ghost e0 = entries@;
            match self.metadata(child) {
                Ok(meta) => {
                    let name = meta.name().to_owned();
                    proof {
                        assert forall|a: int| 0 <= a < e0.len() implies e0[a].0 != child by {
                            let j = choose|j: int| 0 <= j < i && #[trigger] ids@[j] == #[trigger] e0[a].0;
                            assert(j != i);
                        }
                    }
                    entries.push((child, name, meta));
                    proof {
                        assert(entries@[e0.len() as int].0 == ids@[i as int]);
                    }
                },
                Err(_) => {},
            }
            proof {
                assert forall|a: int| 0 <= a < entries@.len() implies exists|j: int| 0 <= j < i + 1 && #[trigger] ids@[j] == #[trigger] entries@[a].0 by {
                    if a < e0.len() {
                        assert(entries@[a] == e0[a]);
                        let j = choose|j: int| 0 <= j < i && #[trigger] ids@[j] == #[trigger] e0[a].0;
                    } else {
                        assert(ids@[i as int] == entries@[a].0);
                    }
                }
                assert forall|j: int| 0 <= j < i + 1 && meta_of(self.nodes(), ids@[j].id) is Some implies exists|a: int| 0 <= a < entries@.len() && #[trigger] entries@[a].0 == #[trigger] ids@[j] by {
                    if j < i {
                        let a = choose|a: int| 0 <= a < e0.len() && #[trigger] e0[a].0 == #[trigger] ids@[j];
                        assert(entries@[a] == e0[a]);
                    } else {
                        assert(entries@[e0.len() as int].0 == ids@[j]);
                    }
                }
            }
            i = i + 1;
        }
        proof {
            assert forall|c: u128| #[trigger] self.nodes().contains_key(c) && self.nodes()[c].0 == node_id.id && meta_of(self.nodes(), c) is Some
                implies exists|a: int| 0 <= a < entries@.len() && #[trigger] entries@[a].0.id == c by {
                let j = choose|j: int| 0 <= j < ids@.len() && #[trigger] ids@[j].id == c;
                let a = choose|a: int| 0 <= a < entries@.len() && #[trigger] entries@[a].0 == #[trigger] ids@[j];
                assert(entries@[a].0.id == c);
            }
        }
        Ok(entries)
    }

    /// Deletes the empty directory `name` in `parent_id` by moving it to
    /// the trash.
    pub fn delete_directory(&mut self, parent_id: NodeId, name: &str) -> (r: Result<TreeMutation<()>, FileSystemError>)
        requires
            old(self).wf(),
        ensures
            final(self).wf(),
            final(self).storage() == old(self).storage(),
            !lookup_succeeds(old(self).nodes(), parent_id.id, name@) ==> r matches Err(FileSystemError::NotFound),
            match r {
                Ok(m) => exists|c: u128| {
                    &&& #[trigger] is_child_named(old(self).nodes(), parent_id.id, name@, c)
                    &&& meta_of(old(self).nodes(), c) matches Some(MetaView::Directory { .. })
                    &&& !has_children(old(self).nodes(), c)
                    &&& !reserved(c)
                    &&& trashes(old(self).nodes(), m.operations(), c)
                    &&& local_step(old(self).tree(), final(self).tree(), m.operations()[0])
                },
                Err(e) => {
                    &&& *final(self) == *old(self)
                    &&& e is NotFound ==> !lookup_succeeds(old(self).nodes(), parent_id.id, name@) || exists|c: u128|
                        #[trigger] is_child_named(old(self).nodes(), parent_id.id, name@, c) && meta_of(old(self).nodes(), c) is None
                    &&& e is NotADirectory ==> exists|c: u128|
                        #[trigger] is_child_named(old(self).nodes(), parent_id.id, name@, c) && meta_of(old(self).nodes(), c) is Some
                            && !is_directory_meta(meta_of(old(self).nodes(), c))
                    &&& e is DirectoryNotEmpty ==> exists|c: u128|
                        #[trigger] is_child_named(old(self).nodes(), parent_id.id, name@, c) && has_children(old(self).nodes(), c)
                    &&& e is ReservedNode ==> exists|c: u128| #[trigger] is_child_named(old(self).nodes(), parent_id.id, name@, c) && reserved(c)
                    &&& (e is NotFound || e is NotADirectory || e is DirectoryNotEmpty || e is ReservedNode)
                },
            },
    {
        let node_id = self.child_id(parent_id, name)?;
        let meta = self.metadata(node_id)?;
        match meta {
            NodeMeta::Directory { .. } => {},
            _ => {
                return Err(FileSystemError::NotADirectory);
            },
        }
        let children = match self.tree.children(node_id) {
            Ok(children) => children,
            Err(e) => {
                return Err(FileSystemError::from(e));
            },
        };
        if children.len() > 0 {
            proof {
                assert(self.nodes().contains_key(children@[0].id));
            }
            return Err(FileSystemError::DirectoryNotEmpty);
        }
        proof {
            if has_children(self.nodes(), node_id.id) {
                let d = choose|d: u128| #[trigger] self.nodes().contains_key(d) && self.nodes()[d].0 == node_id.id;
                assert(exists|i: int| 0 <= i < children@.len() && #[trigger] children@[i].id == d);
            }
        }
        let operation = match self.tree.delete_node(node_id) {
            Ok(op) => op,
            Err(e) => {
                return Err(FileSystemError::from(e));
            },
        };
        let mut operations: Vec<NodeOperation> = Vec::new();
        operations.push(operation);
        proof {
            assert(op_views(operations@)[0] == operation@);
        }
        Ok(TreeMutation::new((), operations))
    }

    /// Deletes the file or symbolic link `name` in `parent_id` by moving
    /// it to the trash.
    pub fn delete_file(&mut self, parent_id: NodeId, name: &str) -> (r: Result<TreeMutation<()>, FileSystemError>)
        requires
            old(self).wf(),
        ensures
            final(self).wf(),
            final(self).storage() == old(self).storage(),
            !lookup_succeeds(old(self).nodes(), parent_id.id, name@) ==> r matches Err(FileSystemError::NotFound),
            match r {
                Ok(m) => exists|c: u128| {
                    &&& #[trigger] is_child_named(old(self).nodes(), parent_id.id, name@, c)
                    &&& meta_of(old(self).nodes(), c) is Some
                    &&& !(meta_of(old(self).nodes(), c) matches Some(MetaView::Directory { .. }))
                    &&& !reserved(c)
                    &&& trashes(old(self).nodes(), m.operations(), c)
                    &&& local_step(old(self).tree(), final(self).tree(), m.operations()[0])
                },
                Err(e) => {
                    &&& *final(self) == *old(self)
                    &&& e is NotFound ==> !lookup_succeeds(old(self).nodes(), parent_id.id, name@) || exists|c: u128|
                        #[trigger] is_child_named(old(self).nodes(), parent_id.id, name@, c) && meta_of(old(self).nodes(), c) is None
                    &&& e is IsADirectory ==> exists|c: u128|
                        #[trigger] is_child_named(old(self).nodes(), parent_id.id, name@, c)
                            && is_directory_meta(meta_of(old(self).nodes(), c))
                    &&& e is ReservedNode ==> exists|c: u128| #[trigger] is_child_named(old(self).nodes(), parent_id.id, name@, c) && reserved(c)
                    &&& (e is NotFound || e is IsADirectory || e is ReservedNode)
                },
            },
    {
        let node_id = self.child_id(parent_id, name)?;
        let meta = self.metadata(node_id)?;
        match meta {
            NodeMeta::Directory { .. } => Err(FileSystemError::IsADirectory),
            _ => {
                let operation = match self.tree.delete_node(node_id) {
                    Ok(op) => op,
                    Err(e) => {
                        return Err(FileSystemError::from(e));
                    },
                };
                let mut operations: Vec<NodeOperation> = Vec::new();
                operations.push(operation);
                proof {
                    assert(op_views(operations@)[0] == operation@);
                }
                Ok(TreeMutation::new((), operations))
            },
        }
    }

    /// Replaces the content of a regular file: the data is cut into
    /// content-defined chunks, which are pinned, and the file's metadata
    /// then refers to them. Nothing changes when the chunks do not fit.
    pub fn write_file(&mut self, node_id: NodeId, data: &[u8]) -> (r: Result<TreeMutation<()>, FileSystemError>)
        requires
            old(self).wf(),
        ensures
            final(self).wf(),
            match r {
                Ok(m) => wrote(*old(self), *final(self), node_id.id, data@, m.operations()),
                Err(e) => {
                    &&& *final(self) == *old(self)
                    &&& (e is NotFound <==> meta_of(old(self).nodes(), node_id.id) is None)
                    &&& (e is IsADirectory <==> (meta_of(old(self).nodes(), node_id.id) is Some && !(meta_of(old(self).nodes(), node_id.id) matches Some(MetaView::RegularFile { .. }))))
                    &&& (e is StorageFull <==> (meta_of(old(self).nodes(), node_id.id) matches Some(MetaView::RegularFile { .. })
                        && old(self).storage().pinned_bytes() + pin_cost(old(self).storage().contents(), data_chunks(data@)) > old(self).storage().capacity()))
                    &&& (e is NotFound || e is IsADirectory || e is StorageFull)
                },
            },
    {
        let meta = self.metadata(node_id)?;
        let name = match meta {
            NodeMeta::RegularFile { name, .. } => name,
            _ => {
                return Err(FileSystemError::IsADirectory);
            },
        };
        let data_len = data.len();
        let chunks = split(data);
        let ghost ps = pieces(data@, file_cuts(data@));
        let mut chunk_refs: Vec<ChunkRef> = Vec::new();
        let mut i: usize = 0;
        while i < chunks.len()
            invariant
                0 <= i <= chunks@.len(),
                crate::chunking::chunk_datas(chunks@) == ps,
                forall|j: int| 0 <= j < chunks@.len() ==> #[trigger] chunks@[j].hash_view() == sha256(chunks@[j].data_view()),
                forall|j: int| 0 <= j < chunks@.len() ==> #[trigger] chunks@[j].data_view().len() <= data@.len(),
                data@.len() <= usize::MAX,
                chunk_refs@.len() == i,
                forall|j: int| 0 <= j < i ==> #[trigger] chunk_refs@[j].hash@ == sha256(ps[j]) && chunk_refs@[j].size == ps[j].len(),
            decreases chunks@.len() - i,
        {
            proof {
                assert(crate::chunking::chunk_datas(chunks@)[i as int] == chunks@[i as int].data_view());
            }
            chunk_refs.push(chunks[i].reference());
            i = i + 1;
        }
        proof {
            assert(chunk_views(chunks@) =~= data_chunks(data@)) by {
                assert forall|j: int| 0 <= j < chunks@.len() implies chunk_views(chunks@)[j] == data_chunks(data@)[j] by {
                    assert(crate::chunking::chunk_datas(chunks@)[j] == chunks@[j].data_view());
                }
            }
        }
        let ghost c0 = self.storage.contents();
        match self.storage.try_pin(chunks) {
            Ok(()) => {},
            Err(e) => {
                return Err(FileSystemError::from(e));
            },
        }
        proof {
            lemma_pin_all_addressed(c0, data_chunks(data@));
        }
        let new_meta = NodeMeta::RegularFile { name, size: data.len() as u64, chunk_refs };
        let parent_id = match self.tree.parent_id(node_id) {
            Some(parent) => parent,
            None => {
                proof {
                    assert(false);
                }
                return Err(FileSystemError::NotFound);
            },
        };
        let operation = match self.tree.move_node(node_id, parent_id, new_meta) {
            Ok(op) => op,
            Err(e) => {
                proof {
                    assert(false);
                }
                return Err(FileSystemError::from(e));
            },
        };
        let mut operations: Vec<NodeOperation> = Vec::new();
        operations.push(operation);
        proof {
            assert(op_views(operations@)[0] == operation@);
        }
        Ok(TreeMutation::new((), operations))
    }

    /// Sets the size of a regular file: its references are cut to the
    /// first `size` bytes.
    pub fn truncate_file(&mut self, node_id: NodeId, size: u64) -> (r: Result<TreeMutation<()>, FileSystemError>)
        requires
            old(self).wf(),
        ensures
            final(self).wf(),
            final(self).storage() == old(self).storage(),
            match r {
                Ok(m) => {
                    &&& meta_of(old(self).nodes(), node_id.id) matches Some(MetaView::RegularFile { name, chunk_refs, .. })
                    &&& m.operations().len() == 1
                    &&& m.operations()[0].child == node_id.id
                    &&& m.operations()[0].parent == old(self).nodes()[node_id.id].0
                    &&& m.operations()[0].meta == (MetaView::RegularFile { name, size, chunk_refs: truncated(chunk_refs, size) })
                    &&& local_step(old(self).tree(), final(self).tree(), m.operations()[0])
                    &&& truncated_file(*old(self), *final(self), node_id.id, size, m.operations())
                },
                Err(e) => {
                    &&& (e is NotFound || e is IsADirectory)
                    &&& *final(self) == *old(self)
                    &&& (e is NotFound <==> meta_of(old(self).nodes(), node_id.id) is None)
                    &&& (e is IsADirectory <==> (meta_of(old(self).nodes(), node_id.id) is Some && !(meta_of(old(self).nodes(), node_id.id) matches Some(MetaView::RegularFile { .. }))))
                },
            },
    {
        let meta = self.metadata(node_id)?;
        let (name, chunk_refs) = match meta {
            NodeMeta::RegularFile { name, chunk_refs, .. } => (name, chunk_refs),
            _ => {
                return Err(FileSystemError::IsADirectory);
            },
        };
        let new_refs = truncate(chunk_refs.as_slice(), size);
        let new_meta = NodeMeta::RegularFile { name, size, chunk_refs: new_refs };
        let parent_id = match self.tree.parent_id(node_id) {
            Some(parent) => parent,
            None => {
                proof {
                    assert(false);
                }
                return Err(FileSystemError::NotFound);
            },
        };
        let operation = match self.tree.move_node(node_id, parent_id, new_meta) {
            Ok(op) => op,
            Err(e) => {
                proof {
                    assert(false);
                }
                return Err(FileSystemError::from(e));
            },
        };
        let mut operations: Vec<NodeOperation> = Vec::new();
        operations.push(operation);
        proof {
            assert(op_views(operations@)[0] == operation@);
        }
        Ok(TreeMutation::new((), operations))
    }

    /// Moves the node `name` of `parent_id` to `new_name` in
    /// `new_parent_id`; refused when another node already has the new
    /// name there. Renaming a node to itself changes nothing.
    pub fn rename(&mut self, parent_id: NodeId, name: &str, new_parent_id: NodeId, new_name: &str) -> (r: Result<TreeMutation<()>, FileSystemError>)
        requires
            old(self).wf(),
        ensures
            final(self).wf(),
            final(self).storage() == old(self).storage(),
            !lookup_succeeds(old(self).nodes(), parent_id.id, name@) ==> r matches Err(FileSystemError::NotFound),
            match r {
                Ok(m) => exists|c: u128| {
                    &&& #[trigger] is_child_named(old(self).nodes(), parent_id.id, name@, c)
                    &&& (!lookup_succeeds(old(self).nodes(), new_parent_id.id, new_name@) || is_child_named(old(self).nodes(), new_parent_id.id, new_name@, c))
                    &&& if new_parent_id.id == parent_id.id && new_name@ == name@ {
                        &&& m.operations().len() == 0
                        &&& *final(self) == *old(self)
                    } else {
                        &&& meta_of(old(self).nodes(), c) is Some
                        &&& m.operations().len() == 1
                        &&& m.operations()[0].child == c
                        &&& m.operations()[0].parent == new_parent_id.id
                        &&& m.operations()[0].meta == renamed(meta_of(old(self).nodes(), c).unwrap(), new_name@)
                        &&& local_step(old(self).tree(), final(self).tree(), m.operations()[0])
                    }
                },
                Err(e) => {
                    &&& *final(self) == *old(self)
                    &&& e is NotFound ==> !lookup_succeeds(old(self).nodes(), parent_id.id, name@) || exists|c: u128|
                        #[trigger] is_child_named(old(self).nodes(), parent_id.id, name@, c) && meta_of(old(self).nodes(), c) is None
                    &&& e is AlreadyExists ==> exists|c: u128, d: u128|
                        #[trigger] is_child_named(old(self).nodes(), parent_id.id, name@, c) && #[trigger] is_child_named(old(self).nodes(), new_parent_id.id, new_name@, d) && c != d
                    &&& (e is NotFound || e is AlreadyExists)
                },
            },
    {
        let node_id = self.child_id(parent_id, name)?;
        match self.child_id(new_parent_id, new_name) {
            Ok(existing) => {
                if existing.id != node_id.id {
                    return Err(FileSystemError::AlreadyExists);
                }
            },
            Err(_) => {},
        }
        proof {
            assert(is_child_named(old(self).nodes(), parent_id.id, name@, node_id.id));
            assert(!lookup_succeeds(old(self).nodes(), new_parent_id.id, new_name@) || is_child_named(old(self).nodes(), new_parent_id.id, new_name@, node_id.id));
        }
        if new_parent_id.id == parent_id.id && same_text(new_name, name) {
            return Ok(TreeMutation::new((), Vec::new()));
        }
        let meta = self.metadata(node_id)?;
        let new_meta = match meta {
            NodeMeta::Directory { .. } => NodeMeta::Directory { name: new_name.to_owned() },
            NodeMeta::RegularFile { size, chunk_refs, .. } => NodeMeta::RegularFile { name: new_name.to_owned(), size, chunk_refs },
            NodeMeta::Symlink { target, .. } => NodeMeta::Symlink { name: new_name.to_owned(), target },
        };
        let operation = match self.tree.move_node(node_id, new_parent_id, new_meta) {
            Ok(op) => op,
            Err(e) => {
                proof {
                    assert(false);
                }
                return Err(FileSystemError::from(e));
            },
        };
        let mut operations: Vec<NodeOperation> = Vec::new();
        operations.push(operation);
        proof {
            assert(op_views(operations@)[0] == operation@);
        }
        Ok(TreeMutation::new((), operations))
    }

    /// Pins a chunk holding the data.
    pub fn pin_chunk(&mut self, data: Vec<u8>) -> (r: Result<(), FileSystemError>)
        requires
            old(self).wf(),
        ensures
            final(self).wf(),
            final(self).tree() == old(self).tree(),
            final(self).storage().capacity() == old(self).storage().capacity(),
            ({
                let c = seq![(sha256(data@), data@)];
                &&& (r is Ok <==> old(self).storage().pinned_bytes() + pin_cost(old(self).storage().contents(), c) <= old(self).storage().capacity())
                &&& (r is Ok ==> final(self).storage().contents() == pin_all(old(self).storage().contents(), c))
                &&& (r is Err ==> (r matches Err(FileSystemError::StorageFull)) && *final(self) == *old(self))
            }),
    {
        let chunk = Chunk::new(data);
        let mut chunks: Vec<Chunk> = Vec::new();
        chunks.push(chunk);
        proof {
            assert(chunk_views(chunks@) =~= seq![(sha256(data@), data@)]);
        }
        match self.storage.try_pin(chunks) {
            Ok(()) => Ok(()),
            Err(e) => Err(FileSystemError::from(e)),
        }
    }

    /// Keeps a cached copy of a chunk holding the data.
    pub fn cache_chunk(&mut self, data: Vec<u8>)
        requires
            old(self).wf(),
        ensures
            final(self).wf(),
            cache_effect(*old(self), *final(self), data@),
            final(self).tree() == old(self).tree(),
            crate::storage::cache_step(old(self).storage(), final(self).storage(), sha256(data@), data@),
    {
        let chunk = Chunk::new(data);
        let (hash, bytes) = chunk.into_parts();
        self.storage.cache(hash, bytes);
        proof {
            let old_s = old(self).storage();
            let new_s = self.storage();
            if !(old_s.contents().contains_key(sha256(data@)) || data@.len() > old_s.cache_limit()) {
                let n = choose|n: int| {
                    &&& 0 <= n <= old_s.lru().len()
                    &&& forall|j: int| 0 <= j < n ==> old_s.cached_bytes() - #[trigger] crate::storage::freed(old_s.contents(), old_s.lru(), j) + data@.len() > old_s.cache_limit()
                    &&& old_s.cached_bytes() - crate::storage::freed(old_s.contents(), old_s.lru(), n) + data@.len() <= old_s.cache_limit()
                    &&& new_s.contents() == old_s.contents().remove_keys(old_s.lru().take(n).to_set()).insert(hash@, (bytes@, false))
                    &&& new_s.lru() == old_s.lru().skip(n).push(hash@)
                    &&& new_s.cached_bytes() == old_s.cached_bytes() - crate::storage::freed(old_s.contents(), old_s.lru(), n) + data@.len()
                };
                old_s.lemma_wf_laws();
                assert forall|h: Seq<u8>| #[trigger] old_s.contents().contains_key(h) && old_s.contents()[h].1 implies new_s.contents().contains_key(h) by {
                    if old_s.lru().take(n).to_set().contains(h) {
                        assert(old_s.lru().take(n).contains(h));
                        let q = choose|q: int| 0 <= q < n && old_s.lru().take(n)[q] == h;
                        assert(old_s.lru().contains(old_s.lru()[q]));
                    }
                }
            }
        }
    }

    /// Whether a chunk with this address is stored and pinned.
    pub fn is_pinned(&self, hash: &ChunkHash) -> (r: bool)
        requires
            self.wf(),
        ensures
            r == (self.storage().contents().contains_key(hash@) && self.storage().contents()[hash@].1),
    {
        self.storage.is_pinned(hash)
    }

    /// Whether a chunk with this address is stored and only cached.
    pub fn is_cached(&self, hash: &ChunkHash) -> (r: bool)
        requires
            self.wf(),
        ensures
            r == (self.storage().contents().contains_key(hash@) && !self.storage().contents()[hash@].1),
    {
        self.storage.is_cached(hash)
    }

    /// The addresses of the pinned chunks, each once.
    pub fn pinned_hashes(&self) -> (r: Vec<ChunkHash>)
        requires
            self.wf(),
        ensures
            crate::storage::hash_views(r@).no_duplicates(),
            forall|h: Seq<u8>| #![trigger crate::storage::hash_views(r@).contains(h)] crate::storage::hash_views(r@).contains(h) <==> (self.storage().contents().contains_key(h) && self.storage().contents()[h].1),
    {
        self.storage.pinned_hashes()
    }

    /// Pins the cached chunk with this address if there is room; says
    /// whether it is pinned afterwards.
    pub fn promote_to_pinned(&mut self, hash: &ChunkHash) -> (r: bool)
        requires
            old(self).wf(),
        ensures
            final(self).wf(),
            final(self).tree() == old(self).tree(),
            final(self).storage().capacity() == old(self).storage().capacity(),
            r == (old(self).storage().contents().contains_key(hash@) && (old(self).storage().contents()[hash@].1
                || old(self).storage().pinned_bytes() + old(self).storage().contents()[hash@].0.len() <= old(self).storage().capacity())),
            r ==> final(self).storage().contents() == old(self).storage().contents().insert(hash@, (old(self).storage().contents()[hash@].0, true)),
            !r ==> final(self).storage().contents() == old(self).storage().contents(),
    {
        let r = self.storage.promote_to_pinned(hash);
        proof {
            if r && old(self).storage().contents()[hash@].1 {
                assert(old(self).storage().contents().insert(hash@, (old(self).storage().contents()[hash@].0, true)) =~= old(self).storage().contents());
            }
        }
        r
    }

    /// Drops the chunk with this address; says whether one was stored.
    pub fn evict_chunk(&mut self, hash: &ChunkHash) -> (r: bool)
        requires
            old(self).wf(),
        ensures
            final(self).wf(),
            final(self).tree() == old(self).tree(),
            final(self).storage().capacity() == old(self).storage().capacity(),
            r == old(self).storage().contents().contains_key(hash@),
            final(self).storage().contents() == old(self).storage().contents().remove(hash@),
    {
        self.storage.evict(hash)
    }

    /// Merges operations received from other peers into the tree.
    pub fn apply_operations(&mut self, operations: Vec<NodeOperation>)
        requires
            old(self).wf(),
        ensures
            final(self).wf(),
            final(self).storage() == old(self).storage(),
            final(self).tree().peer() == old(self).tree().peer(),
            forall|i: int| 0 <= i < operations@.len() ==> #[trigger] crate::tree::timestamp_taken(final(self).tree().log(), operations@[i]@),
            forall|x: OpView| old(self).tree().log().contains(x) ==> #[trigger] final(self).tree().log().contains(x),
            crate::tree::merges(old(self).tree().log(), op_views(operations@), final(self).tree().log()),
            (forall|i: int| 0 <= i < operations@.len() ==> #[trigger] crate::tree::timestamp_taken(old(self).tree().log(), operations@[i]@))
                ==> final(self).tree().nodes() == old(self).tree().nodes() && final(self).tree().log() == old(self).tree().log(),
    {
        self.tree.apply_operations(operations);
    }

    /// The id of every logged operation, newest first.
    pub fn operation_ids(&self) -> (r: Vec<(PeerKey, u64)>)
        ensures
            r@.len() == self.tree().log().len(),
            forall|i: int| 0 <= i < r@.len() ==> #[trigger] crate::tree::id_view(r@[i]) == crate::tree::op_id(self.tree().log()[i]),
    {
        self.tree.operation_ids()
    }

    /// The logged operations, newest first, whose ids are not among `ids`.
    pub fn operations_missing_from(&self, ids: &Vec<(PeerKey, u64)>) -> (r: Vec<NodeOperation>)
        ensures
            op_views(r@) == self.tree().log().filter(crate::tree::not_listed(ids@.map_values(|id: (PeerKey, u64)| crate::tree::id_view(id)))),
    {
        self.tree.operations_missing_from(ids)
    }

    /// Reads up to `length` bytes from `offset` of a regular file. Each
    /// chunk gives its stored bytes, or zeros when it is not stored;
    /// cached chunks that are read become the most recently used.
    pub fn read_file(&mut self, node_id: NodeId, offset: u64, length: u64) -> (r: Result<Vec<u8>, FileSystemError>)
        requires
            old(self).wf(),
        ensures
            final(self).wf(),
            final(self).tree() == old(self).tree(),
            final(self).storage().contents() == old(self).storage().contents(),
            final(self).storage().capacity() == old(self).storage().capacity(),
            final(self).storage().pinned_bytes() == old(self).storage().pinned_bytes(),
            final(self).storage().cached_bytes() == old(self).storage().cached_bytes(),
            match r {
                Ok(data) => meta_of(old(self).nodes(), node_id.id) matches Some(MetaView::RegularFile { size, chunk_refs, .. }) && {
                    &&& data@ == read_span(old(self).storage().contents(), chunk_refs, offset as int, read_end(offset, length, size))
                    &&& final(self).storage().lru() == touch_all(old(self).storage().lru(), old(self).storage().contents(), read_touches(chunk_refs, offset as int, read_end(offset, length, size)))
                },
                Err(e) => {
                    &&& (e is NotFound || e is IsADirectory)
                    &&& *final(self) == *old(self)
                    &&& (e is NotFound <==> meta_of(old(self).nodes(), node_id.id) is None)
                    &&& (e is IsADirectory <==> (meta_of(old(self).nodes(), node_id.id) is Some && !(meta_of(old(self).nodes(), node_id.id) matches Some(MetaView::RegularFile { .. }))))
                },
            },
    {
        let meta = self.metadata(node_id)?;
        let (size, chunk_refs) = match meta {
            NodeMeta::RegularFile { size, chunk_refs, .. } => (size, chunk_refs),
            _ => {
                return Err(FileSystemError::IsADirectory);
            },
        };
        let ghost contents = self.storage.contents();
        let ghost lru0 = self.storage.lru();
        let ghost refs = chunk_refs@;
        let sum_end = offset.saturating_add(length);
        let end = if sum_end < size { sum_end } else { size };
        proof {
            assert(end == read_end(offset, length, size));
        }
        let mut output: Vec<u8> = Vec::new();
        if offset >= end {
            proof {
                lemma_read_empty(contents, refs, offset as int, end as int);
                assert(read_touches(refs, offset as int, end as int) =~= Seq::<Seq<u8>>::empty()) by {
                    if refs.len() > 0 {}
                }
                assert(touch_all(lru0, contents, Seq::<Seq<u8>>::empty()) == lru0);
            }
            return Ok(output);
        }
        let mut chunk_start: u64 = 0;
        let mut i: usize = 0;
        let mut done = false;
        proof {
            assert(refs.take(0) =~= Seq::<ChunkRef>::empty());
            assert(total_size(refs.take(0)) == 0);
        }
        while i < chunk_refs.len() && !done
            invariant
                self.wf(),
                self.tree == old(self).tree,
                self.storage.contents() == contents,
                self.storage.capacity() == old(self).storage().capacity(),
                self.storage.pinned_bytes() == old(self).storage().pinned_bytes(),
                self.storage.cached_bytes() == old(self).storage().cached_bytes(),
                contents == old(self).storage().contents(),
                lru0 == old(self).storage().lru(),
                refs == chunk_refs@,
                offset < end,
                0 <= i <= refs.len(),
                done ==> (i == refs.len() || total_size(refs.take(i as int)) >= end),
                !done ==> chunk_start == total_size(refs.take(i as int)),
                output@ == read_span(contents, refs.take(i as int), offset as int, end as int),
                self.storage.lru() == touch_all(lru0, contents, read_touches(refs.take(i as int), offset as int, end as int)),
            decreases refs.len() - i, if done { 0int } else { 1int },
        {
            let chunk_ref = chunk_refs[i];
            let ghost pre = refs.take(i as int);
            proof {
                assert(refs.take(i + 1).drop_last() =~= pre);
                assert(refs.take(i + 1).last() == chunk_ref);
                lemma_total_size_push(pre, chunk_ref);
                assert(refs.take(i + 1) =~= pre.push(chunk_ref));
                lemma_total_size_nonneg(pre);
            }
            let (chunk_end, overflow) = match chunk_start.checked_add(chunk_ref.size) {
                Some(e) => (e, false),
                None => (u64::MAX, true),
            };
            if !overflow && chunk_end <= offset {
                proof {
                    assert(segment(contents, chunk_ref, chunk_start as int, offset as int, end as int) =~= Seq::<u8>::empty());
                    assert(read_span(contents, refs.take(i + 1), offset as int, end as int) =~= output@);
                    assert(read_touches(refs.take(i + 1), offset as int, end as int) =~= read_touches(pre, offset as int, end as int));
                }
                chunk_start = chunk_end;
                i = i + 1;
            } else if chunk_start >= end {
                done = true;
            } else {
                let ghost lru_before = self.storage.lru();
                let data_opt = self.storage.get(&chunk_ref.hash);
                let start_in_chunk: u64 = if offset > chunk_start { offset - chunk_start } else { 0 };
                let until_end: u64 = end - chunk_start;
                let end_in_chunk: u64 = if until_end < chunk_ref.size { until_end } else { chunk_ref.size };
                let ghost seg = segment(contents, chunk_ref, chunk_start as int, offset as int, end as int);
                let ghost out0 = output@;
                match data_opt {
                    Some(data) => {
                        let available: u64 = if end_in_chunk < data.len() as u64 { end_in_chunk } else { data.len() as u64 };
                        if start_in_chunk < available {
                            let piece = vstd::slice::slice_subrange(data.as_slice(), start_in_chunk as usize, available as usize);
                            output.extend_from_slice(piece);
                        }
                        proof {
                            assert(chunk_bytes(contents, chunk_ref) == data@);
                            if start_in_chunk < available {
                                assert(output@ =~= out0 + seg);
                            } else {
                                assert(seg =~= Seq::<u8>::empty());
                                assert(output@ =~= out0 + seg);
                            }
                        }
                    },
                    None => {
                        let available: u64 = end_in_chunk;
                        if start_in_chunk < available {
                            let count = available - start_in_chunk;
                            let mut k: u64 = 0;
                            while k < count
                                invariant
                                    0 <= k <= count,
                                    output@ == out0 + zeros(k as nat),
                                decreases count - k,
                            {
                                output.push(0u8);
                                k = k + 1;
                                proof {
                                    assert(output@ =~= out0 + zeros(k as nat));
                                }
                            }
                        }
                        proof {
                            assert(chunk_bytes(contents, chunk_ref) == zeros(chunk_ref.size as nat));
                            if start_in_chunk < available {
                                assert(seg =~= zeros((available - start_in_chunk) as nat));
                            } else {
                                assert(seg =~= Seq::<u8>::empty());
                            }
                            assert(output@ =~= out0 + seg);
                        }
                    },
                }
                proof {
                    assert(read_span(contents, refs.take(i + 1), offset as int, end as int) == out0 + seg);
                    assert(read_touches(refs.take(i + 1), offset as int, end as int) =~= read_touches(pre, offset as int, end as int).push(chunk_ref.hash@));
                    let t = read_touches(pre, offset as int, end as int);
                    assert(t.push(chunk_ref.hash@).drop_last() =~= t);
                    assert(touch_all(lru0, contents, t.push(chunk_ref.hash@)) == touch(touch_all(lru0, contents, t), contents, chunk_ref.hash@));
                    assert(self.storage.lru() == touch(lru_before, contents, chunk_ref.hash@));
                }
                if overflow {
                    done = true;
                    i = i + 1;
                    proof {
                        if i < refs.len() {
                            assert(total_size(refs.take(i as int)) > u64::MAX);
                        }
                    }
                } else {
                    chunk_start = chunk_end;
                    i = i + 1;
                }
            }
        }
        proof {
            lemma_read_tail(contents, refs, i as int, offset as int, end as int);
        }
        Ok(output)
    }

    /// Reads a whole regular file.
    pub fn read_file_all(&mut self, node_id: NodeId) -> (r: Result<Vec<u8>, FileSystemError>)
        requires
            old(self).wf(),
        ensures
            final(self).wf(),
            final(self).tree() == old(self).tree(),
            final(self).storage().contents() == old(self).storage().contents(),
            final(self).storage().capacity() == old(self).storage().capacity(),
            final(self).storage().pinned_bytes() == old(self).storage().pinned_bytes(),
            final(self).storage().cached_bytes() == old(self).storage().cached_bytes(),
            match r {
                Ok(data) => meta_of(old(self).nodes(), node_id.id) matches Some(MetaView::RegularFile { size, chunk_refs, .. }) && {
                    &&& data@ == read_span(old(self).storage().contents(), chunk_refs, 0, size as int)
                    &&& final(self).storage().lru() == touch_all(old(self).storage().lru(), old(self).storage().contents(), read_touches(chunk_refs, 0, size as int))
                },
                Err(e) => {
                    &&& (e is NotFound || e is IsADirectory)
                    &&& *final(self) == *old(self)
                    &&& (e is NotFound <==> meta_of(old(self).nodes(), node_id.id) is None)
                    &&& (e is IsADirectory <==> (meta_of(old(self).nodes(), node_id.id) is Some && !(meta_of(old(self).nodes(), node_id.id) matches Some(MetaView::RegularFile { .. }))))
                },
            },
    {
        let meta = self.metadata(node_id)?;
        let size = match meta {
            NodeMeta::RegularFile { size, .. } => size,
            _ => {
                return Err(FileSystemError::IsADirectory);
            },
        };
        proof {
            assert(read_end(0, size, size) == size);
        }
        self.read_file(node_id, 0, size)
    }

    /// The addresses of the chunks that a read of up to `length` bytes from
    /// `offset` of a regular file needs and that are not stored, in order.
    pub fn missing_chunk_hashes_for(&self, node_id: NodeId, offset: u64, length: u64) -> (r: Result<Vec<ChunkHash>, FileSystemError>)
        requires
            self.wf(),
        ensures
            match r {
                Ok(hashes) => meta_of(self.nodes(), node_id.id) matches Some(MetaView::RegularFile { size, chunk_refs, .. })
                    && crate::storage::hash_views(hashes@) == missing_span(self.storage().contents(), chunk_refs, offset as int, read_end(offset, length, size)),
                Err(e) => {
                    &&& (e is NotFound || e is IsADirectory)
                    &&& (e is NotFound <==> meta_of(self.nodes(), node_id.id) is None)
                    &&& (e is IsADirectory <==> (meta_of(self.nodes(), node_id.id) is Some && !(meta_of(self.nodes(), node_id.id) matches Some(MetaView::RegularFile { .. }))))
                },
            },
    {
        let meta = self.metadata(node_id)?;
        let (size, chunk_refs) = match meta {
            NodeMeta::RegularFile { size, chunk_refs, .. } => (size, chunk_refs),
            _ => {
                return Err(FileSystemError::IsADirectory);
            },
        };
        let ghost contents = self.storage.contents();
        let ghost refs = chunk_refs@;
        let sum_end = offset.saturating_add(length);
        let end = if sum_end < size { sum_end } else { size };
        proof {
            assert(end == read_end(offset, length, size));
        }
        let mut missing: Vec<ChunkHash> = Vec::new();
        let mut chunk_start: u64 = 0;
        let mut i: usize = 0;
        let mut done = false;
        proof {
            assert(refs.take(0) =~= Seq::<ChunkRef>::empty());
            assert(total_size(refs.take(0)) == 0);
            assert(crate::storage::hash_views(missing@) =~= Seq::<Seq<u8>>::empty());
        }
        while i < chunk_refs.len() && !done
            invariant
                self.wf(),
                contents == self.storage().contents(),
                refs == chunk_refs@,
                0 <= i <= refs.len(),
                done ==> (i == refs.len() || total_size(refs.take(i as int)) >= end),
                !done ==> chunk_start == total_size(refs.take(i as int)),
                crate::storage::hash_views(missing@) == missing_span(contents, refs.take(i as int), offset as int, end as int),
            decreases refs.len() - i, if done { 0int } else { 1int },
        {
            let chunk_ref = chunk_refs[i];
            let ghost pre = refs.take(i as int);
            let ghost m0 = missing@;
            proof {
                assert(refs.take(i + 1).drop_last() =~= pre);
                assert(refs.take(i + 1).last() == chunk_ref);
                lemma_total_size_push(pre, chunk_ref);
                assert(refs.take(i + 1) =~= pre.push(chunk_ref));
                lemma_total_size_nonneg(pre);
            }
            let (chunk_end, overflow) = match chunk_start.checked_add(chunk_ref.size) {
                Some(e) => (e, false),
                None => (u64::MAX, true),
            };
            let wanted = chunk_start < end && (overflow || chunk_end > offset);
            if wanted && !self.storage.contains(&chunk_ref.hash) {
                missing.push(chunk_ref.hash);
            }
            proof {
                assert(crate::storage::hash_views(missing@) =~= missing_span(contents, refs.take(i + 1), offset as int, end as int));
            }
            i = i + 1;
            if overflow {
                done = true;
                proof {
                    if i < refs.len() {
                        assert(total_size(refs.take(i as int)) > u64::MAX);
                    }
                }
            } else {
                chunk_start = chunk_end;
                if chunk_start >= end {
                    done = true;
                }
            }
        }
        proof {
            lemma_read_tail(contents, refs, i as int, offset as int, end as int);
        }
        Ok(missing)
    }
}


/// `d` is the root, or a directory whose parent is such a directory, at
/// most `k` steps below the root; the trash and what lies in it are not.
pub open spec fn live_dir(nodes: Map<u128, (u128, MetaView)>, d: u128, k: nat) -> bool
    decreases k,
{
    if d == 0 {
        true
    } else if k == 0 {
        false
    } else {
        &&& nodes.contains_key(d)
        &&& d != u128::MAX
        &&& nodes[d].1 is Directory
        &&& live_dir(nodes, nodes[d].0, (k - 1) as nat)
    }
}

/// `d` is a directory reachable from the root.
pub open spec fn is_live_dir(nodes: Map<u128, (u128, MetaView)>, d: u128) -> bool {
    exists|k: nat| #[trigger] live_dir(nodes, d, k)
}

/// `c` is an ordinary child of `d`: neither the root nor the trash.
pub open spec fn child_of(nodes: Map<u128, (u128, MetaView)>, c: u128, d: u128) -> bool {
    &&& nodes.contains_key(c)
    &&& nodes[c].0 == d
    &&& c != 0
    &&& c != u128::MAX
}

/// `f` is a regular file in a directory reachable from the root.
pub open spec fn live_file(nodes: Map<u128, (u128, MetaView)>, f: u128) -> bool {
    &&& f != 0
    &&& f != u128::MAX
    &&& nodes.contains_key(f)
    &&& nodes[f].1 is RegularFile
    &&& is_live_dir(nodes, nodes[f].0)
}

/// The chunk references of a file; none for anything else.
pub open spec fn file_refs(meta: MetaView) -> Seq<ChunkRef> {
    match meta {
        MetaView::RegularFile { chunk_refs, .. } => chunk_refs,
        _ => Seq::empty(),
    }
}

/// Some file reachable from the root refers to the chunk with address `h`.
pub open spec fn reachable_hash(nodes: Map<u128, (u128, MetaView)>, h: Seq<u8>) -> bool {
    exists|f: u128, i: int| #![trigger live_file(nodes, f), file_refs(nodes[f].1)[i]]
        live_file(nodes, f) && 0 <= i < file_refs(nodes[f].1).len() && file_refs(nodes[f].1)[i].hash@ == h
}

/// The queue holds the node.
pub open spec fn queued(queue: Seq<NodeId>, c: u128) -> bool {
    exists|q: int| 0 <= q < queue.len() && #[trigger] queue[q].id == c
}

/// A child of a walked directory has been dealt with: it is marked seen,
/// queued if it is a directory, and its chunks are listed if it is a file.
pub open spec fn child_done(
    nodes: Map<u128, (u128, MetaView)>,
    queue: Seq<NodeId>,
    seen: Set<u128>,
    found: Seq<Seq<u8>>,
    c: u128,
) -> bool {
    &&& seen.contains(c)
    &&& (nodes[c].1 is Directory ==> queued(queue, c))
    &&& (nodes[c].1 is RegularFile ==> forall|i: int| 0 <= i < file_refs(nodes[c].1).len() ==> found.contains(#[trigger] file_refs(nodes[c].1)[i].hash@))
}

/// Adds the address to the list unless it is there already.
fn push_unique(found: &mut Vec<ChunkHash>, h: ChunkHash)
    requires
        crate::storage::hash_views(old(found)@).no_duplicates(),
    ensures
        crate::storage::hash_views(final(found)@).no_duplicates(),
        forall|x: Seq<u8>| #[trigger] crate::storage::hash_views(final(found)@).contains(x) <==> (crate::storage::hash_views(old(found)@).contains(x) || x == h@),
{
    let ghost v0 = crate::storage::hash_views(found@);
    let mut i: usize = 0;
    while i < found.len()
        invariant
            0 <= i <= found@.len(),
            v0 == crate::storage::hash_views(found@),
            v0 == crate::storage::hash_views(old(found)@),
            v0.no_duplicates(),
            forall|k: int| 0 <= k < i ==> found@[k]@ != h@,
        decreases found@.len() - i,
    {
        if found[i].same(&h) {
            proof {
                assert(v0[i as int] == h@);
                assert forall|x: Seq<u8>| #[trigger] v0.contains(x) <==> (v0.contains(x) || x == h@) by {
                    if x == h@ {
                        assert(v0[i as int] == x);
                    }
                }
            }
            return;
        }
        i = i + 1;
    }
    found.push(h);
    proof {
        let v1 = crate::storage::hash_views(found@);
        assert(v1 =~= v0.push(h@));
        assert(!v0.contains(h@)) by {
            if v0.contains(h@) {
                let k = choose|k: int| 0 <= k < v0.len() && v0[k] == h@;
                assert(found@[k]@ == h@);
            }
        }
        assert forall|x: Seq<u8>| #[trigger] v1.contains(x) <==> (v0.contains(x) || x == h@) by {
            if v1.contains(x) {
                let k = choose|k: int| 0 <= k < v1.len() && v1[k] == x;
                if k < v0.len() {
                    assert(v0[k] == x);
                }
            }
            if v0.contains(x) {
                let k = choose|k: int| 0 <= k < v0.len() && v0[k] == x;
                assert(v1[k] == x);
            }
            if x == h@ {
                assert(v1[v0.len() as int] == x);
            }
        }
    }
}

/// Adds the address of each referenced chunk to the list, each once.
fn push_refs(found: &mut Vec<ChunkHash>, refs: &Vec<ChunkRef>)
    requires
        crate::storage::hash_views(old(found)@).no_duplicates(),
    ensures
        crate::storage::hash_views(final(found)@).no_duplicates(),
        forall|x: Seq<u8>| #[trigger] crate::storage::hash_views(final(found)@).contains(x) <==> (crate::storage::hash_views(old(found)@).contains(x) || exists|i: int| 0 <= i < refs@.len() && #[trigger] refs@[i].hash@ == x),
{
    let ghost v0 = crate::storage::hash_views(found@);
    let mut j: usize = 0;
    while j < refs.len()
        invariant
            0 <= j <= refs@.len(),
            crate::storage::hash_views(found@).no_duplicates(),
            forall|x: Seq<u8>| #[trigger] crate::storage::hash_views(found@).contains(x) <==> (v0.contains(x) || exists|i: int| 0 <= i < j && #[trigger] refs@[i].hash@ == x),
        decreases refs@.len() - j,
    {
        let ghost before = crate::storage::hash_views(found@);
        push_unique(found, refs[j].hash);
        proof {
            assert forall|x: Seq<u8>| #[trigger] crate::storage::hash_views(found@).contains(x) <==> (v0.contains(x) || exists|i: int| 0 <= i < j + 1 && #[trigger] refs@[i].hash@ == x) by {
                if exists|i: int| 0 <= i < j + 1 && #[trigger] refs@[i].hash@ == x {
                    let i = choose|i: int| 0 <= i < j + 1 && #[trigger] refs@[i].hash@ == x;
                    if i < j {
                        assert(before.contains(x));
                    }
                }
                if before.contains(x) {
                    assert(v0.contains(x) || exists|i: int| 0 <= i < j && #[trigger] refs@[i].hash@ == x);
                }
            }
        }
        j = j + 1;
    }
}

/// A reachable directory other than the root is held by the tree.
proof fn lemma_live_dir_held(nodes: Map<u128, (u128, MetaView)>, d: u128)
    requires
        is_live_dir(nodes, d),
        d != 0,
    ensures
        nodes.contains_key(d),
        d != u128::MAX,
        nodes[d].1 is Directory,
        is_live_dir(nodes, nodes[d].0),
{
    let k = choose|k: nat| #[trigger] live_dir(nodes, d, k);
    assert(k > 0);
    assert(live_dir(nodes, nodes[d].0, (k - 1) as nat));
}

/// A directory child of a reachable directory is reachable.
proof fn lemma_live_dir_child(nodes: Map<u128, (u128, MetaView)>, c: u128, d: u128)
    requires
        is_live_dir(nodes, d),
        child_of(nodes, c, d),
        nodes[c].1 is Directory,
    ensures
        is_live_dir(nodes, c),
{
    let k = choose|k: nat| #[trigger] live_dir(nodes, d, k);
    assert(live_dir(nodes, c, k + 1));
}

/// A reachable directory is queued once every queued directory has had its
/// children dealt with.
proof fn lemma_live_dir_queued(
    nodes: Map<u128, (u128, MetaView)>,
    queue: Seq<NodeId>,
    seen: Set<u128>,
    found: Seq<Seq<u8>>,
    d: u128,
    k: nat,
)
    requires
        queue.len() >= 1,
        queue[0].id == 0,
        forall|q: int, c: u128| 0 <= q < queue.len() && #[trigger] child_of(nodes, c, queue[q].id) ==> child_done(nodes, queue, seen, found, c),
        live_dir(nodes, d, k),
    ensures
        queued(queue, d),
    decreases k,
{
    if d == 0 {
        assert(queue[0].id == d);
    } else {
        let p = nodes[d].0;
        lemma_live_dir_queued(nodes, queue, seen, found, p, (k - 1) as nat);
        let q = choose|q: int| 0 <= q < queue.len() && #[trigger] queue[q].id == p;
        assert(child_of(nodes, d, queue[q].id));
    }
}

impl FileSystem {
    /// The addresses of the chunks that the files reachable from the root
    /// refer to, each once; files in the trash do not count.
    pub fn reachable_chunk_hashes(&self) -> (r: Vec<ChunkHash>)
        requires
            self.wf(),
        ensures
            crate::storage::hash_views(r@).no_duplicates(),
            forall|h: Seq<u8>| #[trigger] crate::storage::hash_views(r@).contains(h) <==> reachable_hash(self.nodes(), h),
    {
        let ghost nodes = self.nodes();
        proof {
            self.tree.lemma_wf_acyclic();
        }
        let mut found: Vec<ChunkHash> = Vec::new();
        let mut seen: std::collections::HashSet<u128> = std::collections::HashSet::new();
        let mut queue: Vec<NodeId> = Vec::new();
        seen.insert(NodeId::root().id);
        queue.push(NodeId::root());
        let mut head: usize = 0;
        proof {
            assert(live_dir(nodes, 0, 0));
            assert(crate::storage::hash_views(found@) =~= Seq::<Seq<u8>>::empty());
            assert(seen@ =~= set![0u128]);
            assert(nodes.dom().insert(0).len() <= nodes.dom().len() + 1);
            vstd::set_lib::lemma_len_subset(seen@, nodes.dom().insert(0));
        }
        while head < queue.len()
            invariant
                self.wf(),
                nodes == self.nodes(),
                nodes.dom().finite(),
                0 <= head <= queue@.len(),
                queue@.len() >= 1,
                queue@[0].id == 0,
                queue@.len() <= seen@.len(),
                seen@.len() <= nodes.dom().len() + 1,
                seen@.subset_of(nodes.dom().insert(0)),
                forall|a: int, b: int| 0 <= a < queue@.len() && 0 <= b < queue@.len() && a != b ==> #[trigger] queue@[a].id != #[trigger] queue@[b].id,
                forall|q: int| 0 <= q < queue@.len() ==> is_live_dir(nodes, #[trigger] queue@[q].id) && seen@.contains(queue@[q].id),
                forall|v: u128| #[trigger] seen@.contains(v) ==> v == 0 || (child_of(nodes, v, nodes[v].0) && exists|q: int| 0 <= q < head && #[trigger] queue@[q].id == nodes[v].0),
                forall|q: int, c: u128| 0 <= q < head && #[trigger] child_of(nodes, c, queue@[q].id) ==> child_done(nodes, queue@, seen@, crate::storage::hash_views(found@), c),
                crate::storage::hash_views(found@).no_duplicates(),
                forall|h: Seq<u8>| #[trigger] crate::storage::hash_views(found@).contains(h) ==> reachable_hash(nodes, h),
            decreases nodes.dom().len() + 1 - head,
        {
            let d = queue[head];
            head = head + 1;
            let ids = match self.tree.children(d) {
                Ok(ids) => ids,
                Err(_) => {
                    proof {
                        lemma_live_dir_held(nodes, d.id);
                    }
                    Vec::new()
                },
            };
            proof {
                if d.id != 0 {
                    lemma_live_dir_held(nodes, d.id);
                }
            }
            let mut j: usize = 0;
            while j < ids.len()
                invariant
                    self.wf(),
                    nodes == self.nodes(),
                    nodes.dom().finite(),
                    d == queue@[head - 1],
                    1 <= head <= queue@.len(),
                    lists_children(nodes, d.id, ids@),
                    0 <= j <= ids@.len(),
                    queue@.len() >= 1,
                    queue@[0].id == 0,
                    queue@.len() <= seen@.len(),
                    seen@.len() <= nodes.dom().len() + 1,
                    seen@.subset_of(nodes.dom().insert(0)),
                    forall|a: int, b: int| 0 <= a < queue@.len() && 0 <= b < queue@.len() && a != b ==> #[trigger] queue@[a].id != #[trigger] queue@[b].id,
                    forall|q: int| 0 <= q < queue@.len() ==> is_live_dir(nodes, #[trigger] queue@[q].id) && seen@.contains(queue@[q].id),
                    forall|v: u128| #[trigger] seen@.contains(v) ==> v == 0 || (child_of(nodes, v, nodes[v].0) && (
                        (exists|q: int| 0 <= q < head - 1 && #[trigger] queue@[q].id == nodes[v].0)
                        || (exists|i: int| 0 <= i < j && #[trigger] ids@[i].id == v))),
                    forall|q: int, c: u128| 0 <= q < head - 1 && #[trigger] child_of(nodes, c, queue@[q].id) ==> child_done(nodes, queue@, seen@, crate::storage::hash_views(found@), c),
                    forall|i: int| 0 <= i < j && child_of(nodes, #[trigger] ids@[i].id, d.id) ==> child_done(nodes, queue@, seen@, crate::storage::hash_views(found@), ids@[i].id),
                    crate::storage::hash_views(found@).no_duplicates(),
                    forall|h: Seq<u8>| #[trigger] crate::storage::hash_views(found@).contains(h) ==> reachable_hash(nodes, h),
                decreases ids@.len() - j,
            {
                let child = ids[j];
                let ghost q0 = queue@;
                let ghost s0 = seen@;
                let ghost f0 = crate::storage::hash_views(found@);
                proof {
                    assert(nodes.contains_key(child.id) && nodes[child.id].0 == d.id);
                }
                if child.id == NodeId::trash().id || seen.contains(&child.id) {
                    proof {
                        if child.id != u128::MAX && child.id != 0 {
                            assert(s0.contains(child.id));
                            if exists|q: int| 0 <= q < head - 1 && #[trigger] queue@[q].id == nodes[child.id].0 {
                                let q = choose|q: int| 0 <= q < head - 1 && #[trigger] queue@[q].id == nodes[child.id].0;
                                assert(queue@[q].id == queue@[head - 1].id);
                            } else {
                                let i = choose|i: int| 0 <= i < j && #[trigger] ids@[i].id == child.id;
                                assert(ids@[i] != ids@[j as int]);
                            }
                        }
                    }
                } else {
                    seen.insert(child.id);
                    proof {
                        vstd::set_lib::lemma_len_subset(seen@, nodes.dom().insert(0));
                        assert(nodes.dom().insert(0).len() <= nodes.dom().len() + 1);
                    }
                    match self.tree.metadata(child) {
                        Some(NodeMeta::RegularFile { chunk_refs, .. }) => {
                            push_refs(&mut found, chunk_refs);
                            proof {
                                assert(live_file(nodes, child.id));
                                assert forall|h: Seq<u8>| #[trigger] crate::storage::hash_views(found@).contains(h) implies reachable_hash(nodes, h) by {
                                    if !f0.contains(h) {
                                        let i = choose|i: int| 0 <= i < chunk_refs@.len() && #[trigger] chunk_refs@[i].hash@ == h;
                                        assert(file_refs(nodes[child.id].1)[i] == chunk_refs@[i]);
                                    }
                                }
                                assert forall|i: int| 0 <= i < file_refs(nodes[child.id].1).len() implies crate::storage::hash_views(found@).contains(#[trigger] file_refs(nodes[child.id].1)[i].hash@) by {
                                    assert(chunk_refs@[i].hash@ == file_refs(nodes[child.id].1)[i].hash@);
                                }
                            }
                        },
                        Some(NodeMeta::Directory { .. }) => {
                            queue.push(child);
                            proof {
                                lemma_live_dir_child(nodes, child.id, d.id);
                                assert(queue@[queue@.len() - 1].id == child.id);
                            }
                        },
                        _ => {},
                    }
                }
                proof {
                    let f1 = crate::storage::hash_views(found@);
                    assert forall|x: Seq<u8>| f0.contains(x) implies f1.contains(x) by {}
                    assert forall|c: u128| q0.len() > 0 && queued(q0, c) implies queued(queue@, c) by {
                        let q = choose|q: int| 0 <= q < q0.len() && #[trigger] q0[q].id == c;
                        assert(queue@[q].id == c);
                    }
                    assert forall|q: int, c: u128| 0 <= q < head - 1 && #[trigger] child_of(nodes, c, queue@[q].id) implies child_done(nodes, queue@, seen@, f1, c) by {
                        assert(queue@[q] == q0[q]);
                        assert(child_done(nodes, q0, s0, f0, c));
                        if nodes[c].1 is Directory {
                            assert(queued(q0, c));
                        }
                        if nodes[c].1 is RegularFile {
                            assert forall|i: int| 0 <= i < file_refs(nodes[c].1).len() implies f1.contains(#[trigger] file_refs(nodes[c].1)[i].hash@) by {
                                assert(f0.contains(file_refs(nodes[c].1)[i].hash@));
                            }
                        }
                    }
                    assert forall|i: int| 0 <= i < j + 1 && child_of(nodes, #[trigger] ids@[i].id, d.id) implies child_done(nodes, queue@, seen@, f1, ids@[i].id) by {
                        if i < j {
                            let c = ids@[i].id;
                            assert(child_done(nodes, q0, s0, f0, c));
                            if nodes[c].1 is Directory {
                                assert(queued(q0, c));
                            }
                            if nodes[c].1 is RegularFile {
                                assert forall|k: int| 0 <= k < file_refs(nodes[c].1).len() implies f1.contains(#[trigger] file_refs(nodes[c].1)[k].hash@) by {
                                    assert(f0.contains(file_refs(nodes[c].1)[k].hash@));
                                }
                            }
                        }
                    }
                    assert forall|v: u128| #[trigger] seen@.contains(v) implies v == 0 || (child_of(nodes, v, nodes[v].0) && (
                        (exists|q: int| 0 <= q < head - 1 && #[trigger] queue@[q].id == nodes[v].0)
                        || (exists|i: int| 0 <= i < j + 1 && #[trigger] ids@[i].id == v))) by {
                        if v != 0 && v != child.id {
                            assert(s0.contains(v));
                            if exists|q: int| 0 <= q < head - 1 && #[trigger] q0[q].id == nodes[v].0 {
                                let q = choose|q: int| 0 <= q < head - 1 && #[trigger] q0[q].id == nodes[v].0;
                                assert(queue@[q].id == nodes[v].0);
                            } else {
                                let i = choose|i: int| 0 <= i < j && #[trigger] ids@[i].id == v;
                                assert(ids@[i].id == v);
                            }
                        } else if v == child.id && v != 0 {
                            assert(ids@[j as int].id == v);
                        }
                    }
                }
                j = j + 1;
            }
            proof {
                let f = crate::storage::hash_views(found@);
                assert forall|q: int, c: u128| 0 <= q < head && #[trigger] child_of(nodes, c, queue@[q].id) implies child_done(nodes, queue@, seen@, f, c) by {
                    if q == head - 1 {
                        let i = choose|i: int| 0 <= i < ids@.len() && #[trigger] ids@[i].id == c;
                        assert(child_of(nodes, ids@[i].id, d.id));
                    }
                }
                assert forall|v: u128| #[trigger] seen@.contains(v) implies v == 0 || (child_of(nodes, v, nodes[v].0) && exists|q: int| 0 <= q < head && #[trigger] queue@[q].id == nodes[v].0) by {
                    if v != 0 {
                        if exists|i: int| 0 <= i < ids@.len() && #[trigger] ids@[i].id == v {
                            let i = choose|i: int| 0 <= i < ids@.len() && #[trigger] ids@[i].id == v;
                            assert(queue@[head - 1].id == nodes[v].0);
                        } else {
                            let q = choose|q: int| 0 <= q < head - 1 && #[trigger] queue@[q].id == nodes[v].0;
                            assert(queue@[q].id == nodes[v].0);
                        }
                    }
                }
            }
        }
        proof {
            let f = crate::storage::hash_views(found@);
            assert forall|h: Seq<u8>| reachable_hash(nodes, h) implies #[trigger] f.contains(h) by {
                let (fl, i) = choose|fl: u128, i: int| #![trigger live_file(nodes, fl), file_refs(nodes[fl].1)[i]]
                    live_file(nodes, fl) && 0 <= i < file_refs(nodes[fl].1).len() && file_refs(nodes[fl].1)[i].hash@ == h;
                let p = nodes[fl].0;
                let k = choose|k: nat| #[trigger] live_dir(nodes, p, k);
                lemma_live_dir_queued(nodes, queue@, seen@, f, p, k);
                let q = choose|q: int| 0 <= q < queue@.len() && #[trigger] queue@[q].id == p;
                assert(child_of(nodes, fl, queue@[q].id));
                assert(child_done(nodes, queue@, seen@, f, fl));
            }
        }
        found
    }
}

} // verus!
