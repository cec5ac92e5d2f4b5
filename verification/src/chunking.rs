use vstd::prelude::*;

use crate::digest::sha256;
use crate::domain::{Chunk, ChunkRef};

verus! {

/// The total number of bytes that the references cover.
pub open spec fn total_size(refs: Seq<ChunkRef>) -> int
    decreases refs.len(),
{
    if refs.len() == 0 {
        0
    } else {
        refs[0].size + total_size(refs.drop_first())
    }
}

/// The references that cover the first `size` bytes: whole references
/// while they fit, then the one that crosses `size` cut down to it.
pub open spec fn truncated(refs: Seq<ChunkRef>, size: u64) -> Seq<ChunkRef>
    decreases refs.len(),
{
    if refs.len() == 0 || size == 0 {
        Seq::empty()
    } else if refs[0].size <= size {
        seq![refs[0]] + truncated(refs.drop_first(), (size - refs[0].size) as u64)
    } else {
        seq![ChunkRef { hash: refs[0].hash, size }]
    }
}

/// Truncation keeps exactly the first `size` bytes, or all of them when
/// there are fewer.
pub proof fn lemma_truncated_size(refs: Seq<ChunkRef>, size: u64)
    ensures
        total_size(truncated(refs, size)) == if total_size(refs) <= size {
            total_size(refs)
        } else {
            size as int
        },
        truncated(refs, size).len() <= refs.len(),
        forall|i: int|
            0 <= i < truncated(refs, size).len() ==> #[trigger] truncated(refs, size)[i].hash
                == refs[i].hash && truncated(refs, size)[i].size <= refs[i].size,
    decreases refs.len(),
{
    lemma_total_size_nonneg(refs);
    if refs.len() == 0 || size == 0 {
    } else if refs[0].size <= size {
        let rest = truncated(refs.drop_first(), (size - refs[0].size) as u64);
        lemma_truncated_size(refs.drop_first(), (size - refs[0].size) as u64);
        lemma_total_size_prepend(refs[0], rest);
        assert(truncated(refs, size) == seq![refs[0]] + rest);
        assert forall|i: int| 0 <= i < truncated(refs, size).len() implies #[trigger] truncated(
            refs,
            size,
        )[i].hash == refs[i].hash && truncated(refs, size)[i].size <= refs[i].size by {
            if i > 0 {
                assert(truncated(refs, size)[i] == rest[i - 1]);
                assert(refs.drop_first()[i - 1] == refs[i]);
            }
        }
    } else {
        let t = seq![ChunkRef { hash: refs[0].hash, size }];
        lemma_total_size_nonneg(refs.drop_first());
        assert(t.drop_first() =~= Seq::<ChunkRef>::empty());
        assert(total_size(t.drop_first()) == 0);
        assert(total_size(t) == size);
    }
}

/// Appending a reference adds its size.
pub proof fn lemma_total_size_push(refs: Seq<ChunkRef>, r: ChunkRef)
    ensures
        total_size(refs.push(r)) == total_size(refs) + r.size,
    decreases refs.len(),
{
    if refs.len() == 0 {
        assert(refs.push(r).drop_first() =~= Seq::<ChunkRef>::empty());
        assert(total_size(refs.push(r).drop_first()) == 0);
        assert(refs.push(r)[0] == r);
    } else {
        assert(refs.push(r)[0] == refs[0]);
        lemma_total_size_push(refs.drop_first(), r);
        assert(refs.push(r).drop_first() =~= refs.drop_first().push(r));
    }
}

/// A longer prefix covers at least as many bytes.
pub proof fn lemma_total_size_prefix(refs: Seq<ChunkRef>, i: int, j: int)
    requires
        0 <= i <= j <= refs.len(),
    ensures
        total_size(refs.take(i)) <= total_size(refs.take(j)),
    decreases j - i,
{
    if i < j {
        lemma_total_size_prefix(refs, i, j - 1);
        assert(refs.take(j) =~= refs.take(j - 1).push(refs[j - 1]));
        lemma_total_size_push(refs.take(j - 1), refs[j - 1]);
    }
}

pub proof fn lemma_total_size_nonneg(refs: Seq<ChunkRef>)
    ensures
        total_size(refs) >= 0,
    decreases refs.len(),
{
    if refs.len() > 0 {
        lemma_total_size_nonneg(refs.drop_first());
    }
}

pub proof fn lemma_total_size_prepend(r: ChunkRef, refs: Seq<ChunkRef>)
    ensures
        total_size(seq![r] + refs) == r.size + total_size(refs),
{
    assert((seq![r] + refs).drop_first() =~= refs);
}

/// The references that cover the first `new_size` bytes of a file made of
/// `chunk_refs`.
pub fn truncate(chunk_refs: &[ChunkRef], new_size: u64) -> (result: Vec<ChunkRef>)
    ensures
        result@ == truncated(chunk_refs@, new_size),
{
    let mut result: Vec<ChunkRef> = Vec::new();
    let mut remaining: u64 = new_size;
    let mut i: usize = 0;
    proof {
        assert(chunk_refs@.skip(0) =~= chunk_refs@);
    }
    while i < chunk_refs.len()
        invariant
            0 <= i <= chunk_refs@.len(),
            result@ + truncated(chunk_refs@.skip(i as int), remaining) == truncated(
                chunk_refs@,
                new_size,
            ),
        decreases chunk_refs@.len() - i,
    {
        let chunk_ref = chunk_refs[i];
        let ghost rest = chunk_refs@.skip(i as int);
        proof {
            assert(rest[0] == chunk_ref);
            assert(rest.drop_first() =~= chunk_refs@.skip(i + 1));
        }
        if remaining == 0 {
            proof {
                assert(result@ + Seq::<ChunkRef>::empty() =~= result@);
            }
            return result;
        }
        if chunk_ref.size <= remaining {
            result.push(chunk_ref);
            remaining = remaining - chunk_ref.size;
            proof {
                assert(result@ =~= result@.drop_last() + seq![chunk_ref]);
            }
        } else {
            result.push(ChunkRef { hash: chunk_ref.hash, size: remaining });
            proof {
                assert(result@ =~= result@.drop_last() + seq![
                    ChunkRef { hash: chunk_ref.hash, size: remaining },
                ]);
            }
            return result;
        }
        i = i + 1;
    }
    proof {
        assert(chunk_refs@.skip(i as int).len() == 0);
        assert(result@ + Seq::<ChunkRef>::empty() =~= result@);
    }
    result
}

/// The cut points, as (offset, length) pairs, that content-defined
/// chunking with the given minimum, average and maximum sizes finds in the
/// data.
pub uninterp spec fn cdc_cut_points(data: Seq<u8>, min_size: usize, avg_size: usize, max_size: usize) -> Seq<(usize, usize)>;

/// Pieces that lie end to end from offset zero, each non-empty, and
/// together cover `len` bytes.
#[verifier::opaque]
pub open spec fn tiles(cuts: Seq<(usize, usize)>, len: int) -> bool {
    &&& cuts.len() == 0 ==> len == 0
    &&& cuts.len() > 0 ==> {
        &&& cuts[0].0 == 0
        &&& cuts.last().0 + cuts.last().1 == len
        &&& forall|i: int| 0 <= i < cuts.len() ==> #[trigger] cuts[i].1 > 0
        &&& forall|i: int| 0 < i < cuts.len() ==> #[trigger] cuts[i].0 == cuts[i - 1].0 + cuts[i - 1].1
    }
}

/// Runs `fastcdc::v2020::FastCDC::new` over the data and collects the
/// offset and length of each chunk it yields.
///
/// Claimed: the pieces are the cut points of the data for these sizes,
/// and they lie end to end from offset zero and cover the whole data (the
/// iterator starts each chunk where the last one ended, yields non-empty
/// chunks, and stops when nothing remains).
#[verifier::external_body]
fn fastcdc_cuts(data: &[u8], min_size: usize, avg_size: usize, max_size: usize) -> (r: Vec<(usize, usize)>)
    requires
        64 <= min_size <= 1_048_576,
        256 <= avg_size <= 4_194_304,
        1024 <= max_size <= 16_777_216,
        min_size % 2 == 0,
        avg_size % 2 == 0,
        max_size % 2 == 0,
        min_size <= avg_size <= max_size,
    ensures
        r@ == cdc_cut_points(data@, min_size, avg_size, max_size),
        tiles(r@, data@.len() as int),
{
    fastcdc::v2020::FastCDC::new(data, min_size, avg_size, max_size).map(|c| (c.offset, c.length)).collect()
}

/// Smallest chunk that content-defined chunking cuts.
pub const CDC_MIN_CHUNK_SIZE: usize = 1024;
/// Chunk size that content-defined chunking aims at.
pub const CDC_AVG_CHUNK_SIZE: usize = 524288;
/// Largest chunk that content-defined chunking cuts.
pub const CDC_MAX_CHUNK_SIZE: usize = 1048576;

/// The bytes of each piece of a cut.
pub open spec fn pieces(data: Seq<u8>, cuts: Seq<(usize, usize)>) -> Seq<Seq<u8>> {
    cuts.map_values(|c: (usize, usize)| data.subrange(c.0 as int, c.0 + c.1))
}

/// The cut points of the data under the chunk sizes of this file system.
pub open spec fn file_cuts(data: Seq<u8>) -> Seq<(usize, usize)> {
    cdc_cut_points(data, CDC_MIN_CHUNK_SIZE, CDC_AVG_CHUNK_SIZE, CDC_MAX_CHUNK_SIZE)
}

/// Pieces that tile the data put back together give the data.
pub proof fn lemma_pieces_cover(data: Seq<u8>, cuts: Seq<(usize, usize)>)
    requires
        tiles(cuts, data.len() as int),
    ensures
        pieces(data, cuts).flatten_alt() == data,
{
    reveal(tiles);
    if cuts.len() > 0 {
        lemma_pieces_prefix(data, cuts, cuts.len() as int);
        assert(pieces(data, cuts).take(cuts.len() as int) =~= pieces(data, cuts));
        assert(data.subrange(0, data.len() as int) =~= data);
    } else {
        assert(data =~= Seq::<u8>::empty());
    }
}

proof fn lemma_pieces_prefix(data: Seq<u8>, cuts: Seq<(usize, usize)>, k: int)
    requires
        tiles(cuts, data.len() as int),
        cuts.len() > 0,
        0 < k <= cuts.len(),
    ensures
        cuts[k - 1].0 + cuts[k - 1].1 <= data.len(),
        pieces(data, cuts).take(k).flatten_alt() == data.subrange(0, cuts[k - 1].0 + cuts[k - 1].1),
    decreases k,
{
    reveal(tiles);
    lemma_cut_ends_bounded(cuts, data.len() as int, k - 1);
    let p = pieces(data, cuts).take(k);
    if k == 1 {
        assert(p.drop_last() =~= Seq::<Seq<u8>>::empty());
        assert(p.drop_last().flatten_alt() =~= Seq::<u8>::empty());
        assert(p.last() == data.subrange(0, cuts[0].0 + cuts[0].1));
        assert(p.flatten_alt() =~= data.subrange(0, cuts[0].0 + cuts[0].1));
    } else {
        lemma_pieces_prefix(data, cuts, k - 1);
        assert(p.drop_last() =~= pieces(data, cuts).take(k - 1));
        assert(cuts[k - 1].0 == cuts[k - 2].0 + cuts[k - 2].1);
        assert(p.flatten_alt() =~= data.subrange(0, cuts[k - 1].0 + cuts[k - 1].1));
    }
}

proof fn lemma_cut_ends_bounded(cuts: Seq<(usize, usize)>, len: int, i: int)
    requires
        tiles(cuts, len),
        0 <= i < cuts.len(),
    ensures
        0 <= cuts[i].0,
        cuts[i].0 + cuts[i].1 <= len,
        cuts[i].1 > 0,
    decreases cuts.len() - i,
{
    reveal(tiles);
    if i < cuts.len() - 1 {
        lemma_cut_ends_bounded(cuts, len, i + 1);
        let n = i + 1;
        assert(cuts[n].0 == cuts[n - 1].0 + cuts[n - 1].1);
    }
}

/// The data of each chunk, in order.
pub open spec fn chunk_datas(chunks: Seq<Chunk>) -> Seq<Seq<u8>> {
    chunks.map_values(|c: Chunk| c.data_view())
}

/// Splits the data into content-defined chunks, each addressed by its
/// digest.
pub fn split(data: &[u8]) -> (chunks: Vec<Chunk>)
    ensures
        chunk_datas(chunks@) == pieces(data@, file_cuts(data@)),
        tiles(file_cuts(data@), data@.len() as int),
        chunk_datas(chunks@).flatten_alt() == data@,
        forall|i: int| 0 <= i < chunks@.len() ==> #[trigger] chunks@[i].hash_view() == sha256(chunks@[i].data_view()),
        forall|i: int| 0 <= i < chunks@.len() ==> #[trigger] chunks@[i].data_view().len() > 0,
        forall|i: int| 0 <= i < chunks@.len() ==> #[trigger] chunks@[i].data_view().len() <= data@.len(),
{
    let cuts = fastcdc_cuts(data, CDC_MIN_CHUNK_SIZE, CDC_AVG_CHUNK_SIZE, CDC_MAX_CHUNK_SIZE);
    let mut chunks: Vec<Chunk> = Vec::new();
    let mut i: usize = 0;
    let data_len = data.len();
    while i < cuts.len()
        invariant
            data_len == data@.len(),
            cuts@ == file_cuts(data@),
            tiles(cuts@, data@.len() as int),
            0 <= i <= cuts@.len(),
            chunks@.len() == i,
            forall|j: int| 0 <= j < i ==> #[trigger] chunks@[j].data_view() == data@.subrange(cuts@[j].0 as int, cuts@[j].0 + cuts@[j].1),
            forall|j: int| 0 <= j < i ==> #[trigger] chunks@[j].hash_view() == sha256(chunks@[j].data_view()),
        decreases cuts@.len() - i,
    {
        let cut = cuts[i];
        let offset = cut.0;
        let length = cut.1;
        proof {
            assert(cut == cuts@[i as int]);
            lemma_cut_ends_bounded(cuts@, data@.len() as int, i as int);
        }
        let piece = vstd::slice::slice_subrange(data, offset, offset + length);
        let bytes = vstd::slice::slice_to_vec(piece);
        let chunk = Chunk::new(bytes);
        chunks.push(chunk);
        i = i + 1;
    }
    proof {
        assert(chunk_datas(chunks@) =~= pieces(data@, cuts@));
        lemma_pieces_cover(data@, cuts@);
        assert forall|j: int| 0 <= j < chunks@.len() implies #[trigger] chunks@[j].data_view().len() > 0 && chunks@[j].data_view().len() <= data@.len() by {
            lemma_cut_ends_bounded(cuts@, data@.len() as int, j);
        }
    }
    chunks
}

} // verus!
