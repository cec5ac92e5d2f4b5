use vstd::prelude::*;

use crate::digest::{sha256, sha256_digest};

verus! {

broadcast use vstd::array::group_array_axioms;

/// The identity of a node of the file tree.
#[derive(Clone, Copy, Debug, PartialEq, Eq, Hash, PartialOrd, Ord, Structural)]
pub struct NodeId {
    pub id: u128,
}

impl NodeId {
    pub open spec fn spec_root() -> NodeId {
        NodeId { id: 0 }
    }

    pub open spec fn spec_trash() -> NodeId {
        NodeId { id: u128::MAX }
    }

    /// The root directory.
    #[verifier::when_used_as_spec(spec_root)]
    pub fn root() -> (r: NodeId)
        ensures
            r == Self::spec_root(),
    {
        NodeId { id: 0 }
    }

    /// The parent of every deleted node.
    #[verifier::when_used_as_spec(spec_trash)]
    pub fn trash() -> (r: NodeId)
        ensures
            r == Self::spec_trash(),
    {
        NodeId { id: u128::MAX }
    }

    /// A node id from the 128 bits of its identifier.
    pub fn from_u128(id: u128) -> (r: NodeId)
        ensures
            r.id == id,
    {
        NodeId { id }
    }

    /// The 128 bits of the identifier.
    pub fn as_u128(self) -> (r: u128)
        ensures
            r == self.id,
    {
        self.id
    }

    pub open spec fn spec_is_reserved(self) -> bool {
        self.id == 0 || self.id == u128::MAX
    }

    /// Whether this is the root or the trash.
    #[verifier::when_used_as_spec(spec_is_reserved)]
    pub fn is_reserved(self) -> (r: bool)
        ensures
            r == self.spec_is_reserved(),
    {
        self.id == 0 || self.id == u128::MAX
    }
}

/// The SHA-256 digest that addresses a chunk.
#[derive(Clone, Copy, Debug, Eq, Hash)]
pub struct ChunkHash(pub [u8; 32]);

impl View for ChunkHash {
    type V = Seq<u8>;

    open spec fn view(&self) -> Seq<u8> {
        self.0@
    }
}

impl PartialEq for ChunkHash {
    fn eq(&self, other: &Self) -> (r: bool) {
        let mut i: usize = 0;
        while i < 32
            invariant
                0 <= i <= 32,
                forall|j: int| 0 <= j < i ==> self.0@[j] == other.0@[j],
            decreases 32 - i,
        {
            if self.0[i] != other.0[i] {
                return false;
            }
            i = i + 1;
        }
        proof {
            assert(self.0@ =~= other.0@);
        }
        true
    }
}

impl vstd::std_specs::cmp::PartialEqSpecImpl for ChunkHash {
    open spec fn obeys_eq_spec() -> bool {
        true
    }

    open spec fn eq_spec(&self, other: &Self) -> bool {
        self.0@ == other.0@
    }
}

impl ChunkHash {
    /// The hash with the given 32 bytes.
    pub fn from_bytes(bytes: [u8; 32]) -> (r: ChunkHash)
        ensures
            r@ == bytes@,
    {
        ChunkHash(bytes)
    }

    /// The 32 bytes of the hash.
    pub fn as_bytes(&self) -> (r: &[u8; 32])
        ensures
            r@ == self@,
    {
        &self.0
    }

    /// Whether two hashes hold the same bytes.
    pub fn same(&self, other: &ChunkHash) -> (r: bool)
        ensures
            r == (self@ == other@),
    {
        *self == *other
    }
}

/// A reference from a file to one of its chunks.
#[derive(Clone, Copy, Debug)]
pub struct ChunkRef {
    pub hash: ChunkHash,
    pub size: u64,
}

/// A chunk of file data together with the digest that addresses it.
pub struct Chunk {
    hash: ChunkHash,
    data: Vec<u8>,
}

impl Chunk {
    /// The address of the chunk.
    pub closed spec fn hash_view(&self) -> Seq<u8> {
        self.hash@
    }

    /// The bytes of the chunk.
    pub closed spec fn data_view(&self) -> Seq<u8> {
        self.data@
    }

    #[verifier::type_invariant]
    closed spec fn addressed(self) -> bool {
        self.hash@ == sha256(self.data@)
    }

    /// A chunk holding the data, addressed by its SHA-256 digest.
    pub fn new(data: Vec<u8>) -> (r: Chunk)
        ensures
            r.data_view() == data@,
            r.hash_view() == sha256(data@),
    {
        let hash = ChunkHash(sha256_digest(data.as_slice()));
        Chunk { hash, data }
    }

    /// The address of the chunk.
    pub fn hash(&self) -> (r: &ChunkHash)
        ensures
            r@ == self.hash_view(),
            r@ == sha256(self.data_view()),
    {
        proof {
            use_type_invariant(self);
        }
        &self.hash
    }

    /// The bytes of the chunk.
    pub fn data(&self) -> (r: &[u8])
        ensures
            r@ == self.data_view(),
    {
        self.data.as_slice()
    }

    /// The address and the bytes, taken apart.
    pub fn into_parts(self) -> (r: (ChunkHash, Vec<u8>))
        ensures
            r.0@ == self.hash_view(),
            r.1@ == self.data_view(),
            r.0@ == sha256(r.1@),
    {
        proof {
            use_type_invariant(&self);
        }
        let Chunk { hash, data } = self;
        (hash, data)
    }

    /// A reference to this chunk: its address and its length.
    pub fn reference(&self) -> (r: ChunkRef)
        requires
            self.data_view().len() <= u64::MAX,
        ensures
            r.hash@ == self.hash_view(),
            r.size == self.data_view().len(),
    {
        ChunkRef { hash: self.hash, size: self.data.len() as u64 }
    }
}

/// The metadata of a node, seen as values.
pub ghost enum MetaView {
    Directory { name: Seq<char> },
    RegularFile { name: Seq<char>, size: u64, chunk_refs: Seq<ChunkRef> },
    Symlink { name: Seq<char>, target: Seq<char> },
}

impl MetaView {
    pub open spec fn name(self) -> Seq<char> {
        match self {
            MetaView::Directory { name } => name,
            MetaView::RegularFile { name, .. } => name,
            MetaView::Symlink { name, .. } => name,
        }
    }
}

/// The metadata stored with each node of the tree.
#[derive(Clone, Debug)]
pub enum NodeMeta {
    Directory { name: String },
    RegularFile { name: String, size: u64, chunk_refs: Vec<ChunkRef> },
    Symlink { name: String, target: String },
}

impl View for NodeMeta {
    type V = MetaView;

    open spec fn view(&self) -> MetaView {
        match self {
            NodeMeta::Directory { name } => MetaView::Directory { name: name@ },
            NodeMeta::RegularFile { name, size, chunk_refs } => MetaView::RegularFile {
                name: name@,
                size: *size,
                chunk_refs: chunk_refs@,
            },
            NodeMeta::Symlink { name, target } => MetaView::Symlink {
                name: name@,
                target: target@,
            },
        }
    }
}

impl NodeMeta {
    /// The name of the node.
    pub fn name(&self) -> (r: &str)
        ensures
            r@ == self@.name(),
    {
        match self {
            NodeMeta::Directory { name } => name.as_str(),
            NodeMeta::RegularFile { name, .. } => name.as_str(),
            NodeMeta::Symlink { name, .. } => name.as_str(),
        }
    }

    /// A copy of the metadata.
    pub fn duplicate(&self) -> (r: NodeMeta)
        ensures
            r@ == self@,
    {
        match self {
            NodeMeta::Directory { name } => NodeMeta::Directory { name: name.clone() },
            NodeMeta::RegularFile { name, size, chunk_refs } => {
                let refs = chunk_refs.clone();
                proof {
                    assert(refs@ =~= chunk_refs@);
                }
                NodeMeta::RegularFile { name: name.clone(), size: *size, chunk_refs: refs }
            },
            NodeMeta::Symlink { name, target } => NodeMeta::Symlink {
                name: name.clone(),
                target: target.clone(),
            },
        }
    }
}

} // verus!
