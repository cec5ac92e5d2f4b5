use std::collections::HashMap;
use vstd::prelude::*;

use crate::domain::{MetaView, NodeId, NodeMeta};

verus! {

broadcast use vstd::std_specs::hash::group_hash_axioms;

/// The inode number of the root directory.
pub const ROOT_INO: u64 = 1;

/// The block size the mount reports, in bytes.
pub const FUSE_BLOCK_SIZE_BYTES: u32 = 512;

/// The longest name the mount accepts.
pub const FUSE_MAX_NAME_LENGTH: u32 = 255;

/// The two-way mapping between the inode numbers the kernel sees and the
/// node ids of the tree. Numbers are handed out in increasing order and
/// never reused.
pub struct INodeMap {
    ino_to_id: HashMap<u64, NodeId>,
    id_to_ino: HashMap<u128, u64>,
    next_ino: u64,
}

impl INodeMap {
    /// The node behind each assigned inode number.
    pub closed spec fn inodes(&self) -> Map<u64, NodeId> {
        self.ino_to_id@
    }

    /// The inode number of each node that has one.
    pub closed spec fn numbers(&self) -> Map<u128, u64> {
        self.id_to_ino@
    }

    /// The number the next new node gets.
    pub closed spec fn next(&self) -> u64 {
        self.next_ino
    }

    /// The two maps are inverse to each other, the root has number one,
    /// and every assigned number is below the next one.
    pub open spec fn wf(&self) -> bool {
        &&& self.inodes().contains_key(1)
        &&& self.inodes()[1] == NodeId::root()
        &&& 2 <= self.next()
        &&& forall|ino: u64| #[trigger] self.inodes().contains_key(ino) ==> {
            &&& 1 <= ino < self.next()
            &&& self.numbers().contains_key(self.inodes()[ino].id)
            &&& self.numbers()[self.inodes()[ino].id] == ino
        }
        &&& forall|id: u128| #[trigger] self.numbers().contains_key(id) ==> {
            &&& self.inodes().contains_key(self.numbers()[id])
            &&& self.inodes()[self.numbers()[id]].id == id
        }
    }

    /// Only the root, with number one.
    pub fn new() -> (r: INodeMap)
        ensures
            r.wf(),
            r.inodes() == Map::<u64, NodeId>::empty().insert(1, NodeId::root()),
            r.numbers() == Map::<u128, u64>::empty().insert(0, 1),
            r.next() == 2,
    {
        let mut ino_to_id: HashMap<u64, NodeId> = HashMap::new();
        let mut id_to_ino: HashMap<u128, u64> = HashMap::new();
        ino_to_id.insert(ROOT_INO, NodeId::root());
        id_to_ino.insert(NodeId::root().id, ROOT_INO);
        let r = INodeMap { ino_to_id, id_to_ino, next_ino: ROOT_INO + 1 };
        proof {
            assert(r.inodes() =~= Map::<u64, NodeId>::empty().insert(1, NodeId::root()));
            assert(r.numbers() =~= Map::<u128, u64>::empty().insert(0, 1));
        }
        r
    }

    /// Whether `count` more numbers can still be handed out, with one to
    /// spare.
    pub fn has_room_for(&self, count: u64) -> (r: bool)
        ensures
            r == (self.next() + count < u64::MAX),
    {
        count < u64::MAX - self.next_ino
    }

    /// The inode number of a node: the one it already has, or the next
    /// free number, which from now on stands for it.
    pub fn get_or_assign_ino(&mut self, node_id: NodeId) -> (r: u64)
        requires
            old(self).wf(),
            old(self).next() < u64::MAX,
        ensures
            final(self).wf(),
            final(self).inodes().contains_key(r),
            final(self).inodes()[r] == node_id,
            old(self).numbers().contains_key(node_id.id) ==> {
                &&& r == old(self).numbers()[node_id.id]
                &&& final(self).inodes() == old(self).inodes()
                &&& final(self).numbers() == old(self).numbers()
                &&& final(self).next() == old(self).next()
            },
            !old(self).numbers().contains_key(node_id.id) ==> {
                &&& r == old(self).next()
                &&& final(self).inodes() == old(self).inodes().insert(r, node_id)
                &&& final(self).numbers() == old(self).numbers().insert(node_id.id, r)
                &&& final(self).next() == old(self).next() + 1
            },
    {
        match self.id_to_ino.get(&node_id.id) {
            Some(ino) => {
                let ino = *ino;
                proof {
                    assert(self.inodes().contains_key(ino));
                    assert(self.inodes()[ino].id == node_id.id);
                    assert(self.inodes()[ino] == node_id);
                }
                return ino;
            },
            None => {},
        }
        let ino = self.next_ino;
        proof {
            assert(!self.inodes().contains_key(ino)) by {
                if self.inodes().contains_key(ino) {
                    assert(ino < self.next());
                }
            }
        }
        self.next_ino = self.next_ino + 1;
        self.ino_to_id.insert(ino, node_id);
        self.id_to_ino.insert(node_id.id, ino);
        proof {
            let o = old(self);
            assert forall|i: u64| #[trigger] self.inodes().contains_key(i) implies {
                &&& 1 <= i < self.next()
                &&& self.numbers().contains_key(self.inodes()[i].id)
                &&& self.numbers()[self.inodes()[i].id] == i
            } by {
                if i != ino {
                    assert(o.inodes().contains_key(i));
                    assert(o.inodes()[i].id != node_id.id);
                }
            }
            assert forall|id: u128| #[trigger] self.numbers().contains_key(id) implies {
                &&& self.inodes().contains_key(self.numbers()[id])
                &&& self.inodes()[self.numbers()[id]].id == id
            } by {
                if id != node_id.id {
                    assert(o.numbers().contains_key(id));
                    assert(o.numbers()[id] != ino);
                }
            }
        }
        ino
    }

    /// The node behind an inode number, if the number was handed out.
    pub fn get_node_id(&self, ino: u64) -> (r: Option<NodeId>)
        ensures
            r == (if self.inodes().contains_key(ino) { Some(self.inodes()[ino]) } else { None::<NodeId> }),
    {
        match self.ino_to_id.get(&ino) {
            Some(id) => Some(*id),
            None => None,
        }
    }
}

/// Two inode numbers never stand for the same node: each node that has a
/// number has exactly one.
pub proof fn law_inode_numbers_distinct(m: INodeMap, a: u64, b: u64)
    requires
        m.wf(),
        m.inodes().contains_key(a),
        m.inodes().contains_key(b),
        a != b,
    ensures
        m.inodes()[a] != m.inodes()[b],
{
    assert(m.numbers()[m.inodes()[a].id] == a);
    assert(m.numbers()[m.inodes()[b].id] == b);
}

/// A number once handed out keeps standing for the same node whatever
/// node is numbered next, and the new number leads back to its node.
pub proof fn law_numbers_are_stable(m0: INodeMap, m1: INodeMap, node: NodeId, r: u64, ino: u64)
    requires
        m0.wf(),
        m0.next() < u64::MAX,
        m1.inodes().contains_key(r),
        m1.inodes()[r] == node,
        m0.numbers().contains_key(node.id) ==> m1.inodes() == m0.inodes(),
        !m0.numbers().contains_key(node.id) ==> r == m0.next() && m1.inodes() == m0.inodes().insert(r, node),
        m0.inodes().contains_key(ino),
    ensures
        m1.inodes().contains_key(ino),
        m1.inodes()[ino] == m0.inodes()[ino],
{
    if !m0.numbers().contains_key(node.id) {
        assert(ino < m0.next());
    }
}

/// Numbers grow: a node numbered for the first time gets a number greater
/// than every number handed out before.
pub proof fn law_new_numbers_exceed_old(m0: INodeMap, node: NodeId, r: u64)
    requires
        m0.wf(),
        !m0.numbers().contains_key(node.id),
        r == m0.next(),
    ensures
        forall|ino: u64| #[trigger] m0.inodes().contains_key(ino) ==> ino < r,
{
    assert forall|ino: u64| #[trigger] m0.inodes().contains_key(ino) implies ino < r by {
        assert(ino < m0.next());
    }
}

/// The kinds of file the mount reports.
#[derive(Clone, Copy, Debug, PartialEq, Eq, Structural)]
pub enum FileKind {
    Directory,
    RegularFile,
    Symlink,
}

/// The kind of file a node is.
pub open spec fn kind_of(meta: MetaView) -> FileKind {
    match meta {
        MetaView::Directory { .. } => FileKind::Directory,
        MetaView::RegularFile { .. } => FileKind::RegularFile,
        MetaView::Symlink { .. } => FileKind::Symlink,
    }
}

/// The size the mount reports for a node: one block for a directory,
/// the content length for a file, the length in bytes of the target for
/// a link.
pub open spec fn size_of(meta: MetaView) -> int {
    match meta {
        MetaView::Directory { .. } => FUSE_BLOCK_SIZE_BYTES as int,
        MetaView::RegularFile { size, .. } => size as int,
        MetaView::Symlink { target, .. } => vstd::utf8::encode_utf8(target).len() as int,
    }
}

/// The number of blocks that hold `size` bytes, rounded up.
pub open spec fn blocks_for(size: int) -> int {
    (size + FUSE_BLOCK_SIZE_BYTES - 1) / (FUSE_BLOCK_SIZE_BYTES as int)
}

/// The attributes of a node, as the mount reports them: every node is
/// open to all, owned by root, with no recorded times.
#[derive(Clone, Copy, Debug)]
pub struct FileAttrs {
    pub ino: u64,
    pub size: u64,
    pub blocks: u64,
    pub kind: FileKind,
    pub perm: u16,
    pub nlink: u32,
    pub uid: u32,
    pub gid: u32,
    pub rdev: u32,
    pub blksize: u32,
    pub flags: u32,
}

/// The number of `FUSE_BLOCK_SIZE_BYTES` blocks that hold `size` bytes.
fn block_count(size: u64) -> (r: u64)
    ensures
        r == blocks_for(size as int),
{
    let whole = size / 512;
    if size % 512 == 0 {
        whole
    } else {
        whole + 1
    }
}

/// The attributes the mount reports for a node with this metadata and
/// inode number.
pub fn to_attr(meta: &NodeMeta, ino: u64) -> (r: FileAttrs)
    requires
        meta@ is Symlink ==> size_of(meta@) <= usize::MAX,
    ensures
        r.ino == ino,
        r.kind == kind_of(meta@),
        r.size == size_of(meta@),
        r.blocks == blocks_for(size_of(meta@)),
        r.perm == 0o777,
        r.nlink == (if r.kind == FileKind::Directory { 2u32 } else { 1u32 }),
        r.uid == 0,
        r.gid == 0,
        r.rdev == 0,
        r.blksize == FUSE_BLOCK_SIZE_BYTES,
        r.flags == 0,
{
    let (kind, size) = match meta {
        NodeMeta::Directory { .. } => (FileKind::Directory, FUSE_BLOCK_SIZE_BYTES as u64),
        NodeMeta::RegularFile { size, .. } => (FileKind::RegularFile, *size),
        NodeMeta::Symlink { target, .. } => (FileKind::Symlink, target.as_str().len() as u64),
    };
    let nlink: u32 = match kind {
        FileKind::Directory => 2,
        _ => 1,
    };
    FileAttrs {
        ino,
        size,
        blocks: block_count(size),
        kind,
        perm: 0o777,
        nlink,
        uid: 0,
        gid: 0,
        rdev: 0,
        blksize: FUSE_BLOCK_SIZE_BYTES,
        flags: 0,
    }
}

/// The block counts the mount reports for the file system: all blocks
/// the capacity spans, rounded up, and the whole blocks still free.
pub fn statfs_blocks(capacity_bytes: usize, free_bytes: usize) -> (r: (u64, u64))
    requires
        capacity_bytes <= u64::MAX,
        free_bytes <= u64::MAX,
    ensures
        r.0 == blocks_for(capacity_bytes as int),
        r.1 == free_bytes as int / (FUSE_BLOCK_SIZE_BYTES as int),
{
    let total = block_count(capacity_bytes as u64);
    let free = free_bytes as u64 / 512;
    (total, free)
}

/// What opening a node for reading and writing gives: only a regular
/// file can be opened; a directory answers EISDIR, a link EINVAL.
pub fn open_check(meta: &NodeMeta) -> (r: Result<(), i32>)
    ensures
        r == match meta@ {
            MetaView::RegularFile { .. } => Ok::<(), i32>(()),
            MetaView::Directory { .. } => Err::<(), i32>(21),
            MetaView::Symlink { .. } => Err::<(), i32>(22),
        },
{
    match meta {
        NodeMeta::RegularFile { .. } => Ok(()),
        NodeMeta::Directory { .. } => Err(21),
        NodeMeta::Symlink { .. } => Err(22),
    }
}

/// What opening a node as a directory gives: anything else answers
/// ENOTDIR.
pub fn opendir_check(meta: &NodeMeta) -> (r: Result<(), i32>)
    ensures
        r == (if meta@ is Directory { Ok::<(), i32>(()) } else { Err::<(), i32>(20) }),
{
    match meta {
        NodeMeta::Directory { .. } => Ok(()),
        _ => Err(20),
    }
}

/// The target of a link, as bytes; anything else answers EINVAL.
pub fn readlink_target(meta: NodeMeta) -> (r: Result<Vec<u8>, i32>)
    ensures
        match meta@ {
            MetaView::Symlink { target, .. } => r matches Ok(bytes) && bytes@ == vstd::utf8::encode_utf8(target),
            _ => r == Err::<Vec<u8>, i32>(22),
        },
{
    match meta {
        NodeMeta::Symlink { target, .. } => Ok(vstd::slice::slice_to_vec(target.as_str().as_bytes())),
        _ => Err(22),
    }
}

/// One entry of a directory listing: the inode number, the offset of the
/// entry that follows it, the kind and the name.
pub struct DirEntry {
    pub ino: u64,
    pub next_offset: u64,
    pub kind: FileKind,
    pub name: String,
}

/// The entries of a directory listing from `offset` on: `.` and `..`
/// first, then the children in the order given, each child numbered
/// through the map; the offset of an entry's successor is its position
/// plus one.
pub fn directory_entries(
    map: &mut INodeMap,
    node_ino: u64,
    parent_id: NodeId,
    children: Vec<(NodeId, String, NodeMeta)>,
    offset: u64,
) -> (r: Vec<DirEntry>)
    requires
        old(map).wf(),
        old(map).next() + children@.len() + 2 < u64::MAX,
    ensures
        final(map).wf(),
        forall|ino: u64| #[trigger] old(map).inodes().contains_key(ino) ==> final(map).inodes().contains_key(ino) && final(map).inodes()[ino] == old(map).inodes()[ino],
        r@.len() == (if offset < children@.len() + 2 { children@.len() + 2 - offset } else { 0 }),
        forall|k: int| 0 <= k < r@.len() ==> (#[trigger] r@[k]).next_offset == offset + k + 1,
        forall|k: int| 0 <= k < r@.len() && offset + k == 0 ==> {
            &&& (#[trigger] r@[k]).ino == node_ino
            &&& r@[k].kind == FileKind::Directory
            &&& r@[k].name@ == seq!['.']
        },
        forall|k: int| 0 <= k < r@.len() && offset + k == 1 ==> {
            &&& final(map).inodes().contains_key((#[trigger] r@[k]).ino)
            &&& final(map).inodes()[r@[k].ino] == parent_id
            &&& r@[k].kind == FileKind::Directory
            &&& r@[k].name@ == seq!['.', '.']
        },
        forall|k: int| 0 <= k < r@.len() && offset + k >= 2 ==> {
            let c = children@[offset + k - 2];
            &&& final(map).inodes().contains_key((#[trigger] r@[k]).ino)
            &&& final(map).inodes()[r@[k].ino] == c.0
            &&& r@[k].kind == kind_of(c.2@)
            &&& r@[k].name@ == c.1@
        },
{
    let ghost m0 = *map;
    let parent_ino = map.get_or_assign_ino(parent_id);
    let mut all: Vec<(u64, FileKind, String)> = Vec::new();
    let dot = String::from_str(".");
    let dotdot = String::from_str("..");
    proof {
        reveal_strlit(".");
        reveal_strlit("..");
    }
    all.push((node_ino, FileKind::Directory, dot));
    all.push((parent_ino, FileKind::Directory, dotdot));
    let mut j: usize = 0;
    while j < children.len()
        invariant
            map.wf(),
            0 <= j <= children@.len(),
            all@.len() == 2 + j,
            map.next() + (children@.len() - j) + 1 < u64::MAX,
            forall|ino: u64| #[trigger] m0.inodes().contains_key(ino) ==> map.inodes().contains_key(ino) && map.inodes()[ino] == m0.inodes()[ino],
            all@[0].0 == node_ino,
            all@[0].1 == FileKind::Directory,
            all@[0].2@ == seq!['.'],
            map.inodes().contains_key(all@[1].0),
            map.inodes()[all@[1].0] == parent_id,
            all@[1].1 == FileKind::Directory,
            all@[1].2@ == seq!['.', '.'],
            forall|q: int| 2 <= q < all@.len() ==> {
                let c = children@[q - 2];
                &&& map.inodes().contains_key((#[trigger] all@[q]).0)
                &&& map.inodes()[all@[q].0] == c.0
                &&& all@[q].1 == kind_of(c.2@)
                &&& all@[q].2@ == c.1@
            },
        decreases children@.len() - j,
    {
        let ghost before = *map;
        let child_id = children[j].0;
        let name = children[j].1.clone();
        let kind = match &children[j].2 {
            NodeMeta::Directory { .. } => FileKind::Directory,
            NodeMeta::RegularFile { .. } => FileKind::RegularFile,
            NodeMeta::Symlink { .. } => FileKind::Symlink,
        };
        let child_ino = map.get_or_assign_ino(child_id);
        proof {
            assert forall|ino: u64| #[trigger] before.inodes().contains_key(ino) implies map.inodes().contains_key(ino) && map.inodes()[ino] == before.inodes()[ino] by {
                if !before.numbers().contains_key(child_id.id) {
                    assert(ino < before.next());
                }
            }
        }
        all.push((child_ino, kind, name));
        j = j + 1;
    }
    let mut r: Vec<DirEntry> = Vec::new();
    let mut i: usize = if offset < all.len() as u64 { offset as usize } else { all.len() };
    let ghost start = i;
    while i < all.len()
        invariant
            start <= i <= all@.len(),
            start == (if offset < all@.len() { offset as int } else { all@.len() as int }),
            all@.len() < u64::MAX,
            r@.len() == i - start,
            forall|k: int| 0 <= k < r@.len() ==> {
                &&& (#[trigger] r@[k]).next_offset == start + k + 1
                &&& r@[k].ino == all@[start + k].0
                &&& r@[k].kind == all@[start + k].1
                &&& r@[k].name@ == all@[start + k].2@
            },
        decreases all@.len() - i,
    {
        let entry = DirEntry {
            ino: all[i].0,
            next_offset: (i + 1) as u64,
            kind: all[i].1,
            name: all[i].2.clone(),
        };
        r.push(entry);
        i = i + 1;
    }
    r
}

} // verus!
