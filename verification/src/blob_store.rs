use vstd::prelude::*;

use crate::mount::{blocks_for, FileAttrs, FileKind};

verus! {

/// Why a peer refused a chunk request in the first wire protocol.
#[derive(Debug)]
pub enum Error {
    CapacityFull,
    ChunkNotFound,
}

/// The metadata of a node in the first, path-keyed tree.
#[derive(Debug)]
pub enum Meta {
    File { name: String, size: u64, hashes: Vec<Vec<u8>> },
    Directory { name: String },
}

impl Meta {
    /// The name of the node.
    pub fn name(&self) -> (r: &str)
        ensures
            r@ == match self {
                Meta::File { name, .. } => name@,
                Meta::Directory { name } => name@,
            },
    {
        match self {
            Meta::File { name, .. } => name.as_str(),
            Meta::Directory { name } => name.as_str(),
        }
    }
}

/// The attributes the first mount reported: a file by its size in
/// 512-byte blocks, a directory as one 4096-byte block of eight sectors.
pub fn meta_attr(meta: &Meta, ino: u64) -> (r: FileAttrs)
    ensures
        r.ino == ino,
        r.perm == 0o777,
        r.uid == 0,
        r.gid == 0,
        r.rdev == 0,
        r.flags == 0,
        match meta {
            Meta::File { size, .. } => {
                &&& r.kind == FileKind::RegularFile
                &&& r.size == *size
                &&& r.blocks == blocks_for(*size as int)
                &&& r.nlink == 1
                &&& r.blksize == 512
            },
            Meta::Directory { .. } => {
                &&& r.kind == FileKind::Directory
                &&& r.size == 4096
                &&& r.blocks == 8
                &&& r.nlink == 2
                &&& r.blksize == 4096
            },
        },
{
    match meta {
        Meta::File { size, .. } => {
            let whole = *size / 512;
            let blocks = if *size % 512 == 0 { whole } else { whole + 1 };
            FileAttrs {
                ino,
                size: *size,
                blocks,
                kind: FileKind::RegularFile,
                perm: 0o777,
                nlink: 1,
                uid: 0,
                gid: 0,
                rdev: 0,
                blksize: 512,
                flags: 0,
            }
        },
        Meta::Directory { .. } => FileAttrs {
            ino,
            size: 4096,
            blocks: 8,
            kind: FileKind::Directory,
            perm: 0o777,
            nlink: 2,
            uid: 0,
            gid: 0,
            rdev: 0,
            blksize: 4096,
            flags: 0,
        },
    }
}

/// The total length of the blobs.
pub open spec fn blob_bytes(blobs: Seq<(Seq<u8>, Seq<u8>)>) -> int
    decreases blobs.len(),
{
    if blobs.len() == 0 {
        0
    } else {
        blob_bytes(blobs.drop_last()) + blobs.last().1.len()
    }
}

/// The blob stored first under the key among the entries, if any.
pub open spec fn lookup(entries: Seq<(Seq<u8>, Seq<u8>)>, k: Seq<u8>) -> Option<Seq<u8>>
    decreases entries.len(),
{
    if entries.len() == 0 {
        None
    } else if lookup(entries.drop_last(), k) is Some {
        lookup(entries.drop_last(), k)
    } else if entries.last().0 == k {
        Some(entries.last().1)
    } else {
        None
    }
}

/// The entries after an insert of `data` under `k` that the budget did or
/// did not allow: an allowed blob is added unless the key is present.
pub open spec fn stored_after(entries: Seq<(Seq<u8>, Seq<u8>)>, k: Seq<u8>, data: Seq<u8>, allowed: bool) -> Seq<(Seq<u8>, Seq<u8>)> {
    if allowed && lookup(entries, k) is None {
        entries.push((k, data))
    } else {
        entries
    }
}

/// The entries after a history of inserts, each with whether the budget
/// allowed it, starting from nothing.
pub open spec fn entries_after(history: Seq<(Seq<u8>, Seq<u8>, bool)>) -> Seq<(Seq<u8>, Seq<u8>)>
    decreases history.len(),
{
    if history.len() == 0 {
        Seq::empty()
    } else {
        let h = history.last();
        stored_after(entries_after(history.drop_last()), h.0, h.1, h.2)
    }
}

/// The blob of the first allowed insert under the key in the history.
pub open spec fn first_allowed(history: Seq<(Seq<u8>, Seq<u8>, bool)>, k: Seq<u8>) -> Option<Seq<u8>>
    decreases history.len(),
{
    if history.len() == 0 {
        None
    } else if first_allowed(history.drop_last(), k) is Some {
        first_allowed(history.drop_last(), k)
    } else if history.last().2 && history.last().0 == k {
        Some(history.last().1)
    } else {
        None
    }
}

/// The first blob is kept: over any history of inserts, the blob stored
/// under a key is the one of the first allowed insert under it.
pub proof fn law_first_blob_kept(history: Seq<(Seq<u8>, Seq<u8>, bool)>, k: Seq<u8>)
    ensures
        lookup(entries_after(history), k) == first_allowed(history, k),
    decreases history.len(),
{
    if history.len() > 0 {
        let h = history.last();
        let e = entries_after(history.drop_last());
        law_first_blob_kept(history.drop_last(), k);
        if h.2 && lookup(e, h.0) is None {
            assert(e.push((h.0, h.1)).drop_last() =~= e);
            if h.0 == k {
                assert(lookup(e, k) is None);
            }
        } else if h.2 && h.0 == k {
            assert(lookup(e, k) is Some);
        }
    }
}

/// Under distinct keys, the entry with the key is what a lookup finds.
proof fn lemma_lookup_at(entries: Seq<(Seq<u8>, Seq<u8>)>, i: int)
    requires
        0 <= i < entries.len(),
        forall|a: int, b: int| 0 <= a < entries.len() && 0 <= b < entries.len() && a != b ==> #[trigger] entries[a].0 != #[trigger] entries[b].0,
    ensures
        lookup(entries, entries[i].0) == Some(entries[i].1),
    decreases entries.len(),
{
    let d = entries.drop_last();
    if i < entries.len() - 1 {
        assert forall|a: int, b: int| 0 <= a < d.len() && 0 <= b < d.len() && a != b implies #[trigger] d[a].0 != #[trigger] d[b].0 by {
            assert(d[a] == entries[a] && d[b] == entries[b]);
        }
        assert(d[i] == entries[i]);
        lemma_lookup_at(d, i);
    } else {
        lemma_lookup_none(d, entries[i].0);
    }
}

/// A lookup of a key that no entry has finds nothing.
proof fn lemma_lookup_none(entries: Seq<(Seq<u8>, Seq<u8>)>, k: Seq<u8>)
    requires
        forall|a: int| 0 <= a < entries.len() ==> #[trigger] entries[a].0 != k,
    ensures
        lookup(entries, k) is None,
    decreases entries.len(),
{
    if entries.len() > 0 {
        let d = entries.drop_last();
        assert forall|a: int| 0 <= a < d.len() implies #[trigger] d[a].0 != k by {
            assert(d[a] == entries[a]);
        }
        lemma_lookup_none(d, k);
    }
}

/// Whether two byte strings are equal.
fn same_bytes(a: &[u8], b: &[u8]) -> (r: bool)
    ensures
        r == (a@ == b@),
{
    if a.len() != b.len() {
        return false;
    }
    let mut i: usize = 0;
    while i < a.len()
        invariant
            a@.len() == b@.len(),
            0 <= i <= a@.len(),
            forall|j: int| 0 <= j < i ==> a@[j] == b@[j],
        decreases a@.len() - i,
    {
        if a[i] != b[i] {
            return false;
        }
        i = i + 1;
    }
    proof {
        assert(a@ =~= b@);
    }
    true
}

/// Blobs kept in memory by key, within a byte budget: a key keeps the
/// first blob stored under it.
pub struct StorageData {
    keys: Vec<Vec<u8>>,
    blobs: Vec<Vec<u8>>,
    used_memory: usize,
    max_memory: usize,
}

impl StorageData {
    /// The stored blobs, in the order they were stored.
    pub closed spec fn entries(&self) -> Seq<(Seq<u8>, Seq<u8>)> {
        Seq::new(self.keys@.len(), |i: int| (self.keys@[i]@, self.blobs@[i]@))
    }

    /// The blob stored under each key.
    pub open spec fn contents(&self) -> Map<Seq<u8>, Seq<u8>> {
        Map::new(
            |k: Seq<u8>| exists|i: int| 0 <= i < self.entries().len() && #[trigger] self.entries()[i].0 == k,
            |k: Seq<u8>| self.entries()[choose|i: int| 0 <= i < self.entries().len() && #[trigger] self.entries()[i].0 == k].1,
        )
    }

    /// The byte budget.
    pub closed spec fn max_memory(&self) -> nat {
        self.max_memory as nat
    }

    /// The bytes in use: the total length of the stored blobs.
    pub closed spec fn used_memory(&self) -> nat {
        self.used_memory as nat
    }

    /// Keys are distinct, the use is the total length and within budget.
    pub closed spec fn wf(&self) -> bool {
        &&& self.keys@.len() == self.blobs@.len()
        &&& forall|a: int, b: int| 0 <= a < self.keys@.len() && 0 <= b < self.keys@.len() && a != b ==> #[trigger] self.keys@[a]@ != #[trigger] self.keys@[b]@
        &&& self.used_memory == blob_bytes(self.entries())
        &&& self.used_memory <= self.max_memory
    }

    /// Keys are distinct.
    pub proof fn lemma_keys_distinct(&self)
        requires
            self.wf(),
        ensures
            forall|a: int, b: int| 0 <= a < self.entries().len() && 0 <= b < self.entries().len() && a != b ==> #[trigger] self.entries()[a].0 != #[trigger] self.entries()[b].0,
    {
        assert forall|a: int, b: int| 0 <= a < self.entries().len() && 0 <= b < self.entries().len() && a != b implies #[trigger] self.entries()[a].0 != #[trigger] self.entries()[b].0 by {
            assert(self.entries()[a].0 == self.keys@[a]@);
            assert(self.entries()[b].0 == self.keys@[b]@);
        }
    }

    /// The budget holds: the bytes in use are the total length of the
    /// stored blobs and within the budget.
    pub proof fn lemma_within_budget(&self)
        requires
            self.wf(),
        ensures
            self.used_memory() == blob_bytes(self.entries()),
            self.used_memory() <= self.max_memory(),
    {
    }

    /// Nothing stored, with the given budget.
    pub fn new(max_memory: usize) -> (r: StorageData)
        ensures
            r.wf(),
            r.entries() == Seq::<(Seq<u8>, Seq<u8>)>::empty(),
            r.max_memory() == max_memory,
            r.used_memory() == 0,
    {
        let r = StorageData { keys: Vec::new(), blobs: Vec::new(), used_memory: 0, max_memory };
        proof {
            assert(r.entries() =~= Seq::<(Seq<u8>, Seq<u8>)>::empty());
        }
        r
    }

    /// The blob stored under the key, if any.
    pub fn get(&self, hash: &Vec<u8>) -> (r: Option<&Vec<u8>>)
        requires
            self.wf(),
        ensures
            match r {
                Some(data) => exists|i: int| 0 <= i < self.entries().len() && self.entries()[i] == (hash@, data@),
                None => forall|i: int| 0 <= i < self.entries().len() ==> #[trigger] self.entries()[i].0 != hash@,
            },
            match r {
                Some(data) => lookup(self.entries(), hash@) == Some(data@),
                None => lookup(self.entries(), hash@) is None,
            },
    {
        let mut i: usize = 0;
        while i < self.keys.len()
            invariant
                self.wf(),
                0 <= i <= self.keys@.len(),
                forall|j: int| 0 <= j < i ==> #[trigger] self.keys@[j]@ != hash@,
            decreases self.keys@.len() - i,
        {
            if same_bytes(self.keys[i].as_slice(), hash.as_slice()) {
                proof {
                    assert(self.entries()[i as int] == (hash@, self.blobs@[i as int]@));
                    self.lemma_keys_distinct();
                    lemma_lookup_at(self.entries(), i as int);
                }
                return Some(&self.blobs[i]);
            }
            i = i + 1;
        }
        proof {
            assert forall|j: int| 0 <= j < self.entries().len() implies #[trigger] self.entries()[j].0 != hash@ by {
                assert(self.entries()[j].0 == self.keys@[j]@);
            }
            lemma_lookup_none(self.entries(), hash@);
        }
        None
    }

    /// Stores the blob under the key unless the budget would be exceeded;
    /// a key already present keeps its blob. Says whether the budget
    /// allowed it.
    pub fn insert(&mut self, hash: Vec<u8>, data: Vec<u8>) -> (r: bool)
        requires
            old(self).wf(),
        ensures
            final(self).wf(),
            final(self).max_memory() == old(self).max_memory(),
            r == (old(self).used_memory() + data@.len() <= old(self).max_memory()),
            !r ==> final(self).entries() == old(self).entries(),
            r && (exists|i: int| 0 <= i < old(self).entries().len() && #[trigger] old(self).entries()[i].0 == hash@) ==> final(self).entries() == old(self).entries(),
            r && (forall|i: int| 0 <= i < old(self).entries().len() ==> #[trigger] old(self).entries()[i].0 != hash@) ==> final(self).entries() == old(self).entries().push((hash@, data@)),
            final(self).entries() == stored_after(old(self).entries(), hash@, data@, r),
            final(self).used_memory() == blob_bytes(final(self).entries()),
            final(self).used_memory() == if r && lookup(old(self).entries(), hash@) is None {
                old(self).used_memory() + data@.len()
            } else {
                old(self).used_memory()
            },
    {
        proof {
            self.lemma_keys_distinct();
        }
        if data.len() > self.max_memory || self.used_memory > self.max_memory - data.len() {
            return false;
        }
        match self.get(&hash) {
            Some(found) => {
                proof {
                    let i = choose|i: int| 0 <= i < self.entries().len() && self.entries()[i] == (hash@, found@);
                    assert(old(self).entries()[i].0 == hash@);
                }
            },
            None => {
                let ghost e0 = self.entries();
                let ghost hv = hash@;
                let ghost dv = data@;
                self.used_memory = self.used_memory + data.len();
                self.keys.push(hash);
                self.blobs.push(data);
                proof {
                    assert(self.entries() =~= e0.push((hv, dv)));
                    assert(self.entries().drop_last() =~= e0);
                    assert forall|a: int, b: int| 0 <= a < self.keys@.len() && 0 <= b < self.keys@.len() && a != b implies #[trigger] self.keys@[a]@ != #[trigger] self.keys@[b]@ by {
                        if a == e0.len() {
                            assert(e0[b].0 != hv);
                        } else if b == e0.len() {
                            assert(e0[a].0 != hv);
                        }
                    }
                }
            },
        }
        true
    }
}

/// What the network side of the first design asked of the storage.
pub trait SwarmStorage {
    fn update_file(&mut self, path: String, size: u64, hashes: Vec<Vec<u8>>);

    fn create_directory(&mut self, path: String);

    fn delete(&mut self, path: String);
}

/// What the mount side of the first design asked of the storage.
pub trait FuseStorage {
}

} // verus!
