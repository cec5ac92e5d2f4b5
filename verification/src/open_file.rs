use std::collections::HashMap;
use vstd::prelude::*;

use crate::domain::{MetaView, NodeMeta};

verus! {

broadcast use vstd::std_specs::hash::group_hash_axioms;

/// Why an access to an open file was refused.
#[derive(Debug)]
pub enum OpenFileError {
    /// The handle is not open, or has no buffer to write into.
    BadHandle,
    /// The write would end past the largest offset a buffer can hold.
    TooLarge,
}

impl OpenFileError {
    /// The errno value that reports the error: EBADF or EFBIG.
    pub fn errno(&self) -> (r: i32)
        ensures
            r == match *self {
                OpenFileError::BadHandle => 9i32,
                OpenFileError::TooLarge => 27i32,
            },
    {
        match self {
            OpenFileError::BadHandle => 9,
            OpenFileError::TooLarge => 27,
        }
    }
}

/// A file opened through the mount: its metadata as the handle sees it,
/// the content being edited if it has been loaded, and whether it was
/// written.
pub struct OpenFile {
    pub meta: NodeMeta,
    pub buffer: Option<Vec<u8>>,
    pub dirty: bool,
}

/// An open file, seen as values.
pub ghost struct OpenFileView {
    pub meta: MetaView,
    pub buffer: Option<Seq<u8>>,
    pub dirty: bool,
}

impl View for OpenFile {
    type V = OpenFileView;

    open spec fn view(&self) -> OpenFileView {
        OpenFileView {
            meta: self.meta@,
            buffer: match self.buffer {
                Some(b) => Some(b@),
                None => None,
            },
            dirty: self.dirty,
        }
    }
}

impl OpenFile {
    /// A clean open file with the metadata and, if given, the content.
    pub fn new(meta: NodeMeta, buffer: Option<Vec<u8>>) -> (r: OpenFile)
        ensures
            r.meta@ == meta@,
            r.buffer == buffer,
            !r.dirty,
    {
        OpenFile { meta, buffer, dirty: false }
    }
}

/// The buffer after writing `data` at `start`: zero-filled up to the
/// write if it was shorter, with the data in place.
pub open spec fn written(buffer: Seq<u8>, start: int, data: Seq<u8>) -> Seq<u8> {
    let end = start + data.len();
    let len = if end > buffer.len() { end } else { buffer.len() as int };
    Seq::new(len as nat, |i: int| if start <= i < end { data[i - start] } else if i < buffer.len() { buffer[i] } else { 0u8 })
}

/// The metadata after a write ending at `end`: a regular file grows to
/// cover it.
pub open spec fn grown(meta: MetaView, end: int) -> MetaView {
    match meta {
        MetaView::RegularFile { name, size, chunk_refs } => MetaView::RegularFile {
            name,
            size: if end > size { end as u64 } else { size },
            chunk_refs,
        },
        other => other,
    }
}

/// The bytes a read of up to `length` bytes from `offset` gives of a
/// buffer.
pub open spec fn buffer_read(buffer: Seq<u8>, offset: u64, length: u64) -> Seq<u8> {
    if offset >= buffer.len() {
        Seq::empty()
    } else {
        let e = if offset + length > u64::MAX { u64::MAX as int } else { offset + length };
        let end = if e < buffer.len() { e } else { buffer.len() as int };
        buffer.subrange(offset as int, end)
    }
}

/// The files open through the mount, by handle.
pub struct OpenFileManager {
    open_files: HashMap<u64, OpenFile>,
}

impl OpenFileManager {
    /// The open files, by handle.
    pub closed spec fn files(&self) -> Map<u64, OpenFileView> {
        self.open_files@.map_values(|f: OpenFile| f@)
    }

    /// No file is open.
    pub fn new() -> (r: OpenFileManager)
        ensures
            r.files() == Map::<u64, OpenFileView>::empty(),
    {
        let r = OpenFileManager { open_files: HashMap::new() };
        proof {
            assert(r.files() =~= Map::<u64, OpenFileView>::empty());
        }
        r
    }

    /// Registers a newly created file: its content is loaded and empty.
    pub fn create_file(&mut self, fh: u64, meta: NodeMeta)
        ensures
            final(self).files() == old(self).files().insert(fh, OpenFileView { meta: meta@, buffer: Some(Seq::empty()), dirty: false }),
    {
        let f = OpenFile::new(meta, Some(Vec::new()));
        self.open_files.insert(fh, f);
        proof {
            assert(f@.buffer == Some(Seq::<u8>::empty()));
            assert(self.files() =~= old(self).files().insert(fh, f@));
        }
    }

    /// Registers an opened file: its content is not loaded yet.
    pub fn open_file(&mut self, fh: u64, meta: NodeMeta)
        ensures
            final(self).files() == old(self).files().insert(fh, OpenFileView { meta: meta@, buffer: None, dirty: false }),
    {
        let f = OpenFile::new(meta, None);
        self.open_files.insert(fh, f);
        proof {
            assert(self.files() =~= old(self).files().insert(fh, f@));
        }
    }

    /// Closes a handle; gives its content back if it was written.
    pub fn release_file(&mut self, fh: u64) -> (r: Option<Vec<u8>>)
        ensures
            final(self).files() == old(self).files().remove(fh),
            match r {
                Some(b) => old(self).files().contains_key(fh) && old(self).files()[fh].dirty && old(self).files()[fh].buffer == Some(b@),
                None => !old(self).files().contains_key(fh) || !old(self).files()[fh].dirty || old(self).files()[fh].buffer is None,
            },
    {
        let removed = self.open_files.remove(&fh);
        proof {
            assert(self.files() =~= old(self).files().remove(fh));
        }
        match removed {
            Some(session) => {
                if !session.dirty {
                    return None;
                }
                session.buffer
            },
            None => None,
        }
    }

    /// The metadata of an open file, as its handle sees it.
    pub fn metadata(&self, fh: u64) -> (r: Option<NodeMeta>)
        ensures
            match r {
                Some(m) => self.files().contains_key(fh) && m@ == self.files()[fh].meta,
                None => !self.files().contains_key(fh),
            },
    {
        match self.open_files.get(&fh) {
            Some(f) => Some(f.meta.duplicate()),
            None => None,
        }
    }

    /// Reads from the loaded content of an open file; `None` when the
    /// handle is not open or its content is not loaded.
    pub fn read(&self, fh: u64, offset: u64, length: u64) -> (r: Option<Vec<u8>>)
        ensures
            match r {
                Some(data) => self.files().contains_key(fh) && (self.files()[fh].buffer matches Some(b) && data@ == buffer_read(b, offset, length)),
                None => !self.files().contains_key(fh) || self.files()[fh].buffer is None,
            },
    {
        let file = match self.open_files.get(&fh) {
            Some(f) => f,
            None => {
                return None;
            },
        };
        let buffer = match &file.buffer {
            Some(b) => b,
            None => {
                return None;
            },
        };
        let buffer_size = buffer.len() as u64;
        if offset >= buffer_size {
            return Some(Vec::new());
        }
        let sum = offset.saturating_add(length);
        let end = if sum < buffer_size { sum } else { buffer_size };
        let piece = vstd::slice::slice_subrange(buffer.as_slice(), offset as usize, end as usize);
        Some(vstd::slice::slice_to_vec(piece))
    }

    /// Writes into the loaded content of an open file, zero-filling any
    /// gap, grows a regular file's size to cover the write, and marks the
    /// file written; gives the number of bytes written.
    pub fn write(&mut self, fh: u64, offset: u64, data: &[u8]) -> (r: Result<u64, OpenFileError>)
        ensures
            match r {
                Ok(n) => {
                    &&& old(self).files().contains_key(fh)
                    &&& old(self).files()[fh].buffer matches Some(b) && {
                        &&& offset as usize + data@.len() <= usize::MAX
                        &&& final(self).files() == old(self).files().insert(fh, OpenFileView {
                            meta: grown(old(self).files()[fh].meta, offset as usize + data@.len()),
                            buffer: Some(written(b, (offset as usize) as int, data@)),
                            dirty: true,
                        })
                    }
                    &&& n == data@.len()
                },
                Err(e) => {
                    &&& final(self).files() == old(self).files()
                    &&& (e is BadHandle <==> (!old(self).files().contains_key(fh) || old(self).files()[fh].buffer is None))
                    &&& (e is TooLarge <==> (old(self).files().contains_key(fh) && old(self).files()[fh].buffer is Some && offset as usize + data@.len() > usize::MAX))
                },
            },
    {
        match self.open_files.get(&fh) {
            Some(f) => {
                if f.buffer.is_none() {
                    return Err(OpenFileError::BadHandle);
                }
            },
            None => {
                return Err(OpenFileError::BadHandle);
            },
        }
        let write_start = offset as usize;
        let write_end = match write_start.checked_add(data.len()) {
            Some(e) => e,
            None => {
                return Err(OpenFileError::TooLarge);
            },
        };
        let file = match self.open_files.remove(&fh) {
            Some(f) => f,
            None => {
                proof {
                    assert(false);
                }
                return Err(OpenFileError::BadHandle);
            },
        };
        let OpenFile { meta, buffer, dirty: _ } = file;
        let mut buffer = match buffer {
            Some(b) => b,
            None => {
                proof {
                    assert(false);
                }
                Vec::new()
            },
        };
        let ghost b0 = buffer@;
        while buffer.len() < write_end
            invariant
                buffer@.len() <= if write_end > b0.len() { write_end as int } else { b0.len() as int },
                buffer@.len() >= b0.len(),
                forall|i: int| 0 <= i < b0.len() ==> buffer@[i] == b0[i],
                forall|i: int| b0.len() <= i < buffer@.len() ==> buffer@[i] == 0u8,
            decreases write_end - buffer@.len(),
        {
            buffer.push(0u8);
        }
        let mut j: usize = 0;
        while j < data.len()
            invariant
                write_end == write_start + data@.len(),
                buffer@.len() == if write_end > b0.len() { write_end as int } else { b0.len() as int },
                0 <= j <= data@.len(),
                forall|i: int| 0 <= i < buffer@.len() && !(write_start <= i < write_start + j) ==> buffer@[i] == (if i < b0.len() { b0[i] } else { 0u8 }),
                forall|i: int| write_start <= i < write_start + j ==> buffer@[i] == data@[i - write_start],
            decreases data@.len() - j,
        {
            buffer.set(write_start + j, data[j]);
            j = j + 1;
        }
        proof {
            assert(buffer@ =~= written(b0, write_start as int, data@));
        }
        let new_meta = match meta {
            NodeMeta::RegularFile { name, size, chunk_refs } => {
                let new_size = if (write_end as u64) > size { write_end as u64 } else { size };
                NodeMeta::RegularFile { name, size: new_size, chunk_refs }
            },
            other => other,
        };
        let updated = OpenFile { meta: new_meta, buffer: Some(buffer), dirty: true };
        self.open_files.insert(fh, updated);
        proof {
            assert(updated@.meta == grown(old(self).files()[fh].meta, write_end as int));
            assert(self.files() =~= old(self).files().insert(fh, updated@));
        }
        Ok(data.len() as u64)
    }

    /// Whether the content of an open file still has to be loaded.
    pub fn needs_buffer(&self, fh: u64) -> (r: Result<bool, OpenFileError>)
        ensures
            match r {
                Ok(b) => self.files().contains_key(fh) && b == self.files()[fh].buffer is None,
                Err(e) => e is BadHandle && !self.files().contains_key(fh),
            },
    {
        match self.open_files.get(&fh) {
            Some(f) => Ok(f.buffer.is_none()),
            None => Err(OpenFileError::BadHandle),
        }
    }

    /// Loads the content of an open file; nothing happens for a handle
    /// that is not open.
    pub fn set_buffer(&mut self, fh: u64, buffer: Vec<u8>)
        ensures
            old(self).files().contains_key(fh) ==> final(self).files() == old(self).files().insert(fh, OpenFileView {
                meta: old(self).files()[fh].meta,
                buffer: Some(buffer@),
                dirty: old(self).files()[fh].dirty,
            }),
            !old(self).files().contains_key(fh) ==> final(self).files() == old(self).files(),
    {
        match self.open_files.remove(&fh) {
            Some(f) => {
                let OpenFile { meta, buffer: _, dirty } = f;
                let updated = OpenFile { meta, buffer: Some(buffer), dirty };
                self.open_files.insert(fh, updated);
                proof {
                    assert(self.files() =~= old(self).files().insert(fh, updated@));
                }
            },
            None => {
                proof {
                    assert(self.files() =~= old(self).files());
                }
            },
        }
    }
}

/// What a read gives back of a write: reading an open file where it was
/// just written gives the written bytes.
pub proof fn law_read_after_buffer_write(buffer: Seq<u8>, offset: u64, data: Seq<u8>)
    requires
        offset + data.len() <= u64::MAX,
    ensures
        buffer_read(written(buffer, offset as int, data), offset, data.len() as u64) == data,
{
    let w = written(buffer, offset as int, data);
    if data.len() > 0 {
        assert(buffer_read(w, offset, data.len() as u64) =~= data);
    } else {
        assert(buffer_read(w, offset, 0) =~= Seq::<u8>::empty());
    }
}

/// A buffered write changes only the written range: the buffer grows to
/// cover the write, every byte before it and after it keeps its value,
/// a gap between the old end and the write reads as zeros, and a read of
/// any range that avoids the write gives what it gave before.
pub proof fn law_buffer_write_keeps_the_rest(buffer: Seq<u8>, offset: u64, data: Seq<u8>, a: u64, n: u64)
    requires
        offset + data.len() <= u64::MAX,
        a + n <= offset || a >= offset + data.len(),
        a + n <= buffer.len(),
    ensures
        written(buffer, offset as int, data).len() == if offset + data.len() > buffer.len() { offset + data.len() } else { buffer.len() as int },
        forall|i: int| 0 <= i < buffer.len() && (i < offset || i >= offset + data.len()) ==> #[trigger] written(buffer, offset as int, data)[i] == buffer[i],
        forall|i: int| buffer.len() <= i < offset ==> #[trigger] written(buffer, offset as int, data)[i] == 0u8,
        buffer_read(written(buffer, offset as int, data), a, n) == buffer_read(buffer, a, n),
{
    let w = written(buffer, offset as int, data);
    if a < buffer.len() {
        assert(buffer_read(w, a, n) =~= buffer_read(buffer, a, n));
    }
}

} // verus!
