use vstd::prelude::*;

use crate::storage::StorageError;
use crate::tree::NodeTreeError;

verus! {

/// Why a file system operation was refused.
#[derive(Debug)]
pub enum FileSystemError {
    NotFound,
    ReservedNode,
    StorageFull,
    NotADirectory,
    IsADirectory,
    DirectoryNotEmpty,
    AlreadyExists,
}

impl From<NodeTreeError> for FileSystemError {
    fn from(err: NodeTreeError) -> (r: Self) {
        match err {
            NodeTreeError::NotFound => FileSystemError::NotFound,
            NodeTreeError::ReservedNode => FileSystemError::ReservedNode,
        }
    }
}

impl vstd::std_specs::convert::FromSpecImpl<NodeTreeError> for FileSystemError {
    open spec fn obeys_from_spec() -> bool {
        true
    }

    open spec fn from_spec(err: NodeTreeError) -> FileSystemError {
        match err {
            NodeTreeError::NotFound => FileSystemError::NotFound,
            NodeTreeError::ReservedNode => FileSystemError::ReservedNode,
        }
    }
}

impl From<StorageError> for FileSystemError {
    fn from(err: StorageError) -> (r: Self) {
        match err {
            StorageError::StorageFull => FileSystemError::StorageFull,
        }
    }
}

impl vstd::std_specs::convert::FromSpecImpl<StorageError> for FileSystemError {
    open spec fn obeys_from_spec() -> bool {
        true
    }

    open spec fn from_spec(err: StorageError) -> FileSystemError {
        match err {
            StorageError::StorageFull => FileSystemError::StorageFull,
        }
    }
}

/// The errno value that reports the error to the kernel.
pub open spec fn spec_errno(err: FileSystemError) -> i32 {
    match err {
        FileSystemError::NotFound => 2,
        FileSystemError::NotADirectory => 20,
        FileSystemError::IsADirectory => 21,
        FileSystemError::DirectoryNotEmpty => 39,
        FileSystemError::AlreadyExists => 17,
        FileSystemError::StorageFull => 28,
        FileSystemError::ReservedNode => 1,
    }
}

impl FileSystemError {
    /// The errno value that reports the error to the kernel: ENOENT,
    /// ENOTDIR, EISDIR, ENOTEMPTY, EEXIST, ENOSPC or EPERM.
    pub fn errno(&self) -> (r: i32)
        ensures
            r == spec_errno(*self),
    {
        match self {
            FileSystemError::NotFound => 2,
            FileSystemError::NotADirectory => 20,
            FileSystemError::IsADirectory => 21,
            FileSystemError::DirectoryNotEmpty => 39,
            FileSystemError::AlreadyExists => 17,
            FileSystemError::StorageFull => 28,
            FileSystemError::ReservedNode => 1,
        }
    }
}

} // verus!
