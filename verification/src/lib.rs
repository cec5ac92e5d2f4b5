//! An ephemeral distributed file system: content-addressed chunk storage,
//! a replicated metadata tree ordered by hybrid logical clocks, and the
//! bookkeeping that the mount and the network layer build on.
pub mod digest;
pub mod domain;
pub mod hlc;
pub mod chunking;
pub mod storage;
pub mod tree;
pub mod error;
pub mod filesystem;
pub mod open_file;
pub mod mount;
pub mod placement;
pub mod network;
pub mod blob_store;
pub mod cli;
pub mod fetcher;
