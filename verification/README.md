# edfs

An ephemeral distributed file system. Files written to a FUSE mount are split
into content-addressed chunks and replicated across peers on the local
network; everything lives in memory, and the metadata tree converges through a
CRDT ordered by hybrid logical clocks.

The library under `src/` is written in Verus. Its functions carry contracts
that Verus proves, except for a small set of trusted wrappers around the
outside crates it calls (`sha2`, `fastcdc`, `uuid`, `crdt_tree`) and the
system clock, whose contracts state what those crates do and are not proved.
Convergence of the metadata tree is proved from one such trusted fact: that
`crdt_tree` keeps its tree equal to the replay of its operation log, in
timestamp order.

- `domain`, `digest`, `chunking`: node ids, chunk addresses (SHA-256) and
  content-defined chunking of file data.
- `hlc`, `tree`: the hybrid logical clock and the replicated metadata tree.
- `storage`: pinned chunks within a capacity, and an LRU cache.
- `filesystem`: the file system built from the tree and the store (lookups,
  writes, reads, renames, deletions, reachability of chunks).
- `open_file`, `mount`: open-file buffers, inode numbering, attributes and
  directory listings for the mount.
- `placement`, `network`, `fetcher`: rendezvous hashing of chunk holders, the
  peer protocol's answers, replication and eviction decisions, and the chunk
  fetching state machine.
- `blob_store`, `cli`: the first storage design and the command line.

`app/` holds the program around the library: argument parsing, the FUSE
session, the libp2p swarm and the event loop that carries out the library's
decisions. `tests/` exercises the library on concrete values.
