use edfs::domain::{NodeId, NodeMeta};
use edfs::error::FileSystemError;
use edfs::filesystem::FileSystem;
use edfs::storage::ChunkStorage;
use edfs::tree::{NodeOperation, NodeTree, PeerKey};
use sha2::Digest;

fn peer(tag: u8) -> PeerKey {
    PeerKey { bytes: vec![tag; 4] }
}

fn fs_with(tag: u8, capacity: usize) -> FileSystem {
    FileSystem::new(NodeTree::new(peer(tag)), ChunkStorage::new(capacity))
}

fn fs() -> FileSystem {
    fs_with(1, 1 << 20)
}

fn v5(parent: u128, name: &str) -> u128 {
    uuid::Uuid::new_v5(&uuid::Uuid::from_u128(parent), name.as_bytes()).as_u128()
}

fn create_file(fs: &mut FileSystem, parent: NodeId, name: &str) -> (NodeId, Vec<NodeOperation>) {
    let (entry, ops) = fs.create_file(parent, name).ok().unwrap().into_parts();
    (entry.node_id, ops)
}

fn err_name(e: FileSystemError) -> &'static str {
    match e {
        FileSystemError::NotFound => "NotFound",
        FileSystemError::ReservedNode => "ReservedNode",
        FileSystemError::StorageFull => "StorageFull",
        FileSystemError::NotADirectory => "NotADirectory",
        FileSystemError::IsADirectory => "IsADirectory",
        FileSystemError::DirectoryNotEmpty => "DirectoryNotEmpty",
        FileSystemError::AlreadyExists => "AlreadyExists",
    }
}

#[test]
fn root_is_an_unnamed_directory() {
    let fs = fs();
    match fs.metadata(NodeId::root()).ok().unwrap() {
        NodeMeta::Directory { name } => assert_eq!(name, ""),
        _ => panic!("root is not a directory"),
    }
    assert_eq!(fs.list_directory(NodeId::root()).ok().unwrap().len(), 0);
    assert_eq!(fs.parent_id(NodeId::from_u128(42)).as_u128(), 0);
}

#[test]
fn created_file_gets_a_name_based_id_and_can_be_looked_up() {
    let mut fs = fs();
    let (id, ops) = create_file(&mut fs, NodeId::root(), "a.txt");
    assert_eq!(id.as_u128(), v5(0, "a.txt"));
    assert_eq!(ops.len(), 1);
    assert_eq!(ops[0].child_id.as_u128(), id.as_u128());
    assert_eq!(ops[0].parent_id.as_u128(), 0);
    assert_eq!(fs.child_id(NodeId::root(), "a.txt").ok().unwrap().as_u128(), id.as_u128());
    match fs.metadata(id).ok().unwrap() {
        NodeMeta::RegularFile { name, size, chunk_refs } => {
            assert_eq!(name, "a.txt");
            assert_eq!(size, 0);
            assert!(chunk_refs.is_empty());
        }
        _ => panic!("not a file"),
    }
    assert_eq!(fs.parent_id(id).as_u128(), 0);
}

#[test]
fn creating_an_existing_name_fails() {
    let mut fs = fs();
    create_file(&mut fs, NodeId::root(), "a");
    assert_eq!(err_name(fs.create_directory(NodeId::root(), "a").err().unwrap()), "AlreadyExists");
}

#[test]
fn write_then_read_gives_the_data_back() {
    let mut fs = fs();
    let (id, _) = create_file(&mut fs, NodeId::root(), "f");
    let data: Vec<u8> = (0..5000u32).map(|i| (i % 251) as u8).collect();
    let (_, ops) = fs.write_file(id, &data).ok().unwrap().into_parts();
    assert_eq!(ops.len(), 1);
    assert_eq!(fs.read_file_all(id).ok().unwrap(), data);
    assert_eq!(fs.read_file(id, 10, 20).ok().unwrap(), data[10..30].to_vec());
    assert_eq!(fs.read_file(id, 4990, 100).ok().unwrap(), data[4990..].to_vec());
    assert_eq!(fs.read_file(id, 6000, 10).ok().unwrap(), Vec::<u8>::new());
    match fs.metadata(id).ok().unwrap() {
        NodeMeta::RegularFile { size, .. } => assert_eq!(size, 5000),
        _ => panic!("not a file"),
    }
    assert!(fs.free_bytes() <= (1 << 20) - 5000);
}

#[test]
fn writing_past_capacity_fails() {
    let mut fs = fs_with(1, 10);
    let (id, _) = create_file(&mut fs, NodeId::root(), "f");
    assert_eq!(err_name(fs.write_file(id, &[1u8; 20]).err().unwrap()), "StorageFull");
    assert_eq!(fs.read_file_all(id).ok().unwrap(), Vec::<u8>::new());
}

#[test]
fn errors_for_missing_and_wrong_kinds() {
    let mut fs = fs();
    let ghost = NodeId::from_u128(77);
    assert_eq!(err_name(fs.metadata(ghost).err().unwrap()), "NotFound");
    assert_eq!(err_name(fs.write_file(ghost, b"x").err().unwrap()), "NotFound");
    let (file, _) = create_file(&mut fs, NodeId::root(), "f");
    let (dir, _) = fs.create_directory(NodeId::root(), "d").ok().unwrap().into_parts();
    assert_eq!(err_name(fs.list_directory(file).err().unwrap()), "NotADirectory");
    assert_eq!(err_name(fs.write_file(dir.node_id, b"x").err().unwrap()), "IsADirectory");
    assert_eq!(err_name(fs.read_file(dir.node_id, 0, 1).err().unwrap()), "IsADirectory");
    assert_eq!(err_name(fs.delete_directory(NodeId::root(), "f").err().unwrap()), "NotADirectory");
    assert_eq!(err_name(fs.delete_file(NodeId::root(), "d").err().unwrap()), "IsADirectory");
    assert_eq!(err_name(fs.delete_file(NodeId::root(), "nope").err().unwrap()), "NotFound");
    assert_eq!(err_name(fs.child_id(NodeId::root(), "nope").err().unwrap()), "NotFound");
    assert_eq!(err_name(fs.missing_chunk_hashes_for(dir.node_id, 0, 1).err().unwrap()), "IsADirectory");
}

#[test]
fn a_directory_with_children_cannot_be_deleted() {
    let mut fs = fs();
    let (dir, _) = fs.create_directory(NodeId::root(), "d").ok().unwrap().into_parts();
    create_file(&mut fs, dir.node_id, "inner");
    assert_eq!(err_name(fs.delete_directory(NodeId::root(), "d").err().unwrap()), "DirectoryNotEmpty");
    fs.delete_file(dir.node_id, "inner").ok().unwrap();
    assert!(fs.delete_directory(NodeId::root(), "d").is_ok());
    assert_eq!(err_name(fs.child_id(NodeId::root(), "d").err().unwrap()), "NotFound");
}

#[test]
fn deleted_file_is_gone() {
    let mut fs = fs();
    let (id, _) = create_file(&mut fs, NodeId::root(), "f");
    let (_, ops) = fs.delete_file(NodeId::root(), "f").ok().unwrap().into_parts();
    assert_eq!(ops.len(), 1);
    assert_eq!(ops[0].parent_id.as_u128(), u128::MAX);
    assert_eq!(err_name(fs.metadata(id).err().unwrap()), "NotFound");
    assert_eq!(err_name(fs.child_id(NodeId::root(), "f").err().unwrap()), "NotFound");
    assert_eq!(fs.list_directory(NodeId::root()).ok().unwrap().len(), 0);
}

#[test]
fn rename_moves_and_renames() {
    let mut fs = fs();
    let (id, _) = create_file(&mut fs, NodeId::root(), "old");
    let (dir, _) = fs.create_directory(NodeId::root(), "d").ok().unwrap().into_parts();
    fs.rename(NodeId::root(), "old", dir.node_id, "new").ok().unwrap();
    assert_eq!(fs.child_id(dir.node_id, "new").ok().unwrap().as_u128(), id.as_u128());
    assert_eq!(err_name(fs.child_id(NodeId::root(), "old").err().unwrap()), "NotFound");
    assert_eq!(fs.metadata(id).ok().unwrap().name(), "new");
    assert_eq!(err_name(fs.rename(NodeId::root(), "missing", dir.node_id, "x").err().unwrap()), "NotFound");
}

#[test]
fn reserved_nodes_cannot_be_moved_or_deleted() {
    let mut tree = NodeTree::new(peer(3));
    match tree.delete_node(NodeId::root()) {
        Err(edfs::tree::NodeTreeError::ReservedNode) => {}
        _ => panic!("the root was deleted"),
    }
    match tree.move_node(NodeId::trash(), NodeId::root(), NodeMeta::Directory { name: "t".to_string() }) {
        Err(edfs::tree::NodeTreeError::NotFound) => {}
        _ => panic!("a node the tree does not hold was moved"),
    }
    match tree.delete_node(NodeId::trash()) {
        Err(edfs::tree::NodeTreeError::ReservedNode) => {}
        _ => panic!("the trash was deleted"),
    }
    match tree.delete_node(NodeId::from_u128(9)) {
        Err(edfs::tree::NodeTreeError::NotFound) => {}
        _ => panic!("an unknown node was deleted"),
    }
}

#[test]
fn truncate_shrinks_and_grows_only_the_size() {
    let mut fs = fs();
    let (id, _) = create_file(&mut fs, NodeId::root(), "f");
    fs.write_file(id, b"hello world").ok().unwrap();
    fs.truncate_file(id, 5).ok().unwrap();
    assert_eq!(fs.read_file_all(id).ok().unwrap(), b"hello".to_vec());
    fs.truncate_file(id, 8).ok().unwrap();
    match fs.metadata(id).ok().unwrap() {
        NodeMeta::RegularFile { size, chunk_refs, .. } => {
            assert_eq!(size, 8);
            assert_eq!(chunk_refs.len(), 1);
            assert_eq!(chunk_refs[0].size, 5);
        }
        _ => panic!("not a file"),
    }
    assert_eq!(fs.read_file_all(id).ok().unwrap(), b"hello".to_vec());
    let (dir, _) = fs.create_directory(NodeId::root(), "d").ok().unwrap().into_parts();
    assert_eq!(err_name(fs.truncate_file(dir.node_id, 0).err().unwrap()), "IsADirectory");
}

#[test]
fn symlink_keeps_its_target() {
    let mut fs = fs();
    let (entry, _) = fs.create_symlink(NodeId::root(), "l", "target/path".to_string()).ok().unwrap().into_parts();
    match fs.metadata(entry.node_id).ok().unwrap() {
        NodeMeta::Symlink { name, target } => {
            assert_eq!(name, "l");
            assert_eq!(target, "target/path");
        }
        _ => panic!("not a link"),
    }
}

#[test]
fn listing_shows_each_child_once() {
    let mut fs = fs();
    create_file(&mut fs, NodeId::root(), "a");
    create_file(&mut fs, NodeId::root(), "b");
    fs.create_directory(NodeId::root(), "c").ok().unwrap();
    let mut names: Vec<String> = fs.list_directory(NodeId::root()).ok().unwrap().into_iter().map(|(_, n, _)| n).collect();
    names.sort();
    assert_eq!(names, vec!["a".to_string(), "b".to_string(), "c".to_string()]);
}

#[test]
fn reachable_chunks_skip_deleted_files() {
    let mut fs = fs();
    let (kept, _) = create_file(&mut fs, NodeId::root(), "kept");
    let (dir, _) = fs.create_directory(NodeId::root(), "d").ok().unwrap().into_parts();
    let (nested, _) = create_file(&mut fs, dir.node_id, "nested");
    let (gone, _) = create_file(&mut fs, NodeId::root(), "gone");
    fs.write_file(kept, b"kept data").ok().unwrap();
    fs.write_file(nested, b"nested data").ok().unwrap();
    fs.write_file(gone, b"gone data").ok().unwrap();
    fs.delete_file(NodeId::root(), "gone").ok().unwrap();
    let reachable = fs.reachable_chunk_hashes();
    assert_eq!(reachable.len(), 2);
    let sha = |d: &[u8]| -> [u8; 32] { sha2::Sha256::digest(d).into() };
    let has = |d: &[u8]| reachable.iter().any(|h| h.as_bytes() == &sha(d));
    assert!(has(b"kept data"));
    assert!(has(b"nested data"));
    assert!(!has(b"gone data"));
}

#[test]
fn reachable_chunks_list_shared_chunks_once() {
    let mut fs = fs();
    let (a, _) = create_file(&mut fs, NodeId::root(), "a");
    let (b, _) = create_file(&mut fs, NodeId::root(), "b");
    fs.write_file(a, b"same").ok().unwrap();
    fs.write_file(b, b"same").ok().unwrap();
    assert_eq!(fs.reachable_chunk_hashes().len(), 1);
}

#[test]
fn missing_chunks_are_those_not_stored() {
    let mut source = fs_with(1, 1 << 20);
    let (id, ops) = create_file(&mut source, NodeId::root(), "f");
    let (_, write_ops) = source.write_file(id, b"remote bytes").ok().unwrap().into_parts();
    let mut replica = fs_with(2, 1 << 20);
    replica.apply_operations(ops);
    replica.apply_operations(write_ops);
    let missing = replica.missing_chunk_hashes_for(id, 0, 100).ok().unwrap();
    assert_eq!(missing.len(), 1);
    assert!(source.missing_chunk_hashes_for(id, 0, 100).ok().unwrap().is_empty());
    let data = source.chunk(&missing[0]).unwrap();
    replica.cache_chunk(data);
    assert!(replica.missing_chunk_hashes_for(id, 0, 100).ok().unwrap().is_empty());
    assert_eq!(replica.read_file_all(id).ok().unwrap(), b"remote bytes".to_vec());
    assert!(replica.is_cached(&missing[0]));
}

#[test]
fn operations_replicate_between_peers() {
    let mut a = fs_with(1, 1 << 20);
    let mut b = fs_with(2, 1 << 20);
    let (dir, ops1) = a.create_directory(NodeId::root(), "shared").ok().unwrap().into_parts();
    let (_, ops2) = a.create_file(dir.node_id, "x").ok().unwrap().into_parts();
    b.apply_operations(ops1);
    b.apply_operations(ops2);
    let x = b.child_id(dir.node_id, "x").ok().unwrap();
    assert_eq!(x.as_u128(), v5(dir.node_id.as_u128(), "x"));
    let missing = a.operations_missing_from(&b.operation_ids());
    assert!(missing.is_empty());
    let back = b.operations_missing_from(&vec![]);
    assert_eq!(back.len(), 2);
}

#[test]
fn nothing_is_missing_from_own_ids() {
    let mut a = fs();
    create_file(&mut a, NodeId::root(), "a");
    create_file(&mut a, NodeId::root(), "b");
    assert_eq!(a.operation_ids().len(), 2);
    assert!(a.operations_missing_from(&a.operation_ids()).is_empty());
}

#[test]
fn pinning_and_eviction_through_the_file_system() {
    let mut fs = fs_with(1, 100);
    assert!(fs.pin_chunk(b"pinned".to_vec()).is_ok());
    let hashes = fs.pinned_hashes();
    assert_eq!(hashes.len(), 1);
    assert!(fs.is_pinned(&hashes[0]));
    assert_eq!(fs.capacity_bytes(), 100);
    assert_eq!(fs.free_bytes(), 94);
    assert!(fs.evict_chunk(&hashes[0]));
    assert!(!fs.is_pinned(&hashes[0]));
    fs.cache_chunk(b"cached".to_vec());
    assert_eq!(fs.pinned_hashes().len(), 0);
    let mut small = fs_with(1, 2);
    assert_eq!(err_name(small.pin_chunk(b"too big".to_vec()).err().unwrap()), "StorageFull");
}

#[test]
fn errno_values() {
    assert_eq!(FileSystemError::NotFound.errno(), 2);
    assert_eq!(FileSystemError::NotADirectory.errno(), 20);
    assert_eq!(FileSystemError::IsADirectory.errno(), 21);
    assert_eq!(FileSystemError::DirectoryNotEmpty.errno(), 39);
    assert_eq!(FileSystemError::AlreadyExists.errno(), 17);
    assert_eq!(FileSystemError::StorageFull.errno(), 28);
    assert_eq!(FileSystemError::ReservedNode.errno(), 1);
}

#[test]
fn write_then_truncate_reads_back_the_prefix() {
    let mut fs = fs();
    let (id, _) = create_file(&mut fs, NodeId::root(), "t");
    let data: Vec<u8> = (0..3000u32).map(|i| (i % 241) as u8).collect();
    fs.write_file(id, &data).ok().unwrap();
    fs.truncate_file(id, 1234).ok().unwrap();
    assert_eq!(fs.read_file_all(id).ok().unwrap(), data[..1234].to_vec());
    fs.truncate_file(id, 0).ok().unwrap();
    assert_eq!(fs.read_file_all(id).ok().unwrap(), Vec::<u8>::new());
}
