use edfs::domain::{NodeId, NodeMeta};
use edfs::mount::{directory_entries, open_check, opendir_check, readlink_target, statfs_blocks, to_attr, FileKind, INodeMap};
use edfs::open_file::{OpenFile, OpenFileError, OpenFileManager};

fn file(name: &str, size: u64) -> NodeMeta {
    NodeMeta::RegularFile { name: name.to_string(), size, chunk_refs: vec![] }
}

#[test]
fn root_has_inode_one() {
    let map = INodeMap::new();
    assert_eq!(map.get_node_id(1).unwrap().as_u128(), 0);
    assert!(map.get_node_id(2).is_none());
    assert!(map.has_room_for(0));
    assert!(map.has_room_for(1000));
    assert!(!map.has_room_for(u64::MAX - 2));
}

#[test]
fn inode_numbers_are_assigned_once() {
    let mut map = INodeMap::new();
    let a = NodeId::from_u128(100);
    let b = NodeId::from_u128(200);
    let ia = map.get_or_assign_ino(a);
    let ib = map.get_or_assign_ino(b);
    assert_eq!(ia, 2);
    assert_eq!(ib, 3);
    assert_eq!(map.get_or_assign_ino(a), 2);
    assert_eq!(map.get_or_assign_ino(NodeId::root()), 1);
    assert_eq!(map.get_node_id(ia).unwrap().as_u128(), 100);
    assert_eq!(map.get_node_id(ib).unwrap().as_u128(), 200);
    assert_ne!(ia, ib);
}

#[test]
fn attributes_of_each_kind() {
    let dir = to_attr(&NodeMeta::Directory { name: "d".to_string() }, 5);
    assert_eq!(dir.ino, 5);
    assert_eq!(dir.kind, FileKind::Directory);
    assert_eq!(dir.size, 512);
    assert_eq!(dir.blocks, 1);
    assert_eq!(dir.nlink, 2);
    assert_eq!(dir.perm, 0o777);
    assert_eq!(dir.blksize, 512);
    let f = to_attr(&file("f", 1025), 6);
    assert_eq!(f.kind, FileKind::RegularFile);
    assert_eq!(f.size, 1025);
    assert_eq!(f.blocks, 3);
    assert_eq!(f.nlink, 1);
    let empty = to_attr(&file("e", 0), 7);
    assert_eq!(empty.blocks, 0);
    let link = to_attr(&NodeMeta::Symlink { name: "l".to_string(), target: "héllo".to_string() }, 8);
    assert_eq!(link.kind, FileKind::Symlink);
    assert_eq!(link.size, 6);
    assert_eq!(link.blocks, 1);
}

#[test]
fn statfs_rounds_total_up_and_free_down() {
    assert_eq!(statfs_blocks(1000, 1000), (2, 1));
    assert_eq!(statfs_blocks(1024, 511), (2, 0));
    assert_eq!(statfs_blocks(0, 0), (0, 0));
}

#[test]
fn open_checks_by_kind() {
    assert_eq!(open_check(&file("f", 0)), Ok(()));
    assert_eq!(open_check(&NodeMeta::Directory { name: "d".to_string() }), Err(21));
    assert_eq!(open_check(&NodeMeta::Symlink { name: "l".to_string(), target: "t".to_string() }), Err(22));
    assert_eq!(opendir_check(&NodeMeta::Directory { name: "d".to_string() }), Ok(()));
    assert_eq!(opendir_check(&file("f", 0)), Err(20));
    assert_eq!(readlink_target(NodeMeta::Symlink { name: "l".to_string(), target: "to/here".to_string() }), Ok(b"to/here".to_vec()));
    assert_eq!(readlink_target(file("f", 0)), Err(22));
}

#[test]
fn directory_listing_offsets() {
    let mut map = INodeMap::new();
    let parent = NodeId::root();
    let children = vec![
        (NodeId::from_u128(10), "a".to_string(), file("a", 1)),
        (NodeId::from_u128(11), "b".to_string(), NodeMeta::Directory { name: "b".to_string() }),
    ];
    let all = directory_entries(&mut map, 1, parent, children, 0);
    assert_eq!(all.len(), 4);
    assert_eq!(all[0].name, ".");
    assert_eq!(all[0].ino, 1);
    assert_eq!(all[1].name, "..");
    assert_eq!(all[1].ino, 1);
    assert_eq!(all[2].name, "a");
    assert_eq!(all[2].kind, FileKind::RegularFile);
    assert_eq!(map.get_node_id(all[2].ino).unwrap().as_u128(), 10);
    assert_eq!(all[3].name, "b");
    assert_eq!(all[3].kind, FileKind::Directory);
    assert_eq!(all.iter().map(|e| e.next_offset).collect::<Vec<_>>(), vec![1, 2, 3, 4]);
    let rest = directory_entries(&mut map, 1, parent, vec![(NodeId::from_u128(10), "a".to_string(), file("a", 1))], 2);
    assert_eq!(rest.len(), 1);
    assert_eq!(rest[0].name, "a");
    assert_eq!(rest[0].next_offset, 3);
    assert_eq!(rest[0].ino, all[2].ino);
    assert!(directory_entries(&mut map, 1, parent, vec![], 5).is_empty());
}

#[test]
fn open_file_reads_what_was_written() {
    let mut files = OpenFileManager::new();
    files.create_file(1, file("f", 0));
    assert_eq!(files.needs_buffer(1).ok(), Some(false));
    assert_eq!(files.write(1, 3, b"abc").ok(), Some(3));
    assert_eq!(files.read(1, 0, 10), Some(vec![0, 0, 0, b'a', b'b', b'c']));
    assert_eq!(files.read(1, 3, 3), Some(b"abc".to_vec()));
    assert_eq!(files.read(1, 10, 3), Some(vec![]));
    match files.metadata(1).unwrap() {
        NodeMeta::RegularFile { size, .. } => assert_eq!(size, 6),
        _ => panic!("not a file"),
    }
    assert_eq!(files.write(1, 1, b"Z").ok(), Some(1));
    assert_eq!(files.release_file(1), Some(vec![0, b'Z', 0, b'a', b'b', b'c']));
    assert!(files.metadata(1).is_none());
}

#[test]
fn open_file_without_buffer() {
    let mut files = OpenFileManager::new();
    files.open_file(2, file("f", 4));
    assert_eq!(files.needs_buffer(2).ok(), Some(true));
    assert_eq!(files.read(2, 0, 4), None);
    match files.write(2, 0, b"x") {
        Err(OpenFileError::BadHandle) => {}
        _ => panic!("wrote without a buffer"),
    }
    files.set_buffer(2, b"data".to_vec());
    assert_eq!(files.read(2, 1, 2), Some(b"at".to_vec()));
    assert_eq!(files.release_file(2), None);
}

#[test]
fn open_file_errors() {
    let mut files = OpenFileManager::new();
    match files.needs_buffer(9) {
        Err(e) => assert_eq!(e.errno(), 9),
        Ok(_) => panic!("unknown handle"),
    }
    match files.write(9, 0, b"x") {
        Err(OpenFileError::BadHandle) => {}
        _ => panic!("unknown handle written"),
    }
    files.create_file(3, file("f", 0));
    match files.write(3, u64::MAX, b"x") {
        Err(e) => {
            assert_eq!(e.errno(), 27);
            match e {
                OpenFileError::TooLarge => {}
                _ => panic!("wrong error"),
            }
        }
        Ok(_) => panic!("wrote past the end"),
    }
    assert_eq!(files.release_file(3), None);
    assert_eq!(files.release_file(3), None);
}

#[test]
fn open_file_record() {
    let f = OpenFile::new(file("f", 1), Some(vec![1]));
    assert!(!f.dirty);
    assert_eq!(f.buffer, Some(vec![1]));
}
