use edfs::blob_store::{meta_attr, Meta, StorageData};
use edfs::mount::FileKind;
use edfs::cli::{Args, LogLevel};

#[test]
fn blob_store_keeps_first_blob_within_budget() {
    let mut store = StorageData::new(10);
    assert!(store.get(&b"k".to_vec()).is_none());
    assert!(store.insert(b"k".to_vec(), b"12345".to_vec()));
    assert_eq!(store.get(&b"k".to_vec()), Some(&b"12345".to_vec()));
    assert!(store.insert(b"k".to_vec(), b"abc".to_vec()));
    assert_eq!(store.get(&b"k".to_vec()), Some(&b"12345".to_vec()));
    assert!(!store.insert(b"j".to_vec(), b"123456".to_vec()));
    assert!(store.get(&b"j".to_vec()).is_none());
    assert!(store.insert(b"j".to_vec(), b"1".to_vec()));
    assert_eq!(store.get(&b"j".to_vec()), Some(&b"1".to_vec()));
}

#[test]
fn first_design_meta_names() {
    let f = Meta::File { name: "f".to_string(), size: 1, hashes: vec![] };
    let d = Meta::Directory { name: "d".to_string() };
    assert_eq!(f.name(), "f");
    assert_eq!(d.name(), "d");
}

#[test]
fn log_level_names() {
    assert_eq!(LogLevel::Trace.as_str(), "trace");
    assert_eq!(LogLevel::Debug.as_str(), "debug");
    assert_eq!(LogLevel::Info.as_str(), "info");
    assert_eq!(LogLevel::Warn.as_str(), "warn");
    assert_eq!(LogLevel::Error.as_str(), "error");
}

#[test]
fn storage_option_in_bytes() {
    let args = Args { secret: "s".to_string(), mountpoint: "mnt".to_string(), log_level: LogLevel::Info, max_storage: 128 };
    assert_eq!(args.capacity_bytes(), Some(128 * 1024 * 1024));
    let huge = Args { secret: "s".to_string(), mountpoint: "mnt".to_string(), log_level: LogLevel::Info, max_storage: u64::MAX };
    assert_eq!(huge.capacity_bytes(), None);
}

#[test]
fn first_mount_attributes() {
    let f = meta_attr(&Meta::File { name: "f".to_string(), size: 513, hashes: vec![] }, 4);
    assert_eq!(f.ino, 4);
    assert_eq!(f.kind, FileKind::RegularFile);
    assert_eq!(f.size, 513);
    assert_eq!(f.blocks, 2);
    assert_eq!(f.blksize, 512);
    assert_eq!(f.nlink, 1);
    let d = meta_attr(&Meta::Directory { name: "d".to_string() }, 1);
    assert_eq!(d.kind, FileKind::Directory);
    assert_eq!(d.size, 4096);
    assert_eq!(d.blocks, 8);
    assert_eq!(d.blksize, 4096);
    assert_eq!(d.nlink, 2);
}

#[test]
fn blob_store_budget_counts_stored_bytes() {
    let mut s = StorageData::new(10);
    assert!(s.insert(vec![1], vec![0; 8]));
    assert!(!s.insert(vec![2], vec![0; 3]));
    assert!(s.get(&vec![2]).is_none());
    assert!(s.insert(vec![2], vec![7; 2]));
    assert_eq!(s.get(&vec![2]), Some(&vec![7, 7]));
    assert_eq!(s.get(&vec![1]), Some(&vec![0; 8]));
    assert!(!s.insert(vec![3], vec![1]));
}
