use pltz::pattern::FloatTable;
use pltz::pltzfs::dir::DirEntry;
use pltz::pltzfs::fs::{FsError, PltzFs, ROOT_INO};
use pltz::pltzfs::inode::Inode;
use pltz::pltzfs::storage::{Storage, StorageError, NUM_PLATTERS, PLATTER_BITMAP, PLATTER_DIRS};

#[test]
fn test_basic_operations() {
    let table = FloatTable::new();
    let mut fs = PltzFs::new(1024);

    // Create files
    let f1 = fs.create_file(ROOT_INO, "ramp.bin", &(0..=255u8).collect::<Vec<_>>()).unwrap();
    let f2 = fs.create_file(ROOT_INO, "zeros.bin", &[0u8; 1024]).unwrap();
    let f3 = fs.create_file(ROOT_INO, "hello.txt", b"Hello, pltzfs!").unwrap();

    // Read back
    assert_eq!(fs.read_file(f1).unwrap(), &(0..=255u8).collect::<Vec<_>>());
    assert_eq!(fs.read_file(f2).unwrap(), &[0u8; 1024]);
    assert_eq!(fs.read_file(f3).unwrap(), b"Hello, pltzfs!");

    // Directory listing
    let entries = fs.readdir(ROOT_INO).unwrap();
    assert_eq!(entries.len(), 5); // . + .. + 3 files

    // Lookup
    assert_eq!(fs.lookup(ROOT_INO, "ramp.bin"), Some(f1));
    assert_eq!(fs.lookup(ROOT_INO, "nonexistent"), None);

    // Mkdir
    let dir_ino = fs.mkdir(ROOT_INO, "subdir").unwrap();
    let f4 = fs.create_file(dir_ino, "nested.bin", &[0xAB; 512]).unwrap();
    assert_eq!(fs.read_file(f4).unwrap(), &[0xAB; 512]);

    // Sync and check compression
    let total_size = fs.sync(&table);
    let raw_size: usize = 256 + 1024 + 14 + 512; // sum of file data
    println!("Raw data: {}B, Compressed FS image: {}B", raw_size, total_size);
    assert!(total_size < raw_size, "FS should compress: {} >= {}", total_size, raw_size);
}

#[test]
fn test_platter_stats() {
    let table = FloatTable::new();
    let mut fs = PltzFs::new(4096);

    // Create structured data (should compress well on platter 2)
    for i in 0..100 {
        let data: Vec<u8> = (0..=255u8).cycle().skip(i).take(256).collect();
        fs.create_file(ROOT_INO, &format!("file_{:03}.bin", i), &data).unwrap();
    }

    fs.sync(&table);
    let stats = fs.stats(&table);
    println!("Platter stats:");
    for (name, raw, comp) in &stats {
        let ratio = if *raw > 0 { *comp as f64 / *raw as f64 } else { 0.0 };
        println!("  {:<20} {:>8}B raw → {:>8}B compressed ({:.3})", name, raw, comp, ratio);
    }
}

#[test]
fn stats_name_each_platter_with_its_raw_size() {
    let table = FloatTable::new();
    let mut fs = PltzFs::new(64);
    fs.create_file(ROOT_INO, "a.bin", &[7u8; 600]).unwrap();
    fs.sync(&table);
    let stats = fs.stats(&table);
    let names: Vec<&str> = stats.iter().map(|s| s.0).collect();
    assert_eq!(names, vec!["inodes", "dirs", "data_structured", "data_raw", "bitmap"]);
    // root and one file, 128 bytes each; ".", ".." and "a.bin", 256 bytes each
    assert_eq!(stats[0].1, 256);
    assert_eq!(stats[1].1, 768);
    assert_eq!(stats[2].1 + stats[3].1, 600);
    // 64 blocks need an 8-byte bitmap
    assert_eq!(stats[4].1, 8);
}

#[test]
fn create_in_missing_parent_is_refused() {
    let mut fs = PltzFs::new(16);
    assert_eq!(fs.create_file(99, "x", b"abc"), Err(FsError::ParentNotDirectory));
    assert_eq!(fs.mkdir(99, "d"), Err(FsError::ParentNotDirectory));
}

#[test]
fn create_in_a_file_is_refused() {
    let mut fs = PltzFs::new(16);
    let f = fs.create_file(ROOT_INO, "x", b"abc").unwrap();
    assert_eq!(fs.create_file(f, "y", b"abc"), Err(FsError::ParentNotDirectory));
}

#[test]
fn create_without_space_is_refused() {
    let mut fs = PltzFs::new(2);
    assert_eq!(fs.create_file(ROOT_INO, "big", &[1u8; 1500]), Err(FsError::NoSpace));
    // the blocks taken before space ran out stay taken
    assert_eq!(fs.create_file(ROOT_INO, "small", &[1u8; 10]), Err(FsError::NoSpace));
    assert_eq!(fs.lookup(ROOT_INO, "big"), None);
    // two blocks are enough for 1024 bytes
    let mut fresh = PltzFs::new(2);
    assert!(fresh.create_file(ROOT_INO, "fits", &[1u8; 1024]).is_ok());
}

#[test]
fn reading_missing_things_fails() {
    let fs = PltzFs::new(16);
    assert_eq!(fs.read_file(42).err(), Some(FsError::FileNotFound));
    assert_eq!(fs.readdir(42).err(), Some(FsError::NotADirectory));
    assert!(fs.stat(42).is_none());
}

#[test]
fn stat_and_listing_of_a_new_file() {
    let mut fs = PltzFs::new(16);
    let f = fs.create_file(ROOT_INO, "hello.txt", b"Hello").unwrap();
    assert_eq!(f, 2);
    let st = fs.stat(f).unwrap();
    assert_eq!(st.size, 5);
    assert_eq!(st.blocks, 1);
    assert_eq!(st.nlink, 1);
    assert!(!st.is_dir());
    assert!(fs.stat(ROOT_INO).unwrap().is_dir());
    let entries = fs.readdir(ROOT_INO).unwrap();
    assert_eq!(entries[0].name, ".");
    assert_eq!(entries[1].name, "..");
    assert_eq!(entries[2].name, "hello.txt");
    assert_eq!(entries[2].ino, f);
}

#[test]
fn mkdir_lists_dot_and_dotdot() {
    let mut fs = PltzFs::new(16);
    let d = fs.mkdir(ROOT_INO, "sub").unwrap();
    let entries = fs.readdir(d).unwrap();
    assert_eq!(entries.len(), 2);
    assert_eq!((entries[0].ino, entries[0].name.as_str()), (d, "."));
    assert_eq!((entries[1].ino, entries[1].name.as_str()), (ROOT_INO, ".."));
    assert_eq!(fs.lookup(ROOT_INO, "sub"), Some(d));
}

#[test]
fn free_undoes_alloc() {
    let mut st = Storage::new(20);
    let before = st.read_platter(PLATTER_BITMAP).to_vec();
    let b = st.alloc_block().unwrap();
    assert_eq!(b, 0);
    assert_ne!(st.read_platter(PLATTER_BITMAP), before.as_slice());
    st.free_block(b);
    assert_eq!(st.read_platter(PLATTER_BITMAP), before.as_slice());
}

#[test]
fn alloc_takes_blocks_in_order_until_full() {
    let mut st = Storage::new(3);
    assert_eq!(st.alloc_block(), Some(0));
    assert_eq!(st.alloc_block(), Some(1));
    assert_eq!(st.alloc_block(), Some(2));
    assert_eq!(st.alloc_block(), None);
    st.free_block(1);
    assert_eq!(st.alloc_block(), Some(1));
}

#[test]
fn storage_serialize_deserialize_roundtrip() {
    let table = FloatTable::new();
    let mut st = Storage::new(100);
    st.write_platter(PLATTER_DIRS, (0..=255u8).collect());
    let off = st.append_platter(PLATTER_DIRS, b"tail");
    assert_eq!(off, 256);
    let img = st.serialize(&table);
    assert_eq!(&img[0..4], b"PZFS");
    let back = Storage::deserialize(&img, &table).unwrap();
    for p in 0..NUM_PLATTERS {
        assert_eq!(back.read_platter(p), st.read_platter(p));
    }
}

#[test]
fn deserialize_refuses_bad_magic() {
    let table = FloatTable::new();
    let st = Storage::new(8);
    let mut img = st.serialize(&table);
    img[0] = b'X';
    assert_eq!(Storage::deserialize(&img, &table).err(), Some(StorageError::BadMagic));
}

#[test]
fn deserialize_refuses_wrong_platter_count() {
    let table = FloatTable::new();
    let st = Storage::new(8);
    let mut img = st.serialize(&table);
    img[12] = 4;
    assert_eq!(Storage::deserialize(&img, &table).err(), Some(StorageError::PlatterCount(4)));
}

#[test]
fn inode_bytes_roundtrip() {
    let mut ino = Inode::new_file(7, 1000, 100);
    ino.size = 1234;
    ino.blocks = 3;
    ino.block_addrs = vec![5, 6, 9];
    let bytes = ino.to_bytes();
    assert_eq!(bytes.len(), 128);
    let back = Inode::from_bytes(&bytes).unwrap();
    assert_eq!(back.ino, 7);
    assert_eq!(back.mode, 0o100644);
    assert_eq!((back.uid, back.gid), (1000, 100));
    assert_eq!((back.size, back.blocks), (1234, 3));
    assert_eq!(back.block_addrs, vec![5, 6, 9]);
    assert_eq!(back.atime, ino.atime);
    assert!(Inode::from_bytes(&bytes[..100]).is_none());
}

#[test]
fn dir_entry_bytes_roundtrip() {
    let e = DirEntry { ino: 300, name: "notes.txt".to_string() };
    let bytes = e.to_bytes();
    assert_eq!(bytes.len(), 256);
    assert_eq!(&bytes[0..8], &300u64.to_le_bytes());
    let back = DirEntry::from_bytes(&bytes).unwrap();
    assert_eq!(back.ino, 300);
    assert_eq!(back.name, "notes.txt");
    assert!(DirEntry::from_bytes(&bytes[..255]).is_none());
}

#[test]
fn dir_entry_name_stays_inside_its_record() {
    let mut bytes = vec![0x61u8; 300];
    bytes[0..8].copy_from_slice(&5u64.to_le_bytes());
    bytes[280] = 0;
    let e = DirEntry::from_bytes(&bytes).unwrap();
    assert_eq!(e.ino, 5);
    assert_eq!(e.name.len(), 248);
    bytes[20] = 0;
    assert_eq!(DirEntry::from_bytes(&bytes).unwrap().name, "a".repeat(12));
}

#[test]
fn new_inode_numbers_are_fresh() {
    let mut fs = PltzFs::new(64);
    let a = fs.create_file(ROOT_INO, "a", b"hello").unwrap();
    let d = fs.mkdir(ROOT_INO, "d").unwrap();
    let b = fs.create_file(d, "b", b"world").unwrap();
    assert!(a > ROOT_INO && d > a && b > d);
}
