use rcore_fs::block_dev::MemoryDevice;
use rcore_fs::fat::bpb::{Bpb, ClusterSectors, SectorBytes};
use rcore_fs::fat::fs_info::{free_count, record_alloc, record_free};
use rcore_fs::fat::sector::{sync_all, CacheManager};
use rcore_fs::fat::cluster::{ClusterError, ClusterId};
use rcore_fs::fat::control::FatFileSystem;
use rcore_fs::fat::dir_entry::{dirents2name, name2dirents, ShortDirEntry};
use rcore_fs::fat::inode::{DirEntryType, Error, Inode};

const DISK: usize = 64 * 1024 * 1024;

fn fresh() -> FatFileSystem<MemoryDevice> {
    let mut fs = FatFileSystem::new(DISK, MemoryDevice::new(DISK / 512));
    fs.foramt();
    fs
}

#[test]
fn fat_create_write_read() {
    let mut fs = fresh();
    let root = Inode::root();
    let mut file = root.create_file("hello.txt", &mut fs).unwrap();
    assert_eq!(file.kind(), DirEntryType::Regular);
    assert_eq!(file.write_at(0, b"hello world", &mut fs), 11);
    let mut buf = [0u8; 11];
    assert_eq!(file.read_at(0, &mut buf, &mut fs), 11);
    assert_eq!(&buf, b"hello world");
    let found = root.find("hello.txt", &mut fs).unwrap();
    assert_eq!(found.id(), file.id());
    let st = found.stat(&mut fs);
    assert_eq!(st.size, 11);
    assert_eq!(st.block_size, 512);
    assert_eq!(st.blocks, fs.data().cluster_sectors as u64);
}

#[test]
fn fat_create_twice_refused() {
    let mut fs = fresh();
    let root = Inode::root();
    assert!(root.create_file("a", &mut fs).is_ok());
    assert_eq!(root.create_file("a", &mut fs).err(), Some(Error::AlreadyExists));
}

#[test]
fn fat_ls_lists_names() {
    let mut fs = fresh();
    let root = Inode::root();
    root.create_file("first", &mut fs).unwrap();
    root.mkdir("second", &mut fs).unwrap();
    let list = root.ls_at(0, 10, &mut fs);
    assert_eq!(list.len(), 2);
    assert_eq!(list[0].name, "first");
    assert_eq!(list[0].ty, DirEntryType::Regular);
    assert_eq!(list[1].name, "second");
    assert_eq!(list[1].ty, DirEntryType::Directory);
    let rest = root.ls_at(1, 10, &mut fs);
    assert_eq!(rest.len(), 1);
    assert_eq!(rest[0].name, "second");
}

#[test]
fn fat_mkdir_find_path_rmdir() {
    let mut fs = fresh();
    let mut root = Inode::root();
    let dir = root.mkdir("sub", &mut fs).unwrap();
    assert_eq!(dir.kind(), DirEntryType::Directory);
    assert!(dir.is_empty_dir(&mut fs));
    dir.create_file("inner", &mut fs).unwrap();
    dir.create_file("inner2", &mut fs).unwrap();
    assert!(!dir.is_empty_dir(&mut fs));
    let inner = root.find("sub/inner", &mut fs).unwrap();
    assert_eq!(inner.kind(), DirEntryType::Regular);
    assert!(root.find("inner", &mut fs).is_none());
    assert!(root.find("sub/none", &mut fs).is_none());
    assert!(root.find("sub/inner/x", &mut fs).is_none());
    assert_eq!(root.rmdir("sub", &mut fs), Err(Error::DirectoryNotEmpty));
    let mut sub = root.find("sub", &mut fs).unwrap();
    assert_eq!(sub.unlink("inner2", &mut fs), Ok(()));
    assert!(root.find("sub/inner2", &mut fs).is_none());
    assert!(root.find("sub/inner", &mut fs).is_some());
    root.mkdir("empty", &mut fs).unwrap();
    assert_eq!(root.rmdir("empty", &mut fs), Ok(()));
    assert!(root.find("empty", &mut fs).is_none());
    assert!(root.find("sub", &mut fs).is_some());
}

#[test]
fn fat_unlink_errors() {
    let mut fs = fresh();
    let mut root = Inode::root();
    root.mkdir("d", &mut fs).unwrap();
    root.create_file("f", &mut fs).unwrap();
    assert_eq!(root.unlink("nothing", &mut fs), Err(Error::NotFound));
    assert_eq!(root.unlink("d", &mut fs), Err(Error::IsADirectory));
    assert_eq!(root.rmdir("f", &mut fs), Err(Error::NotADirectory));
    assert_eq!(root.unlink("f", &mut fs), Ok(()));
    assert!(root.find("f", &mut fs).is_none());
}

#[test]
fn fat_long_name_roundtrip() {
    let name = "a rather long file name.txt";
    let (short, longs) = name2dirents(name);
    assert_eq!(longs.len(), 2);
    let in_name_order: Vec<_> = longs.iter().rev().cloned().collect();
    assert_eq!(dirents2name(&in_name_order), name);
    for l in &longs {
        assert_eq!(l.chksum, short.checksum());
    }
    assert_eq!(longs[0].ord, 0x42);
    assert_eq!(longs[1].ord, 0x01);
}

#[test]
fn fat_checksum_value() {
    let mut e = ShortDirEntry::default();
    e.name = *b"FOO     BAR";
    let mut sum: u8 = 0;
    for b in b"FOO     BAR" {
        sum = (if sum & 1 == 1 { 0x80u8 } else { 0 }).wrapping_add(sum >> 1).wrapping_add(*b);
    }
    assert_eq!(e.checksum(), sum);
}

#[test]
fn fat_cluster_validate() {
    assert_eq!(ClusterId::free().validate(), Err(ClusterError::Free));
    assert_eq!(ClusterId::eof().validate(), Err(ClusterError::Eof));
    assert_eq!(ClusterId::bad().validate(), Err(ClusterError::Defective));
    assert_eq!(ClusterId::new(1).validate(), Err(ClusterError::Reserved));
    assert_eq!(ClusterId::min().validate(), Ok(ClusterId::min()));
    let (lo, hi) = ClusterId::new(0x0123_4567).split();
    assert_eq!((lo, hi), (0x4567, 0x0123));
    assert_eq!(ClusterId::from_halves(lo, hi), ClusterId::new(0x0123_4567));
}

#[test]
fn fat_clear_frees_chain() {
    let mut fs = fresh();
    let root = Inode::root();
    let mut file = root.create_file("big", &mut fs).unwrap();
    let data = vec![7u8; 512];
    assert_eq!(file.write_at(0, &data, &mut fs), 512);
    assert!(file.id() >= 2);
    file.clear(&mut fs);
    assert_eq!(file.id(), 0);
    let again = root.find("big", &mut fs).unwrap();
    assert_eq!(again.stat(&mut fs).size, 0);
}

#[test]
fn fat_rename_in_place_keeps_contents() {
    let mut fs = fresh();
    let root = Inode::root();
    root.create_file("keep", &mut fs).unwrap();
    let mut a = root.create_file("a", &mut fs).unwrap();
    assert_eq!(a.write_at(0, b"payload", &mut fs), 7);
    assert_eq!(root.rename("a", None, "renamed.txt", &mut fs), Ok(()));
    assert!(root.find("a", &mut fs).is_none());
    let b = root.find("renamed.txt", &mut fs).unwrap();
    assert_eq!(b.id(), a.id());
    let mut buf = [0u8; 7];
    assert_eq!(b.read_at(0, &mut buf, &mut fs), 7);
    assert_eq!(&buf, b"payload");
    assert!(root.find("keep", &mut fs).is_some());
    assert_eq!(root.rename("missing", None, "z", &mut fs), Err(Error::NotFound));
}

#[test]
fn fat_rename_into_other_directory() {
    let mut fs = fresh();
    let root = Inode::root();
    root.create_file("keep", &mut fs).unwrap();
    let mut sub = root.mkdir("sub", &mut fs).unwrap();
    sub.create_file("pad", &mut fs).unwrap();
    sub.mkdir("target", &mut fs).unwrap();
    let mv = root.mkdir("mv", &mut fs).unwrap();
    // the name is free in the other directory: nothing happens
    assert_eq!(root.rename("mv", Some(&mut sub), "free", &mut fs), Ok(()));
    assert!(root.find("mv", &mut fs).is_some());
    assert!(root.find("sub/free", &mut fs).is_none());
    // a file cannot replace a directory, a directory cannot replace a file
    assert_eq!(root.rename("keep", Some(&mut sub), "target", &mut fs), Err(Error::IsADirectory));
    assert_eq!(root.rename("mv", Some(&mut sub), "pad", &mut fs), Err(Error::NotADirectory));
    // a directory replaces an empty directory
    assert_eq!(root.rename("mv", Some(&mut sub), "target", &mut fs), Ok(()));
    assert!(root.find("mv", &mut fs).is_none());
    let moved = root.find("sub/target", &mut fs).unwrap();
    assert_eq!(moved.kind(), DirEntryType::Directory);
    assert_eq!(moved.id(), mv.id());
}

#[test]
fn fat_bpb_bytes_roundtrip() {
    let bpb = Bpb::new(DISK);
    let bytes = bpb.to_bytes();
    let back = Bpb::from_bytes(&bytes).unwrap();
    assert_eq!(back.to_bytes(), bytes);
    assert_eq!(back.tot_sec32, bpb.tot_sec32);
    assert_eq!(back.fat_sz32, bpb.fat_sz32);
    assert_eq!(back.byts_per_sec, SectorBytes::B512);
    let mut bad_sig = bytes.clone();
    bad_sig[510] = 0;
    assert!(Bpb::from_bytes(&bad_sig).is_none());
    let mut bad_size = bytes.clone();
    bad_size[11] = 3;
    assert!(Bpb::from_bytes(&bad_size).is_none());
    assert!(Bpb::from_bytes(&bytes[..511]).is_none());
}

#[test]
fn fat_load_after_format() {
    let mut fs = fresh();
    let root = Inode::root();
    let mut file = root.create_file("kept", &mut fs).unwrap();
    assert_eq!(file.write_at(0, b"persisted", &mut fs), 9);
    sync_all(&mut fs.cache);
    let bpb = fs.bpb;
    let dev = fs.cache.into_device();
    let mut again = FatFileSystem::load(dev).unwrap();
    assert_eq!(again.bpb.to_bytes(), bpb.to_bytes());
    assert_eq!(again.data().cluster_sectors, fs_cluster_sectors());
    let found = root.find("kept", &mut again).unwrap();
    let mut buf = [0u8; 9];
    assert_eq!(found.read_at(0, &mut buf, &mut again), 9);
    assert_eq!(&buf, b"persisted");
}

fn fs_cluster_sectors() -> usize {
    fresh().data().cluster_sectors
}

#[test]
fn fat_load_blank_device_refused() {
    assert!(FatFileSystem::load(MemoryDevice::new(16)).is_none());
}

#[test]
fn fat_write_then_read_second_sector() {
    let mut fs = fresh();
    let root = Inode::root();
    let mut file = root.create_file("blocks", &mut fs).unwrap();
    let first = [7u8; 512];
    let second: Vec<u8> = (0..512u32).map(|i| (i % 251) as u8).collect();
    assert_eq!(file.write_at(0, &first, &mut fs), 512);
    assert_eq!(file.write_at(512, &second, &mut fs), 512);
    let mut buf = vec![0u8; 512];
    assert_eq!(file.read_at(512, &mut buf, &mut fs), 512);
    assert_eq!(buf, second);
    assert_eq!(file.read_at(0, &mut buf, &mut fs), 512);
    assert_eq!(buf, first.to_vec());
    assert_eq!(file.stat(&mut fs).size, 1024);
}

#[test]
fn fat_bpb_cluster_size_by_sectors() {
    assert!(matches!(Bpb::new(64 * 1024 * 1024).sec_per_clus, ClusterSectors::S1));
    assert!(matches!(Bpb::new(260 * 1024 * 1024).sec_per_clus, ClusterSectors::S1));
    assert!(matches!(Bpb::new(261 * 1024 * 1024).sec_per_clus, ClusterSectors::S8));
    assert!(matches!(Bpb::new(4 * 1024 * 1024 * 1024).sec_per_clus, ClusterSectors::S8));
    assert!(matches!(Bpb::new(12 * 1024 * 1024 * 1024).sec_per_clus, ClusterSectors::S16));
}

#[test]
fn fat_remove_first_items() {
    let mut fs = fresh();
    let mut root = Inode::root();
    root.create_file("only", &mut fs).unwrap();
    assert_eq!(root.unlink("only", &mut fs), Ok(()));
    assert!(root.find("only", &mut fs).is_none());
    root.create_file("again", &mut fs).unwrap();
    let mut sub = root.mkdir("sub", &mut fs).unwrap();
    sub.create_file("first", &mut fs).unwrap();
    sub.create_file("second", &mut fs).unwrap();
    assert_eq!(sub.unlink("first", &mut fs), Ok(()));
    assert!(root.find("sub/first", &mut fs).is_none());
    assert!(root.find("sub/second", &mut fs).is_some());
    assert_eq!(sub.unlink("second", &mut fs), Ok(()));
    assert!(sub.is_empty_dir(&mut fs));
    assert_eq!(root.rmdir("again", &mut fs), Err(Error::NotADirectory));
    assert_eq!(root.unlink("again", &mut fs), Ok(()));
    assert_eq!(root.rmdir("sub", &mut fs), Ok(()));
    assert!(root.find("sub", &mut fs).is_none());
}

#[test]
fn fat_write_and_read_inside_sectors() {
    let mut fs = fresh();
    let root = Inode::root();
    let mut file = root.create_file("rand", &mut fs).unwrap();
    assert_eq!(file.write_at(0, b"hello world", &mut fs), 11);
    assert_eq!(file.write_at(3, b"XY", &mut fs), 2);
    let mut all = [0u8; 11];
    assert_eq!(file.read_at(0, &mut all, &mut fs), 11);
    assert_eq!(&all, b"helXY world");
    let mut tail = [9u8; 8];
    assert_eq!(file.read_at(6, &mut tail, &mut fs), 5);
    assert_eq!(&tail[..5], b"world");
    assert_eq!(&tail[5..], &[9u8; 3]);
    let data: Vec<u8> = (0..1300u32).map(|i| (i % 241) as u8).collect();
    assert_eq!(file.write_at(700, &data, &mut fs), 1300);
    let mut back = vec![0u8; 1300];
    assert_eq!(file.read_at(700, &mut back, &mut fs), 1300);
    assert_eq!(back, data);
    let mut head = [0u8; 11];
    assert_eq!(file.read_at(0, &mut head, &mut fs), 11);
    assert_eq!(&head, b"helXY world");
}

#[test]
fn fat_free_count_records() {
    let mut cache = CacheManager::new(MemoryDevice::new(8));
    cache.write(1, 488, &0xFFFF_FFFFu32.to_le_bytes());
    record_alloc(&mut cache);
    assert_eq!(free_count(&mut cache), 0xFFFF_FFFF);
    record_free(&mut cache);
    assert_eq!(free_count(&mut cache), 0xFFFF_FFFF);
    cache.write(1, 488, &5u32.to_le_bytes());
    record_alloc(&mut cache);
    assert_eq!(free_count(&mut cache), 4);
    record_free(&mut cache);
    assert_eq!(free_count(&mut cache), 5);
    cache.write(1, 488, &0u32.to_le_bytes());
    record_alloc(&mut cache);
    assert_eq!(free_count(&mut cache), 0);
}

#[test]
fn fat_cursor_starts_at_chain_head() {
    let mut fs = fresh();
    let mut cur = fs.data_sector_cursor(ClusterId::new(2));
    let first = cur.sector();
    assert!(!cur.prev(&mut fs));
    assert_eq!(cur.sector(), first);
}
