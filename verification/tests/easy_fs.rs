use rcore_fs::block_cache::BlockCacheManager;
use rcore_fs::block_dev::MemoryDevice;
use rcore_fs::easy_fs::bitmap::Bitmap;
use rcore_fs::easy_fs::super_block::SuperBlock;
use rcore_fs::easy_fs::efs::EasyFileSystem;
use rcore_fs::easy_fs::inode::DiskInode;
use rcore_fs::easy_fs::vfs::StatKind;

fn fresh() -> EasyFileSystem<MemoryDevice> {
    EasyFileSystem::new(MemoryDevice::new(4096), 4096, 1)
}

#[test]
fn easy_fs_create_then_find() {
    let mut fs = fresh();
    let root = fs.root_inode();
    let made = root.create("hello", &mut fs).expect("created");
    let found = root.find("hello", &mut fs).expect("found");
    assert_eq!(made, found);
    assert!(root.find("other", &mut fs).is_none());
}

#[test]
fn easy_fs_create_twice_refused() {
    let mut fs = fresh();
    let root = fs.root_inode();
    assert!(root.create("a", &mut fs).is_some());
    assert!(root.create("a", &mut fs).is_none());
}

#[test]
fn easy_fs_write_then_read() {
    let mut fs = fresh();
    let root = fs.root_inode();
    let file = root.create("data", &mut fs).unwrap();
    let data: Vec<u8> = (0..1500u32).map(|i| (i % 251) as u8).collect();
    assert_eq!(file.write_at(0, &data, &mut fs), 1500);
    let mut back = vec![0u8; 1500];
    assert_eq!(file.read_at(0, &mut back, &mut fs), 1500);
    assert_eq!(back, data);
    let mut tail = vec![0u8; 10];
    assert_eq!(file.read_at(1495, &mut tail, &mut fs), 5);
    assert_eq!(&tail[..5], &data[1495..]);
    assert_eq!(&tail[5..], &[0u8; 5]);
}

#[test]
fn easy_fs_stat_and_links() {
    let mut fs = fresh();
    let root = fs.root_inode();
    let file = root.create("f", &mut fs).unwrap();
    let st = file.stat(&mut fs);
    assert_eq!(st.kind, StatKind::FILE);
    assert_eq!(st.links, 1);
    assert_eq!(st.inode, 1);
    assert_eq!(root.stat(&mut fs).kind, StatKind::DIR);
    assert!(root.link_at("f", "g", &mut fs).is_some());
    assert_eq!(file.stat(&mut fs).links, 2);
    assert_eq!(root.find("g", &mut fs), Some(file));
    assert!(root.unlink_at("g", &mut fs).is_some());
    assert_eq!(file.stat(&mut fs).links, 1);
    assert!(root.find("g", &mut fs).is_none());
    assert!(root.link_at("missing", "h", &mut fs).is_none());
    assert!(root.unlink_at("missing", &mut fs).is_none());
}

#[test]
fn easy_fs_stat_kind_bits() {
    assert_eq!(StatKind::DIR.bits(), 0o040000);
    assert_eq!(StatKind::FILE.bits(), 0o100000);
    assert_eq!(StatKind::default(), StatKind::FILE);
}

#[test]
fn easy_fs_reopen_keeps_files() {
    let mut fs = fresh();
    let root = fs.root_inode();
    let file = root.create("keep", &mut fs).unwrap();
    file.write_at(0, b"persisted", &mut fs);
    let dev = fs.cache.into_device();
    let mut fs2 = EasyFileSystem::open(dev);
    let root2 = fs2.root_inode();
    let file2 = root2.find("keep", &mut fs2).unwrap();
    let mut buf = [0u8; 9];
    assert_eq!(file2.read_at(0, &mut buf, &mut fs2), 9);
    assert_eq!(&buf, b"persisted");
}

#[test]
fn easy_fs_total_blocks_count_index_blocks() {
    assert_eq!(DiskInode::count_total_block(0), 0);
    assert_eq!(DiskInode::count_total_block(13312), 26);
    assert_eq!(DiskInode::count_total_block(13313), 28);
    assert_eq!(DiskInode::count_total_block(78848), 155);
    assert_eq!(DiskInode::count_total_block(78849), 158);
    assert_eq!(DiskInode::count_total_block(8533504), 16801);
}

#[test]
fn easy_fs_clear_frees_blocks() {
    let mut fs = fresh();
    let root = fs.root_inode();
    let file = root.create("big", &mut fs).unwrap();
    let data: Vec<u8> = (0..1_400_000u32).map(|i| (i % 253) as u8).collect();
    assert_eq!(file.write_at(0, &data, &mut fs), data.len());
    file.clear(&mut fs);
    let mut one = [7u8; 1];
    assert_eq!(file.read_at(0, &mut one, &mut fs), 0);
    assert_eq!(one, [7u8]);
    let again: Vec<u8> = data.iter().map(|b| b.wrapping_add(1)).collect();
    assert_eq!(file.write_at(0, &again, &mut fs), again.len());
    let mut back = vec![0u8; again.len()];
    assert_eq!(file.read_at(0, &mut back, &mut fs), again.len());
    assert_eq!(back, again);
}

#[test]
fn easy_fs_unlink_last_link_frees_blocks() {
    let mut fs = fresh();
    let root = fs.root_inode();
    let file = root.create("big", &mut fs).unwrap();
    let data: Vec<u8> = (0..1_400_000u32).map(|i| (i % 239) as u8).collect();
    assert_eq!(file.write_at(0, &data, &mut fs), data.len());
    assert!(root.unlink_at("big", &mut fs).is_some());
    assert!(root.find("big", &mut fs).is_none());
    let other = root.create("other", &mut fs).unwrap();
    let again: Vec<u8> = data.iter().map(|b| b ^ 0x5a).collect();
    assert_eq!(other.write_at(0, &again, &mut fs), again.len());
    let mut back = vec![0u8; again.len()];
    assert_eq!(other.read_at(0, &mut back, &mut fs), again.len());
    assert_eq!(back, again);
}

#[test]
fn easy_fs_third_level_file() {
    let total: u32 = 32768;
    let mut fs = EasyFileSystem::new(MemoryDevice::new(total as usize), total, 1);
    let root = fs.root_inode();
    let file = root.create("huge", &mut fs).unwrap();
    let len = 9_000_000usize;
    let data: Vec<u8> = (0..len as u32).map(|i| (i % 251) as u8 ^ (i >> 16) as u8).collect();
    assert_eq!(file.write_at(0, &data, &mut fs), len);
    let mut back = vec![0u8; len];
    assert_eq!(file.read_at(0, &mut back, &mut fs), len);
    assert!(back == data);
    let mut tail = vec![0u8; 1000];
    assert_eq!(file.read_at(len - 500, &mut tail, &mut fs), 500);
    assert_eq!(&tail[..500], &data[len - 500..]);
    file.clear(&mut fs);
    let again: Vec<u8> = data.iter().map(|b| b.wrapping_add(7)).collect();
    assert_eq!(file.write_at(0, &again, &mut fs), len);
    let mut back2 = vec![0u8; len];
    assert_eq!(file.read_at(0, &mut back2, &mut fs), len);
    assert!(back2 == again);
}

#[test]
fn easy_fs_disk_inode_third_level_roundtrip() {
    let mut dev_fs = EasyFileSystem::new(MemoryDevice::new(32768), 32768, 1);
    let root = dev_fs.root_inode();
    let file = root.create("f", &mut dev_fs).unwrap();
    let size = 8_533_504usize;
    let data = vec![3u8; size];
    assert_eq!(file.write_at(0, &data, &mut dev_fs), size);
    assert_eq!(DiskInode::count_total_block(size as u32), 16801);
}

#[test]
fn easy_fs_zero_super_block_invalid() {
    let sb = SuperBlock::from_bytes(&[0u8; 24]);
    assert!(!sb.is_valid());
    let good = SuperBlock::new(100, 1, 2, 3, 4);
    assert!(good.is_valid());
    let back = SuperBlock::from_bytes(&good.to_bytes());
    assert!(back.is_valid());
    assert_eq!(back.data_area_blocks, 4);
}

#[test]
fn easy_fs_bitmap_free_then_take_again() {
    let mut cache = BlockCacheManager::new(MemoryDevice::new(8));
    let bm = Bitmap::new(1, 1);
    assert_eq!(bm.allocate(&mut cache), Some(0));
    assert_eq!(bm.allocate(&mut cache), Some(1));
    bm.dealloc(&mut cache, 0);
    assert_eq!(bm.allocate(&mut cache), Some(0));
    assert_eq!(bm.allocate(&mut cache), Some(2));
}

#[test]
fn easy_fs_create_reuses_emptied_entry() {
    let mut fs = fresh();
    let root = fs.root_inode();
    root.create("a", &mut fs).unwrap();
    let b = root.create("b", &mut fs).unwrap();
    assert!(root.unlink_at("a", &mut fs).is_some());
    assert!(root.find("a", &mut fs).is_none());
    let c = root.create("c", &mut fs).unwrap();
    assert_ne!(c, b);
    let mut dir = vec![0u8; 96];
    assert_eq!(root.read_at(0, &mut dir, &mut fs), 64);
    assert_eq!(dir[0], b'c');
    assert_eq!(dir[1], 0);
    assert_eq!(dir[32], b'b');
    assert_eq!(root.find("b", &mut fs), Some(b));
    assert_eq!(root.find("c", &mut fs), Some(c));
}
