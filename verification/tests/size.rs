use rcore_fs::fat::bpb::Bpb;
use rcore_fs::fat::dir_entry::{LongDirEntry, ShortDirEntry};
use rcore_fs::fat::fs_info::FsInfo;

fn bpb_of(disk_size: usize) -> Bpb {
    Bpb::new(disk_size)
}

#[test]
fn bpb() {
    assert_eq!(512, bpb_of(64 * 1024 * 1024).to_bytes().len());
}

#[test]
fn mod_volume() {
    let bpb = bpb_of(64 * 1024 * 1024);
    assert_eq!(512, bpb.to_bytes().len());
    assert_eq!(512, FsInfo::new(&bpb).to_bytes().len());
    assert_eq!(32, ShortDirEntry::default().to_bytes().len());
    assert_eq!(32, LongDirEntry::default().to_bytes().len())
}

#[test]
fn size_volume() {
    assert_eq!(512, Bpb::SIZE);
    assert_eq!(512, FsInfo::SIZE);
    assert_eq!(32, ShortDirEntry::SIZE);
    assert_eq!(32, LongDirEntry::SIZE)
}
