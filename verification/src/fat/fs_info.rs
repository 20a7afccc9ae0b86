//! The FSINFO sector: FAT32 keeps the count of free clusters there.
//! It sits in sector 1, with a backup in sector 7.

use vstd::prelude::*;

use crate::block_cache::splice;
use crate::block_dev::BlockDevice;
use crate::fat::bpb::{push_u32, push_zeros, Bpb};
use crate::fat::sector::CacheManager;
use vstd::bytes::{lemma_auto_spec_u32_to_from_le_bytes, spec_u32_from_le_bytes, spec_u32_to_le_bytes};

verus! {

/// The FSINFO structure. Its reserved bytes are zero on disk and not kept.
#[derive(Debug, Clone, Copy)]
pub struct FsInfo {
    /// 0x41615252.
    pub lead_sig: u32,
    /// 0x61417272.
    pub struc_sig: u32,
    /// Free clusters left; 0xFFFFFFFF when unknown.
    pub free_count: u32,
    /// Where to look for a free cluster; 0xFFFFFFFF when unknown.
    pub nxt_free: u32,
    /// 0xAA550000.
    pub trail_sig: u32,
}

/// The sector that holds the FSINFO structure.
pub const FS_INFO_SECTOR: usize = 1;

/// Byte offset of the free-cluster count in its sector.
pub const FREE_COUNT_OFFSET: usize = 488;

/// The free-cluster count recorded on `disk`.
pub open spec fn disk_free_count(disk: Seq<Seq<u8>>) -> u32 {
    spec_u32_from_le_bytes(disk[FS_INFO_SECTOR as int].subrange(FREE_COUNT_OFFSET as int, FREE_COUNT_OFFSET + 4))
}

/// `disk` with its recorded free-cluster count replaced by `n`.
pub open spec fn with_free_count(disk: Seq<Seq<u8>>, n: u32) -> Seq<Seq<u8>> {
    disk.update(
        FS_INFO_SECTOR as int,
        splice(disk[FS_INFO_SECTOR as int], FREE_COUNT_OFFSET as int, spec_u32_to_le_bytes(n)),
    )
}

impl FsInfo {
    /// Bytes of the structure on disk.
    pub const SIZE: usize = 512;

    /// The FSINFO of a fresh volume that `bpb` describes: every data cluster free.
    pub open spec fn spec_for(bpb: Bpb) -> FsInfo {
        FsInfo {
            lead_sig: 0x41615252,
            struc_sig: 0x61417272,
            free_count: bpb.spec_total_clusters() as u32,
            nxt_free: 0xFFFF_FFFF,
            trail_sig: 0xAA55_0000,
        }
    }

    /// A fresh FSINFO for the volume `bpb` describes: every data cluster free.
    pub fn new(bpb: &Bpb) -> (r: Self)
        requires
            bpb.in_range(),
            bpb.spec_data_area() <= bpb.spec_total_sectors(),
            bpb.sec_per_clus.spec_value() != 0,
        ensures
            r == Self::spec_for(*bpb),
    {
        FsInfo {
            lead_sig: 0x41615252,
            struc_sig: 0x61417272,
            free_count: bpb.total_clusters() as u32,
            nxt_free: 0xFFFF_FFFF,
            trail_sig: 0xAA55_0000,
        }
    }

    /// Free clusters left.
    pub fn free_count(&self) -> (r: usize)
        ensures
            r == self.free_count,
    {
        self.free_count as usize
    }

    /// The structure's bytes on disk.
    pub open spec fn spec_to_bytes(&self) -> Seq<u8> {
        spec_u32_to_le_bytes(self.lead_sig) + Seq::new(480, |i: int| 0u8) + spec_u32_to_le_bytes(self.struc_sig)
            + spec_u32_to_le_bytes(self.free_count) + spec_u32_to_le_bytes(self.nxt_free)
            + Seq::new(12, |i: int| 0u8) + spec_u32_to_le_bytes(self.trail_sig)
    }

    /// The structure's bytes on disk.
    pub fn to_bytes(&self) -> (r: Vec<u8>)
        ensures
            r@ == self.spec_to_bytes(),
            r@.len() == Self::SIZE,
            spec_u32_from_le_bytes(r@.subrange(FREE_COUNT_OFFSET as int, FREE_COUNT_OFFSET + 4)) == self.free_count,
    {
        proof { lemma_auto_spec_u32_to_from_le_bytes(); }
        let mut v: Vec<u8> = Vec::new();
        push_u32(&mut v, self.lead_sig);
        push_zeros(&mut v, 480);
        push_u32(&mut v, self.struc_sig);
        push_u32(&mut v, self.free_count);
        push_u32(&mut v, self.nxt_free);
        push_zeros(&mut v, 12);
        push_u32(&mut v, self.trail_sig);
        assert(v@ =~= self.spec_to_bytes());
        assert(v@.subrange(488, 492) =~= spec_u32_to_le_bytes(self.free_count));
        v
    }
}

/// Reading back the free-cluster count gives what was last recorded.
pub proof fn lemma_free_count_roundtrip(disk: Seq<Seq<u8>>, n: u32)
    requires
        FS_INFO_SECTOR < disk.len(),
        disk[FS_INFO_SECTOR as int].len() == crate::BLOCK_SIZE,
    ensures
        disk_free_count(with_free_count(disk, n)) == n,
        with_free_count(disk, n).len() == disk.len(),
        with_free_count(disk, n)[FS_INFO_SECTOR as int].len() == crate::BLOCK_SIZE,
{
    lemma_auto_spec_u32_to_from_le_bytes();
    let s = splice(disk[1], 488, spec_u32_to_le_bytes(n));
    assert(s.subrange(488, 492) =~= spec_u32_to_le_bytes(n));
}

/// The free-cluster count recorded on the volume.
pub fn free_count<D: BlockDevice>(cache: &mut CacheManager<D>) -> (r: u32)
    requires
        old(cache).wf(),
        FS_INFO_SECTOR < old(cache)@.len(),
    ensures
        final(cache).wf(),
        final(cache)@ == old(cache)@,
        final(cache).device_blocks().len() == old(cache).device_blocks().len(),
        r == disk_free_count(old(cache)@),
{
    cache.read_u32(FS_INFO_SECTOR, FREE_COUNT_OFFSET)
}

/// The free-cluster count after one allocation: one less, staying at zero;
/// the unknown count 0xFFFFFFFF stays unknown.
pub open spec fn count_after_alloc(n: u32) -> u32 {
    if n == 0xFFFF_FFFF {
        n
    } else if n == 0 {
        0
    } else {
        (n - 1) as u32
    }
}

/// The free-cluster count after one release: one more; the unknown count
/// 0xFFFFFFFF stays unknown.
pub open spec fn count_after_free(n: u32) -> u32 {
    if n == 0xFFFF_FFFF {
        n
    } else {
        (n + 1) as u32
    }
}

/// Records that one cluster was allocated: the count drops by one, and
/// stays at zero; an unknown count stays unknown.
pub fn record_alloc<D: BlockDevice>(cache: &mut CacheManager<D>)
    requires
        old(cache).wf(),
        FS_INFO_SECTOR < old(cache)@.len(),
    ensures
        final(cache).wf(),
        final(cache)@ == with_free_count(old(cache)@, count_after_alloc(disk_free_count(old(cache)@))),
        final(cache).device_blocks().len() == old(cache).device_blocks().len(),
{
    let n = cache.read_u32(FS_INFO_SECTOR, FREE_COUNT_OFFSET);
    if n != 0xFFFF_FFFF {
        cache.write_u32(FS_INFO_SECTOR, FREE_COUNT_OFFSET, n.saturating_sub(1));
    } else {
        proof {
            cache.lemma_wf_view();
            lemma_keep_count(cache@);
        }
    }
}

/// Records that one cluster was freed: the count grows by one; an unknown
/// count stays unknown.
pub fn record_free<D: BlockDevice>(cache: &mut CacheManager<D>)
    requires
        old(cache).wf(),
        FS_INFO_SECTOR < old(cache)@.len(),
    ensures
        final(cache).wf(),
        final(cache)@ == with_free_count(old(cache)@, count_after_free(disk_free_count(old(cache)@))),
        final(cache).device_blocks().len() == old(cache).device_blocks().len(),
{
    let n = cache.read_u32(FS_INFO_SECTOR, FREE_COUNT_OFFSET);
    if n != 0xFFFF_FFFF {
        cache.write_u32(FS_INFO_SECTOR, FREE_COUNT_OFFSET, n + 1);
    } else {
        proof {
            cache.lemma_wf_view();
            lemma_keep_count(cache@);
        }
    }
}

/// Recording the count already recorded changes nothing.
proof fn lemma_keep_count(disk: Seq<Seq<u8>>)
    requires
        FS_INFO_SECTOR < disk.len(),
        disk[FS_INFO_SECTOR as int].len() == crate::BLOCK_SIZE,
    ensures
        with_free_count(disk, disk_free_count(disk)) == disk,
{
    lemma_auto_spec_u32_to_from_le_bytes();
    let sb = disk[FS_INFO_SECTOR as int];
    let w = sb.subrange(488, 492);
    assert(spec_u32_to_le_bytes(spec_u32_from_le_bytes(w)) == w);
    assert(splice(sb, 488, w) =~= sb);
    assert(with_free_count(disk, disk_free_count(disk)) =~= disk);
}

/// Recording a release right after an allocation gives back the count
/// recorded before, unless that count was zero, where the allocation left
/// it at zero: [`record_free`] undoes [`record_alloc`].
pub proof fn lemma_free_undoes_alloc(disk: Seq<Seq<u8>>)
    requires
        FS_INFO_SECTOR < disk.len(),
        disk[FS_INFO_SECTOR as int].len() == crate::BLOCK_SIZE,
        disk_free_count(disk) != 0,
    ensures
        ({
            let d1 = with_free_count(disk, count_after_alloc(disk_free_count(disk)));
            with_free_count(d1, count_after_free(disk_free_count(d1))) == disk
        }),
{
    let c = disk_free_count(disk);
    let d1 = with_free_count(disk, count_after_alloc(c));
    lemma_free_count_roundtrip(disk, count_after_alloc(c));
    assert(count_after_free(count_after_alloc(c)) == c);
    lemma_auto_spec_u32_to_from_le_bytes();
    let sb = disk[FS_INFO_SECTOR as int];
    let s1 = splice(sb, 488, spec_u32_to_le_bytes(count_after_alloc(c)));
    assert(splice(s1, 488, spec_u32_to_le_bytes(c)) =~= splice(sb, 488, spec_u32_to_le_bytes(c)));
    assert(with_free_count(d1, c) =~= with_free_count(disk, c));
    lemma_keep_count(disk);
}

} // verus!
