//! The BIOS Parameter Block: the first sector of the reserved area, which
//! describes the layout of the volume.

use vstd::prelude::*;

use crate::fat::sector::SectorId;
use crate::layout::u32_at;
use vstd::bytes::{
    lemma_auto_spec_u32_to_from_le_bytes, spec_u32_to_le_bytes, u32_from_le_bytes, u32_to_le_bytes,
};

verus! {

/// Bytes per sector.
#[derive(Debug, Clone, Copy, PartialEq, Eq, Structural)]
pub enum SectorBytes {
    B512,
    B1024,
    B2048,
    B4096,
}

impl SectorBytes {
    /// The size of `v` bytes, where it is one of the four.
    pub fn from_value(v: u16) -> (r: Option<Self>)
        ensures
            match r {
                Some(x) => x.spec_value() == v,
                None => forall|x: Self| x.spec_value() != v,
            },
    {
        match v {
            512 => Some(SectorBytes::B512),
            1024 => Some(SectorBytes::B1024),
            2048 => Some(SectorBytes::B2048),
            4096 => Some(SectorBytes::B4096),
            _ => None,
        }
    }

    pub open spec fn spec_value(self) -> u16 {
        match self {
            SectorBytes::B512 => 512,
            SectorBytes::B1024 => 1024,
            SectorBytes::B2048 => 2048,
            SectorBytes::B4096 => 4096,
        }
    }

    /// The number of bytes.
    pub fn value(self) -> (r: u16)
        ensures
            r == self.spec_value(),
    {
        match self {
            SectorBytes::B512 => 512,
            SectorBytes::B1024 => 1024,
            SectorBytes::B2048 => 2048,
            SectorBytes::B4096 => 4096,
        }
    }
}

/// Sectors per cluster.
#[derive(Debug, Clone, Copy, PartialEq, Eq, Structural)]
pub enum ClusterSectors {
    S0,
    S1,
    S2,
    S4,
    S8,
    S16,
    S32,
    S64,
    S128,
}

impl ClusterSectors {
    /// The cluster size of `v` sectors, where it is zero or a power of
    /// two up to 128.
    pub fn from_value(v: u8) -> (r: Option<Self>)
        ensures
            match r {
                Some(x) => x.spec_value() == v,
                None => forall|x: Self| x.spec_value() != v,
            },
    {
        match v {
            0 => Some(ClusterSectors::S0),
            1 => Some(ClusterSectors::S1),
            2 => Some(ClusterSectors::S2),
            4 => Some(ClusterSectors::S4),
            8 => Some(ClusterSectors::S8),
            16 => Some(ClusterSectors::S16),
            32 => Some(ClusterSectors::S32),
            64 => Some(ClusterSectors::S64),
            128 => Some(ClusterSectors::S128),
            _ => None,
        }
    }

    pub open spec fn spec_value(self) -> u8 {
        match self {
            ClusterSectors::S0 => 0,
            ClusterSectors::S1 => 1,
            ClusterSectors::S2 => 2,
            ClusterSectors::S4 => 4,
            ClusterSectors::S8 => 8,
            ClusterSectors::S16 => 16,
            ClusterSectors::S32 => 32,
            ClusterSectors::S64 => 64,
            ClusterSectors::S128 => 128,
        }
    }

    /// The number of sectors.
    pub fn value(self) -> (r: u8)
        ensures
            r == self.spec_value(),
    {
        match self {
            ClusterSectors::S0 => 0,
            ClusterSectors::S1 => 1,
            ClusterSectors::S2 => 2,
            ClusterSectors::S4 => 4,
            ClusterSectors::S8 => 8,
            ClusterSectors::S16 => 16,
            ClusterSectors::S32 => 32,
            ClusterSectors::S64 => 64,
            ClusterSectors::S128 => 128,
        }
    }
}

/// The kind of medium.
#[derive(Debug, Clone, Copy, PartialEq, Eq, Structural)]
pub enum Media {
    Fixed,
    Removable,
}

impl Media {
    /// The medium the byte `v` stands for, if any.
    pub fn from_value(v: u8) -> (r: Option<Self>)
        ensures
            match r {
                Some(x) => x.spec_value() == v,
                None => forall|x: Self| x.spec_value() != v,
            },
    {
        match v {
            0xF8 => Some(Media::Fixed),
            0xF0 => Some(Media::Removable),
            _ => None,
        }
    }

    pub open spec fn spec_value(self) -> u8 {
        match self {
            Media::Fixed => 0xF8,
            Media::Removable => 0xF0,
        }
    }

    /// The byte that stands for the medium.
    pub fn value(self) -> (r: u8)
        ensures
            r == self.spec_value(),
    {
        match self {
            Media::Fixed => 0xF8,
            Media::Removable => 0xF0,
        }
    }
}

/// Whether the volume id, label and type fields are present.
#[derive(Debug, Clone, Copy, PartialEq, Eq, Structural)]
pub enum BootSignature {
    Present,
    Unset,
}

impl BootSignature {
    /// The signature the byte `v` stands for, if any.
    pub fn from_value(v: u8) -> (r: Option<Self>)
        ensures
            match r {
                Some(x) => x.spec_value() == v,
                None => forall|x: Self| x.spec_value() != v,
            },
    {
        match v {
            0x29 => Some(BootSignature::Present),
            0x00 => Some(BootSignature::Unset),
            _ => None,
        }
    }

    pub open spec fn spec_value(self) -> u8 {
        match self {
            BootSignature::Present => 0x29,
            BootSignature::Unset => 0x00,
        }
    }

    /// The byte that stands for the signature.
    pub fn value(self) -> (r: u8)
        ensures
            r == self.spec_value(),
    {
        match self {
            BootSignature::Present => 0x29,
            BootSignature::Unset => 0x00,
        }
    }
}

/// The three FAT variants, told apart by the number of clusters.
#[derive(Debug, Clone, Copy, PartialEq, Eq, Structural)]
pub enum FatType {
    T12,
    T16,
    T32,
}

/// Bits 0-3: the active FAT when mirroring is off; bit 7: 0 mirrors the
/// FAT into all FATs at runtime, 1 keeps only the active one.
#[derive(Debug, Clone, Copy, PartialEq, Eq, Structural)]
pub struct ExtFlags(pub u16);

impl Default for ExtFlags {
    fn default() -> (r: Self)
        ensures
            r.0 == 0x80,
    {
        ExtFlags(0x80)
    }
}

/// Picks the sectors per cluster from the disk size in sectors: the first
/// row whose bound is not below the size, else the last row.
#[derive(Debug)]
pub struct DiskSz2SecPerClus {
    pub base: [(usize, ClusterSectors); 6],
}

/// Sectors per cluster for a FAT32 disk of `disk_sectors` sectors: none up
/// to 32.5 MiB, then 0.5 KiB clusters up to 260 MiB, 4 KiB up to 8 GiB,
/// 8 KiB up to 16 GiB, 16 KiB up to 32 GiB, 32 KiB past that.
pub open spec fn spec_sec_per_clus(disk_sectors: usize) -> ClusterSectors {
    if disk_sectors <= 66600 {
        ClusterSectors::S0
    } else if disk_sectors <= 532480 {
        ClusterSectors::S1
    } else if disk_sectors <= 16777216 {
        ClusterSectors::S8
    } else if disk_sectors <= 33554432 {
        ClusterSectors::S16
    } else if disk_sectors <= 67108864 {
        ClusterSectors::S32
    } else {
        ClusterSectors::S64
    }
}

/// The index of the first row of `base` from `i` on whose bound is not below `d`; 6 if none.
pub open spec fn first_fit(base: Seq<(usize, ClusterSectors)>, d: usize, i: int) -> int
    decreases 6 - i,
{
    if i >= 6 {
        6
    } else if d <= base[i].0 {
        i
    } else {
        first_fit(base, d, i + 1)
    }
}

impl DiskSz2SecPerClus {
    /// The table of sectors per cluster for FAT32 disks.
    pub fn fat32() -> (r: Self)
        ensures
            r.base@ == seq![
                (66600usize, ClusterSectors::S0),
                (532480usize, ClusterSectors::S1),
                (16777216usize, ClusterSectors::S8),
                (33554432usize, ClusterSectors::S16),
                (67108864usize, ClusterSectors::S32),
                (usize::MAX, ClusterSectors::S64),
            ],
    {
        let r = DiskSz2SecPerClus {
            base: [
                (66600, ClusterSectors::S0),
                (532480, ClusterSectors::S1),
                (16777216, ClusterSectors::S8),
                (33554432, ClusterSectors::S16),
                (67108864, ClusterSectors::S32),
                (usize::MAX, ClusterSectors::S64),
            ],
        };
        assert(r.base@ =~= seq![
            (66600usize, ClusterSectors::S0),
            (532480usize, ClusterSectors::S1),
            (16777216usize, ClusterSectors::S8),
            (33554432usize, ClusterSectors::S16),
            (67108864usize, ClusterSectors::S32),
            (usize::MAX, ClusterSectors::S64),
        ]);
        r
    }

    /// Sectors per cluster for a disk of `disk_size` sectors.
    pub fn get(&self, disk_size: usize) -> (r: ClusterSectors)
        ensures
            r == if first_fit(self.base@, disk_size, 0) < 6 {
                self.base@[first_fit(self.base@, disk_size, 0)].1
            } else {
                self.base@[5].1
            },
    {
        let mut i: usize = 0;
        while i < 6
            invariant
                i <= 6,
                first_fit(self.base@, disk_size, 0) == first_fit(self.base@, disk_size, i as int),
            decreases 6 - i,
        {
            if disk_size <= self.base[i].0 {
                return self.base[i].1;
            }
            i = i + 1;
        }
        self.base[5].1
    }
}

/// The sectors per cluster of the FAT32 table.
pub proof fn lemma_fat32_table(disk_size: usize, t: DiskSz2SecPerClus)
    requires
        t.base@ == seq![
            (66600usize, ClusterSectors::S0),
            (532480usize, ClusterSectors::S1),
            (16777216usize, ClusterSectors::S8),
            (33554432usize, ClusterSectors::S16),
            (67108864usize, ClusterSectors::S32),
            (usize::MAX, ClusterSectors::S64),
        ],
    ensures
        (if first_fit(t.base@, disk_size, 0) < 6 {
            t.base@[first_fit(t.base@, disk_size, 0)].1
        } else {
            t.base@[5].1
        }) == spec_sec_per_clus(disk_size),
{
    reveal_with_fuel(first_fit, 7);
}


/// The little-endian bytes of a `u16`.
pub open spec fn le16(x: u16) -> Seq<u8> {
    seq![(x % 256) as u8, (x / 256) as u8]
}

/// The little-endian `u16` at byte `off` of `s`.
pub open spec fn u16_at(s: Seq<u8>, off: int) -> u16 {
    (s[off] + 256 * s[off + 1]) as u16
}

/// Appends `x` as two little-endian bytes.
pub fn push_u16(v: &mut Vec<u8>, x: u16)
    ensures
        final(v)@ == old(v)@ + le16(x),
{
    v.push((x % 256) as u8);
    v.push((x / 256) as u8);
    assert(v@ =~= old(v)@ + le16(x));
}

/// Appends `x` as four little-endian bytes.
pub fn push_u32(v: &mut Vec<u8>, x: u32)
    ensures
        final(v)@ == old(v)@ + spec_u32_to_le_bytes(x),
{
    let b = u32_to_le_bytes(x);
    v.push(b[0]);
    v.push(b[1]);
    v.push(b[2]);
    v.push(b[3]);
    assert(v@ =~= old(v)@ + spec_u32_to_le_bytes(x));
}

/// Appends the bytes of `a`.
pub fn push_bytes(v: &mut Vec<u8>, a: &[u8])
    ensures
        final(v)@ == old(v)@ + a@,
{
    let mut i: usize = 0;
    while i < a.len()
        invariant
            i <= a@.len(),
            v@ == old(v)@ + a@.subrange(0, i as int),
        decreases a@.len() - i,
    {
        v.push(a[i]);
        i = i + 1;
        assert(v@ =~= old(v)@ + a@.subrange(0, i as int));
    }
    assert(a@.subrange(0, a@.len() as int) =~= a@);
}

/// Appends `n` zero bytes.
pub fn push_zeros(v: &mut Vec<u8>, n: usize)
    ensures
        final(v)@ == old(v)@ + Seq::new(n as nat, |i: int| 0u8),
{
    let mut i: usize = 0;
    while i < n
        invariant
            i <= n,
            v@ =~= old(v)@ + Seq::new(i as nat, |k: int| 0u8),
        decreases n - i,
    {
        v.push(0);
        i = i + 1;
    }
}

/// BIOS Parameter Block. Reserved fields are not kept: they are zero on disk.
#[derive(Debug, Clone, Copy)]
pub struct Bpb {
    /// Jump to the boot code.
    pub bs_jmp_boot: [u8; 3],
    /// Names the system that formatted the volume.
    pub bs_oem_name: [u8; 8],
    pub byts_per_sec: SectorBytes,
    pub sec_per_clus: ClusterSectors,
    /// Sectors of the reserved area; never zero.
    pub rsvd_sec_cnt: u16,
    /// Number of FATs; never zero.
    pub num_fats: u8,
    /// FAT32: 0.
    pub root_ent_cnt: u16,
    /// FAT32: 0.
    pub tot_sec16: u16,
    pub media: Media,
    /// FAT32: 0.
    pub fat_sz16: u16,
    pub sec_per_trk: u16,
    pub num_heads: u16,
    pub hidd_sec: u32,
    /// FAT32: sectors of the volume; never zero.
    pub tot_sec32: u32,
    /// Sectors of one FAT; never zero.
    pub fat_sz32: u32,
    pub ext_flags: ExtFlags,
    pub fs_ver: u16,
    /// First cluster of the root directory.
    pub root_clus: u32,
    /// Sector of the FSINFO structure.
    pub fs_info: u16,
    /// Sector of the boot record's backup.
    pub bk_boot_sec: u16,
    pub drv_num: u8,
    pub boot_sig: BootSignature,
    pub vol_id: u32,
    pub vol_lab: [u8; 11],
    pub fil_sys_type: [u8; 8],
}

/// The FAT sectors for a disk of `disk_size` bytes, as the FAT32 formula
/// gives them from the reserved sectors, the root directory sectors, the
/// sectors per cluster and the number of FATs.
pub open spec fn spec_fat_size(disk_size: int, rsvd_and_root: int, spc: int, num_fats: int, ty: FatType) -> int {
    let tmp1 = disk_size - rsvd_and_root;
    let tmp2 = if ty == FatType::T32 { (256 * spc + num_fats) / 2 } else { 256 * spc + num_fats };
    (tmp1 + tmp2 - 1) / tmp2
}

/// Arithmetic behind [`lemma_new_fat_covers_clusters`]: a FAT of `f`
/// sectors, `f` the disk's sectors `d` past the reserved ones divided by
/// `128 * s + 1` and rounded up, has an entry for each of the `c` clusters
/// that fit after the two FATs, and one sector less would be short.
proof fn lemma_fat_cover(d: int, s: int, f: int, m: int, c: int, m2: int)
    by (nonlinear_arith)
    requires
        s >= 1,
        f * (128 * s + 1) + m == d - 8 + 128 * s,
        0 <= m < 128 * s + 1,
        c * s + m2 == d - 8 - 2 * f,
        0 <= m2 < s,
        f >= s + 2,
    ensures
        128 * f >= c + 2,
        128 * s * (f - 1) < d - 8,
{
}

impl Bpb {
    /// Bytes of the block on disk.
    pub const SIZE: usize = 512;

    /// The fields that may not be zero are not.
    pub open spec fn wf(&self) -> bool {
        &&& self.rsvd_sec_cnt != 0
        &&& self.num_fats != 0
        &&& self.tot_sec32 != 0
        &&& self.fat_sz32 != 0
    }

    pub open spec fn spec_root_dir_sectors(&self) -> int {
        (self.root_ent_cnt * 32 + (self.byts_per_sec.spec_value() - 1)) / (self.byts_per_sec.spec_value() as int)
    }

    pub open spec fn spec_fat_sectors(&self) -> int {
        if self.fat_sz16 > 0 { self.fat_sz16 as int } else { self.fat_sz32 as int }
    }

    pub open spec fn spec_total_sectors(&self) -> int {
        if self.tot_sec16 > 0 { self.tot_sec16 as int } else { self.tot_sec32 as int }
    }

    pub open spec fn spec_data_area(&self) -> int {
        self.rsvd_sec_cnt + self.num_fats * self.spec_fat_sectors() + self.spec_root_dir_sectors()
    }

    pub open spec fn spec_total_clusters(&self) -> int {
        (self.spec_total_sectors() - self.spec_data_area()) / (self.sec_per_clus.spec_value() as int)
    }

    /// The counts stay within the machine's integers.
    pub open spec fn in_range(&self) -> bool {
        &&& self.root_ent_cnt * 32 + self.byts_per_sec.spec_value() - 1 <= u16::MAX
        &&& self.spec_data_area() <= usize::MAX
    }

    /// The layout this BPB describes can be computed: its counts stay
    /// within the machine's integers.
    pub open spec fn loadable(&self) -> bool {
        &&& self.in_range()
        &&& self.rsvd_sec_cnt + self.spec_fat_sectors() <= usize::MAX
    }

    /// Whether [`Bpb::loadable`] holds.
    pub fn is_loadable(&self) -> (r: bool)
        ensures
            r == self.loadable(),
    {
        let fat: u64 = if self.fat_sz16 > 0 { self.fat_sz16 as u64 } else { self.fat_sz32 as u64 };
        let bytes: u64 = self.byts_per_sec.value() as u64;
        let entries: u64 = self.root_ent_cnt as u64 * 32 + bytes - 1;
        if entries > u16::MAX as u64 {
            return false;
        }
        let root: u64 = entries / bytes;
        proof {
            assert(self.num_fats as u64 * fat <= 255 * 0xFFFF_FFFFu64) by (nonlinear_arith)
                requires
                    self.num_fats <= 255,
                    fat <= 0xFFFF_FFFF;
            assert(root == self.spec_root_dir_sectors());
        }
        let area: u64 = self.rsvd_sec_cnt as u64 + self.num_fats as u64 * fat + root;
        area <= usize::MAX as u64 && self.rsvd_sec_cnt as u64 + fat <= usize::MAX as u64
    }

    /// The sector of the FSINFO structure.
    pub fn fs_info(&self) -> (r: SectorId)
        ensures
            r.0 == self.fs_info,
    {
        SectorId::new(self.fs_info as usize)
    }

    /// The sector of the boot record's backup.
    pub fn backup_boot(&self) -> (r: SectorId)
        ensures
            r.0 == self.bk_boot_sec,
    {
        SectorId::new(self.bk_boot_sec as usize)
    }

    /// The first sector of the FAT area.
    pub fn fat_area(&self) -> (r: SectorId)
        ensures
            r.0 == self.rsvd_sec_cnt,
    {
        SectorId::new(self.rsvd_sec_cnt as usize)
    }

    /// Number of FATs.
    pub fn fat_count(&self) -> (r: usize)
        ensures
            r == self.num_fats,
    {
        self.num_fats as usize
    }

    /// The first sector of the data area.
    pub fn data_area(&self) -> (r: SectorId)
        requires
            self.in_range(),
        ensures
            r.0 == self.spec_data_area(),
    {
        let fat = self.fat_area();
        SectorId::new(fat.0 + self.num_fats as usize * self.fat_sectors() + self.root_dir_sectors())
    }

    pub fn sector_bytes(&self) -> (r: usize)
        ensures
            r == self.byts_per_sec.spec_value(),
    {
        self.byts_per_sec.value() as usize
    }

    pub fn cluster_sectors(&self) -> (r: usize)
        ensures
            r == self.sec_per_clus.spec_value(),
    {
        self.sec_per_clus.value() as usize
    }

    /// Sectors of one FAT.
    pub fn fat_sectors(&self) -> (r: usize)
        ensures
            r == self.spec_fat_sectors(),
    {
        if self.fat_sz16 > 0 {
            self.fat_sz16 as usize
        } else {
            self.fat_sz32 as usize
        }
    }

    /// Sectors of the volume.
    pub fn total_sectors(&self) -> (r: usize)
        ensures
            r == self.spec_total_sectors(),
    {
        if self.tot_sec16 > 0 {
            self.tot_sec16 as usize
        } else {
            self.tot_sec32 as usize
        }
    }

    /// Clusters of the data area.
    pub fn total_clusters(&self) -> (r: usize)
        requires
            self.in_range(),
            self.spec_data_area() <= self.spec_total_sectors(),
            self.sec_per_clus.spec_value() != 0,
        ensures
            r == self.spec_total_clusters(),
    {
        (self.total_sectors() - self.data_area().0) / self.cluster_sectors()
    }

    /// Sectors of the root directory: 0 on FAT32.
    pub fn root_dir_sectors(&self) -> (r: usize)
        requires
            self.in_range(),
        ensures
            r == self.spec_root_dir_sectors(),
    {
        ((self.root_ent_cnt * 32 + (self.byts_per_sec.value() - 1)) / self.byts_per_sec.value()) as usize
    }

    /// The FAT variant the number of clusters makes this volume.
    pub fn fat_type(&self) -> (r: FatType)
        requires
            self.in_range(),
            self.spec_data_area() <= self.spec_total_sectors(),
            self.sec_per_clus.spec_value() != 0,
        ensures
            r == if self.spec_total_clusters() <= 4084 {
                FatType::T12
            } else if self.spec_total_clusters() <= 65524 {
                FatType::T16
            } else {
                FatType::T32
            },
    {
        let clusters = self.total_clusters();
        if clusters <= 4084 {
            FatType::T12
        } else if clusters <= 65524 {
            FatType::T16
        } else {
            FatType::T32
        }
    }

    /// Computes the sectors of one FAT for a disk of `disk_size` sectors and records them.
    pub fn set_fat_size(&mut self, ty: FatType, disk_size: usize)
        requires
            old(self).in_range(),
            old(self).rsvd_sec_cnt + old(self).spec_root_dir_sectors() <= disk_size,
            (if ty == FatType::T32 {
                (256 * old(self).sec_per_clus.spec_value() + old(self).num_fats) / 2
            } else {
                256 * old(self).sec_per_clus.spec_value() + old(self).num_fats
            }) > 0,
            disk_size + 256 * 128 + 256 <= usize::MAX,
            ty == FatType::T32 ==> spec_fat_size(
                disk_size as int,
                old(self).rsvd_sec_cnt + old(self).spec_root_dir_sectors(),
                old(self).sec_per_clus.spec_value() as int,
                old(self).num_fats as int,
                ty,
            ) as u32 != 0,
        ensures
            ({
                let fat_size = spec_fat_size(
                    disk_size as int,
                    old(self).rsvd_sec_cnt + old(self).spec_root_dir_sectors(),
                    old(self).sec_per_clus.spec_value() as int,
                    old(self).num_fats as int,
                    ty,
                );
                &&& ty == FatType::T32 ==> final(self).fat_sz16 == 0 && final(self).fat_sz32 == fat_size as u32
                &&& ty != FatType::T32 ==> final(self).fat_sz16 == fat_size as u16 && final(self).fat_sz32 == old(self).fat_sz32
            }),
            final(self).rsvd_sec_cnt == old(self).rsvd_sec_cnt,
            final(self).num_fats == old(self).num_fats,
            final(self).root_ent_cnt == old(self).root_ent_cnt,
            final(self).tot_sec16 == old(self).tot_sec16,
            final(self).tot_sec32 == old(self).tot_sec32,
            final(self).byts_per_sec == old(self).byts_per_sec,
            final(self).sec_per_clus == old(self).sec_per_clus,
            final(self).media == old(self).media,
            final(self).fs_info == old(self).fs_info,
            final(self).bk_boot_sec == old(self).bk_boot_sec,
            final(self).root_clus == old(self).root_clus,
            final(self).boot_sig == old(self).boot_sig,
            final(self).bs_jmp_boot == old(self).bs_jmp_boot,
            final(self).bs_oem_name == old(self).bs_oem_name,
            final(self).sec_per_trk == old(self).sec_per_trk,
            final(self).num_heads == old(self).num_heads,
            final(self).hidd_sec == old(self).hidd_sec,
            final(self).ext_flags == old(self).ext_flags,
            final(self).fs_ver == old(self).fs_ver,
            final(self).drv_num == old(self).drv_num,
            final(self).vol_id == old(self).vol_id,
            final(self).vol_lab == old(self).vol_lab,
            final(self).fil_sys_type == old(self).fil_sys_type,
    {
        let tmp1 = disk_size - (self.rsvd_sec_cnt as usize + self.root_dir_sectors());
        let mut tmp2 = 256 * self.sec_per_clus.value() as usize + self.num_fats as usize;
        if ty == FatType::T32 {
            tmp2 = tmp2 / 2;
        }
        let fat_size = (tmp1 + tmp2 - 1) / tmp2;
        if ty == FatType::T32 {
            self.fat_sz16 = 0;
            self.fat_sz32 = fat_size as u32;
        } else {
            self.fat_sz16 = fat_size as u16;
        }
    }

    /// The fields [`Bpb::new`] sets for a disk of `disk_size` bytes.
    pub open spec fn is_new(&self, disk_size: usize) -> bool {
        let r = *self;
        &&& r.wf()
        &&& r.in_range()
        &&& r.byts_per_sec == SectorBytes::B512
        &&& r.sec_per_clus == spec_sec_per_clus(disk_size / 512)
        &&& r.rsvd_sec_cnt == 8
        &&& r.num_fats == 2
        &&& r.root_ent_cnt == 0
        &&& r.tot_sec16 == 0
        &&& r.media == Media::Fixed
        &&& r.fat_sz16 == 0
        &&& r.tot_sec32 == (disk_size / 512) as u32
        &&& r.fat_sz32 == spec_fat_size((disk_size / 512) as int, 8, spec_sec_per_clus(disk_size / 512).spec_value() as int, 2, FatType::T32) as u32
        &&& r.root_clus == 2
        &&& r.fs_info == 1
        &&& r.bk_boot_sec == 6
        &&& r.boot_sig == BootSignature::Unset
    }

    /// The FAT of a fresh FAT32 volume has an entry for each cluster of
    /// its data area and for the two reserved entries before them, and is
    /// no bigger than that asks: one sector less would not hold entries for
    /// all the sectors past the reserved ones. Its size is the least count
    /// of sectors `f` for which `f` times `128` clusters of the cluster's
    /// sectors, plus `f`, reach the sectors past the reserved ones.
    pub proof fn lemma_new_fat_covers_clusters(disk_size: usize, r: Bpb)
        requires
            r.is_new(disk_size),
            66600 < disk_size / 512 <= u32::MAX,
        ensures
            128 * r.fat_sz32 >= r.spec_total_clusters() + 2,
            128 * r.sec_per_clus.spec_value() * (r.fat_sz32 - 1) < r.tot_sec32 - r.rsvd_sec_cnt,
            r.fat_sz32 * (128 * r.sec_per_clus.spec_value() + 1) >= r.tot_sec32 - r.rsvd_sec_cnt,
            (r.fat_sz32 - 1) * (128 * r.sec_per_clus.spec_value() + 1) < r.tot_sec32 - r.rsvd_sec_cnt,
    {
        let d = (disk_size / 512) as int;
        let sc = spec_sec_per_clus(disk_size / 512);
        let s = sc.spec_value() as int;
        let k = 128 * s + 1;
        assert(s >= 1 && (256 * s + 2) / 2 == k);
        let f = spec_fat_size(d, 8, s, 2, FatType::T32);
        assert(f == (d - 8 + k - 1) / k);
        vstd::arithmetic::div_mod::lemma_fundamental_div_mod(d - 8 + k - 1, k);
        let m = (d - 8 + k - 1) % k;
        assert(f * k + m == d - 8 + 128 * s);
        assert(f * k >= d - 8);
        assert(f >= s + 2) by {
            if s == 1 {
                assert(f >= s + 2) by (nonlinear_arith) requires f * k >= d - 8, k == 129, s == 1, d > 66600;
            } else if s == 8 {
                assert(f >= s + 2) by (nonlinear_arith) requires f * k >= d - 8, k == 1025, s == 8, d > 532480;
            } else if s == 16 {
                assert(f >= s + 2) by (nonlinear_arith) requires f * k >= d - 8, k == 2049, s == 16, d > 16777216;
            } else if s == 32 {
                assert(f >= s + 2) by (nonlinear_arith) requires f * k >= d - 8, k == 4097, s == 32, d > 33554432;
            } else {
                assert(s == 64 && d > 67108864);
                assert(f >= s + 2) by (nonlinear_arith) requires f * k >= d - 8, k == 8193, s == 64, d > 67108864;
            }
        }
        assert(f <= d) by {
            assert(f * k <= d - 8 + 128 * s);
            assert(f * k >= f * 129) by (nonlinear_arith) requires f >= 0, k >= 129;
        }
        assert(r.fat_sz32 == f);
        assert(r.tot_sec32 == d);
        assert(r.spec_root_dir_sectors() == 0);
        let data = d - 8 - 2 * f;
        assert(r.spec_total_clusters() == data / s);
        vstd::arithmetic::div_mod::lemma_fundamental_div_mod(data, s);
        lemma_fat_cover(d, s, f, m, data / s, data % s);
        assert((f - 1) * k == f * k - k) by (nonlinear_arith);
    }

    /// The BPB of a fresh FAT32 volume of `disk_size` bytes: 512-byte
    /// sectors, 8 reserved sectors, the cluster size the table gives for the
    /// disk's sectors, two FATs sized for them.
    pub fn new(disk_size: usize) -> (r: Self)
        requires
            disk_size / 512 >= 8,
            (disk_size / 512) as u32 != 0,
            spec_fat_size((disk_size / 512) as int, 8, spec_sec_per_clus(disk_size / 512).spec_value() as int, 2, FatType::T32) as u32 != 0,
            8 + 2 * (spec_fat_size((disk_size / 512) as int, 8, spec_sec_per_clus(disk_size / 512).spec_value() as int, 2, FatType::T32) as u32) <= usize::MAX,
        ensures
            r.is_new(disk_size),
            66600 < disk_size / 512 <= u32::MAX ==> ({
                &&& 128 * r.fat_sz32 >= r.spec_total_clusters() + 2
                &&& r.fat_sz32 * (128 * r.sec_per_clus.spec_value() + 1) >= r.tot_sec32 - r.rsvd_sec_cnt
                &&& (r.fat_sz32 - 1) * (128 * r.sec_per_clus.spec_value() + 1) < r.tot_sec32 - r.rsvd_sec_cnt
            }),
    {
        let table = DiskSz2SecPerClus::fat32();
        let sec_per_clus = table.get(disk_size / 512);
        proof { lemma_fat32_table(disk_size / 512, table); }
        let byts_per_sec = SectorBytes::B512;
        let tot_sec32 = disk_size / byts_per_sec.value() as usize;
        let mut bpb = Bpb {
            bs_jmp_boot: [0u8; 3],
            bs_oem_name: [0x72, 0x43, 0x6f, 0x72, 0x65, 0x20, 0x20, 0x20],
            byts_per_sec,
            sec_per_clus,
            rsvd_sec_cnt: 8,
            num_fats: 2,
            root_ent_cnt: 0,
            tot_sec16: 0,
            media: Media::Fixed,
            fat_sz16: 0,
            sec_per_trk: 0,
            num_heads: 0,
            hidd_sec: 0,
            tot_sec32: tot_sec32 as u32,
            fat_sz32: 1,
            ext_flags: ExtFlags::default(),
            fs_ver: 0,
            root_clus: 2,
            fs_info: 1,
            bk_boot_sec: 6,
            drv_num: 0,
            boot_sig: BootSignature::Unset,
            vol_id: 0,
            vol_lab: [0x4e, 0x4f, 0x20, 0x4e, 0x41, 0x4d, 0x45, 0x20, 0x20, 0x20, 0x20],
            fil_sys_type: [0x46, 0x41, 0x54, 0x33, 0x32, 0x20, 0x20, 0x20],
        };
        assert(bpb.spec_root_dir_sectors() == 0);
        bpb.set_fat_size(FatType::T32, tot_sec32);
        proof {
            if 66600 < disk_size / 512 <= u32::MAX {
                Self::lemma_new_fat_covers_clusters(disk_size, bpb);
            }
        }
        bpb
    }
}




/// Two bytes that hold `x` read back as `x`.
proof fn lemma_le16_at(s: Seq<u8>, off: int, x: u16)
    requires
        0 <= off,
        off + 2 <= s.len(),
        s.subrange(off, off + 2) == le16(x),
    ensures
        u16_at(s, off) == x,
{
    assert(s[off] == le16(x)[0]);
    assert(s[off + 1] == le16(x)[1]);
}

/// Four bytes that hold `x` read back as `x`.
proof fn lemma_le32_at(s: Seq<u8>, off: int, x: u32)
    requires
        0 <= off,
        off + 4 <= s.len(),
        s.subrange(off, off + 4) == spec_u32_to_le_bytes(x),
    ensures
        u32_at(s, off) == x,
{
    lemma_auto_spec_u32_to_from_le_bytes();
    assert(spec_u32_to_le_bytes(x).len() == 4);
}

/// The `u16` stored little-endian at byte `off` of `s`.
fn read_u16(s: &[u8], off: usize) -> (r: u16)
    requires
        off + 2 <= s@.len(),
    ensures
        r == u16_at(s@, off as int),
{
    s[off] as u16 + 256 * (s[off + 1] as u16)
}

/// Where each field of a BPB lies in its bytes.
#[verifier::rlimit(100)]
#[verifier::spinoff_prover]
proof fn lemma_bpb_layout(b: Bpb)
    ensures
        b.spec_to_bytes().len() == 512,
        b.spec_to_bytes().subrange(0, 3) == b.bs_jmp_boot@,
        b.spec_to_bytes().subrange(3, 11) == b.bs_oem_name@,
        u16_at(b.spec_to_bytes(), 11) == b.byts_per_sec.spec_value(),
        b.spec_to_bytes()[13] == b.sec_per_clus.spec_value(),
        u16_at(b.spec_to_bytes(), 14) == b.rsvd_sec_cnt,
        b.spec_to_bytes()[16] == b.num_fats,
        u16_at(b.spec_to_bytes(), 17) == b.root_ent_cnt,
        u16_at(b.spec_to_bytes(), 19) == b.tot_sec16,
        b.spec_to_bytes()[21] == b.media.spec_value(),
        u16_at(b.spec_to_bytes(), 22) == b.fat_sz16,
        u16_at(b.spec_to_bytes(), 24) == b.sec_per_trk,
        u16_at(b.spec_to_bytes(), 26) == b.num_heads,
        u32_at(b.spec_to_bytes(), 28) == b.hidd_sec,
        u32_at(b.spec_to_bytes(), 32) == b.tot_sec32,
        u32_at(b.spec_to_bytes(), 36) == b.fat_sz32,
        u16_at(b.spec_to_bytes(), 40) == b.ext_flags.0,
        u16_at(b.spec_to_bytes(), 42) == b.fs_ver,
        u32_at(b.spec_to_bytes(), 44) == b.root_clus,
        u16_at(b.spec_to_bytes(), 48) == b.fs_info,
        u16_at(b.spec_to_bytes(), 50) == b.bk_boot_sec,
        b.spec_to_bytes()[64] == b.drv_num,
        b.spec_to_bytes()[66] == b.boot_sig.spec_value(),
        u32_at(b.spec_to_bytes(), 67) == b.vol_id,
        b.spec_to_bytes().subrange(71, 82) == b.vol_lab@,
        b.spec_to_bytes().subrange(82, 90) == b.fil_sys_type@,
{
    lemma_auto_spec_u32_to_from_le_bytes();
    let s = b.spec_to_bytes();
    assert(s.len() == 512);
    assert(s.subrange(0, 3) =~= b.bs_jmp_boot@);
    assert(s.subrange(3, 11) =~= b.bs_oem_name@);
    assert(s.subrange(11, 13) =~= le16(b.byts_per_sec.spec_value()));
    lemma_le16_at(s, 11, b.byts_per_sec.spec_value());
    assert(s.subrange(14, 16) =~= le16(b.rsvd_sec_cnt));
    lemma_le16_at(s, 14, b.rsvd_sec_cnt);
    assert(s.subrange(17, 19) =~= le16(b.root_ent_cnt));
    lemma_le16_at(s, 17, b.root_ent_cnt);
    assert(s.subrange(19, 21) =~= le16(b.tot_sec16));
    lemma_le16_at(s, 19, b.tot_sec16);
    assert(s.subrange(22, 24) =~= le16(b.fat_sz16));
    lemma_le16_at(s, 22, b.fat_sz16);
    assert(s.subrange(24, 26) =~= le16(b.sec_per_trk));
    lemma_le16_at(s, 24, b.sec_per_trk);
    assert(s.subrange(26, 28) =~= le16(b.num_heads));
    lemma_le16_at(s, 26, b.num_heads);
    assert(s.subrange(28, 32) =~= spec_u32_to_le_bytes(b.hidd_sec));
    lemma_le32_at(s, 28, b.hidd_sec);
    assert(s.subrange(32, 36) =~= spec_u32_to_le_bytes(b.tot_sec32));
    lemma_le32_at(s, 32, b.tot_sec32);
    assert(s.subrange(36, 40) =~= spec_u32_to_le_bytes(b.fat_sz32));
    lemma_le32_at(s, 36, b.fat_sz32);
    assert(s.subrange(40, 42) =~= le16(b.ext_flags.0));
    lemma_le16_at(s, 40, b.ext_flags.0);
    assert(s.subrange(42, 44) =~= le16(b.fs_ver));
    lemma_le16_at(s, 42, b.fs_ver);
    assert(s.subrange(44, 48) =~= spec_u32_to_le_bytes(b.root_clus));
    lemma_le32_at(s, 44, b.root_clus);
    assert(s.subrange(48, 50) =~= le16(b.fs_info));
    lemma_le16_at(s, 48, b.fs_info);
    assert(s.subrange(50, 52) =~= le16(b.bk_boot_sec));
    lemma_le16_at(s, 50, b.bk_boot_sec);
    assert(s.subrange(67, 71) =~= spec_u32_to_le_bytes(b.vol_id));
    lemma_le32_at(s, 67, b.vol_id);
    assert(s.subrange(71, 82) =~= b.vol_lab@);
    assert(s.subrange(82, 90) =~= b.fil_sys_type@);
}

/// Two BPBs with the same bytes agree on every field.
pub proof fn lemma_bpb_bytes_unique(a: Bpb, b: Bpb)
    requires
        a.spec_to_bytes() == b.spec_to_bytes(),
    ensures
        a.byts_per_sec == b.byts_per_sec,
        a.sec_per_clus == b.sec_per_clus,
        a.rsvd_sec_cnt == b.rsvd_sec_cnt,
        a.num_fats == b.num_fats,
        a.root_ent_cnt == b.root_ent_cnt,
        a.tot_sec16 == b.tot_sec16,
        a.media == b.media,
        a.fat_sz16 == b.fat_sz16,
        a.tot_sec32 == b.tot_sec32,
        a.fat_sz32 == b.fat_sz32,
        a.root_clus == b.root_clus,
        a.fs_info == b.fs_info,
        a.bk_boot_sec == b.bk_boot_sec,
        a.boot_sig == b.boot_sig,
{
    lemma_bpb_layout(a);
    lemma_bpb_layout(b);
}

impl Bpb {
    /// The block's bytes on disk.
    pub open spec fn spec_to_bytes(&self) -> Seq<u8> {
        self.bs_jmp_boot@ + self.bs_oem_name@ + le16(self.byts_per_sec.spec_value()) + seq![self.sec_per_clus.spec_value()]
            + le16(self.rsvd_sec_cnt) + seq![self.num_fats] + le16(self.root_ent_cnt) + le16(self.tot_sec16)
            + seq![self.media.spec_value()] + le16(self.fat_sz16) + le16(self.sec_per_trk) + le16(self.num_heads)
            + spec_u32_to_le_bytes(self.hidd_sec) + spec_u32_to_le_bytes(self.tot_sec32) + spec_u32_to_le_bytes(self.fat_sz32)
            + le16(self.ext_flags.0) + le16(self.fs_ver) + spec_u32_to_le_bytes(self.root_clus) + le16(self.fs_info)
            + le16(self.bk_boot_sec) + Seq::new(12, |i: int| 0u8) + seq![self.drv_num, 0u8, self.boot_sig.spec_value()]
            + spec_u32_to_le_bytes(self.vol_id) + self.vol_lab@ + self.fil_sys_type@ + Seq::new(420, |i: int| 0u8)
            + seq![0x55u8, 0xAAu8]
    }

    /// The BPB whose bytes `bytes` are, where there is one: the fields
    /// read at their places, refused where a field holds a value that no
    /// BPB holds or the reserved bytes and the signature differ.
    #[verifier::rlimit(100)]
    #[verifier::spinoff_prover]
    pub fn from_bytes(bytes: &[u8]) -> (r: Option<Bpb>)
        ensures
            match r {
                Some(b) => b.spec_to_bytes() == bytes@,
                None => forall|b: Bpb| #[trigger] b.spec_to_bytes() != bytes@,
            },
    {
        proof {
            assert forall|b: Bpb| #[trigger] b.spec_to_bytes() == bytes@ implies bytes@.len() == 512 by {
                lemma_bpb_layout(b);
            }
        }
        if bytes.len() != 512 {
            return None;
        }
        let byts_per_sec = match SectorBytes::from_value(read_u16(bytes, 11)) {
            Some(x) => x,
            None => {
                proof {
                    assert forall|b: Bpb| #[trigger] b.spec_to_bytes() != bytes@ by {
                        lemma_bpb_layout(b);
                    }
                }
                return None;
            },
        };
        let sec_per_clus = match ClusterSectors::from_value(bytes[13]) {
            Some(x) => x,
            None => {
                proof {
                    assert forall|b: Bpb| #[trigger] b.spec_to_bytes() != bytes@ by {
                        lemma_bpb_layout(b);
                    }
                }
                return None;
            },
        };
        let media = match Media::from_value(bytes[21]) {
            Some(x) => x,
            None => {
                proof {
                    assert forall|b: Bpb| #[trigger] b.spec_to_bytes() != bytes@ by {
                        lemma_bpb_layout(b);
                    }
                }
                return None;
            },
        };
        let boot_sig = match BootSignature::from_value(bytes[66]) {
            Some(x) => x,
            None => {
                proof {
                    assert forall|b: Bpb| #[trigger] b.spec_to_bytes() != bytes@ by {
                        lemma_bpb_layout(b);
                    }
                }
                return None;
            },
        };
        let bpb = Bpb {
            bs_jmp_boot: [bytes[0], bytes[1], bytes[2]],
            bs_oem_name: [bytes[3], bytes[4], bytes[5], bytes[6], bytes[7], bytes[8], bytes[9], bytes[10]],
            byts_per_sec,
            sec_per_clus,
            rsvd_sec_cnt: read_u16(bytes, 14),
            num_fats: bytes[16],
            root_ent_cnt: read_u16(bytes, 17),
            tot_sec16: read_u16(bytes, 19),
            media,
            fat_sz16: read_u16(bytes, 22),
            sec_per_trk: read_u16(bytes, 24),
            num_heads: read_u16(bytes, 26),
            hidd_sec: u32_from_le_bytes(&bytes[28..32]),
            tot_sec32: u32_from_le_bytes(&bytes[32..36]),
            fat_sz32: u32_from_le_bytes(&bytes[36..40]),
            ext_flags: ExtFlags(read_u16(bytes, 40)),
            fs_ver: read_u16(bytes, 42),
            root_clus: u32_from_le_bytes(&bytes[44..48]),
            fs_info: read_u16(bytes, 48),
            bk_boot_sec: read_u16(bytes, 50),
            drv_num: bytes[64],
            boot_sig,
            vol_id: u32_from_le_bytes(&bytes[67..71]),
            vol_lab: [bytes[71], bytes[72], bytes[73], bytes[74], bytes[75], bytes[76], bytes[77], bytes[78], bytes[79], bytes[80], bytes[81]],
            fil_sys_type: [bytes[82], bytes[83], bytes[84], bytes[85], bytes[86], bytes[87], bytes[88], bytes[89]],
        };
        let enc = bpb.to_bytes();
        if crate::layout::same_bytes(enc.as_slice(), bytes) {
            Some(bpb)
        } else {
            proof {
                assert forall|b: Bpb| #[trigger] b.spec_to_bytes() != bytes@ by {
                    if b.spec_to_bytes() == bytes@ {
                        lemma_bpb_layout(b);
                        assert(bpb.bs_jmp_boot@ =~= b.bs_jmp_boot@);
                        assert(bpb.bs_oem_name@ =~= b.bs_oem_name@);
                        assert(bpb.vol_lab@ =~= b.vol_lab@);
                        assert(bpb.fil_sys_type@ =~= b.fil_sys_type@);
                        assert(bpb.byts_per_sec == b.byts_per_sec);
                        assert(bpb.sec_per_clus == b.sec_per_clus);
                        assert(bpb.media == b.media);
                        assert(bpb.boot_sig == b.boot_sig);
                        assert(bpb.spec_to_bytes() == b.spec_to_bytes());
                    }
                }
            }
            None
        }
    }

    /// The block's bytes on disk.
    pub fn to_bytes(&self) -> (r: Vec<u8>)
        ensures
            r@ == self.spec_to_bytes(),
            r@.len() == Self::SIZE,
    {
        proof { lemma_auto_spec_u32_to_from_le_bytes(); }
        let mut v: Vec<u8> = Vec::new();
        push_bytes(&mut v, self.bs_jmp_boot.as_slice());
        push_bytes(&mut v, self.bs_oem_name.as_slice());
        push_u16(&mut v, self.byts_per_sec.value());
        v.push(self.sec_per_clus.value());
        push_u16(&mut v, self.rsvd_sec_cnt);
        v.push(self.num_fats);
        push_u16(&mut v, self.root_ent_cnt);
        push_u16(&mut v, self.tot_sec16);
        v.push(self.media.value());
        push_u16(&mut v, self.fat_sz16);
        push_u16(&mut v, self.sec_per_trk);
        push_u16(&mut v, self.num_heads);
        push_u32(&mut v, self.hidd_sec);
        push_u32(&mut v, self.tot_sec32);
        push_u32(&mut v, self.fat_sz32);
        push_u16(&mut v, self.ext_flags.0);
        push_u16(&mut v, self.fs_ver);
        push_u32(&mut v, self.root_clus);
        push_u16(&mut v, self.fs_info);
        push_u16(&mut v, self.bk_boot_sec);
        push_zeros(&mut v, 12);
        v.push(self.drv_num);
        v.push(0);
        v.push(self.boot_sig.value());
        push_u32(&mut v, self.vol_id);
        push_bytes(&mut v, self.vol_lab.as_slice());
        push_bytes(&mut v, self.fil_sys_type.as_slice());
        push_zeros(&mut v, 420);
        v.push(0x55);
        v.push(0xAA);
        assert(v@ =~= self.spec_to_bytes());
        v
    }
}

} // verus!
