//! The FAT32 volume as a whole: formatting, cluster allocation, and walking
//! the sectors of a cluster chain.

use vstd::prelude::*;

use core::ops::Range;

use crate::block_cache::splice;
use crate::block_dev::{blocks_wf, BlockDevice};
use crate::fat::bpb::Bpb;
use crate::fat::cluster::{mask28, spec_validate, ClusterError, ClusterId};
use crate::fat::data::DataArea;
use crate::fat::fs_info::{FsInfo, FS_INFO_SECTOR};
use crate::fat::sector::{sync_all, CacheManager, SectorId};
use crate::fat::table::{
    chain_of, is_chain, is_first_free, recorded_alloc, spec_next, with_entry, Fat,
};
use crate::BLOCK_SIZE;

verus! {

/// A sector of zero bytes.
pub open spec fn zero_sector() -> Seq<u8> {
    Seq::new(BLOCK_SIZE as nat, |i: int| 0u8)
}

/// `disk` with the sectors from `lo` to `hi` zeroed.
pub open spec fn zeroed(disk: Seq<Seq<u8>>, lo: int, hi: int) -> Seq<Seq<u8>> {
    Seq::new(disk.len(), |s: int| if lo <= s < hi { zero_sector() } else { disk[s] })
}

/// Every cluster of `c` is whole and lies in the data area.
pub open spec fn chain_in_area(data: DataArea, c: Seq<u32>) -> bool {
    forall|i: int|
        0 <= i < c.len() ==> 2 <= #[trigger] c[i] && data.cluster_fits(c[i]) && data.cluster_start(c[i])
            + data.cluster_sectors <= data.end()
}

/// The sectors of cluster `id`, in order.
pub open spec fn cluster_sectors_of(data: DataArea, id: u32) -> Seq<SectorId> {
    Seq::new(
        (data.cluster_end(id) - data.cluster_start(id)) as nat,
        |i: int| SectorId((data.cluster_start(id) + i) as usize),
    )
}

/// The sectors of the clusters of `c`, in order.
pub open spec fn chain_sectors(data: DataArea, c: Seq<u32>) -> Seq<SectorId>
    decreases c.len(),
{
    if c.len() == 0 {
        Seq::empty()
    } else {
        chain_sectors(data, c.drop_last()) + cluster_sectors_of(data, c.last())
    }
}

/// Zeroes the sectors of `sectors`.
pub fn zeroize_sectors<D: BlockDevice>(cache: &mut CacheManager<D>, sectors: Range<SectorId>)
    requires
        old(cache).wf(),
        sectors.end.0 <= old(cache)@.len(),
    ensures
        final(cache).wf(),
        final(cache)@ == zeroed(old(cache)@, sectors.start.0 as int, sectors.end.0 as int),
        final(cache).device_blocks().len() == old(cache).device_blocks().len(),
{
    let ghost d1 = cache@;
    let mut sid = sectors.start.0;
    if sid > sectors.end.0 {
        assert(cache@ =~= zeroed(d1, sectors.start.0 as int, sectors.end.0 as int));
        return;
    }
    while sid < sectors.end.0
        invariant
            cache.wf(),
            sectors.start.0 <= sid <= sectors.end.0,
            sectors.end.0 <= d1.len(),
            cache@ == zeroed(d1, sectors.start.0 as int, sid as int),
            cache.device_blocks().len() == old(cache).device_blocks().len(),
        decreases sectors.end.0 - sid,
    {
        cache.zeroize(sid);
        assert(cache@ =~= zeroed(d1, sectors.start.0 as int, sid + 1));
        sid = sid + 1;
    }
}

/// The sectors of a chain whose clusters lie in the data area lie there too.
pub proof fn lemma_chain_sectors_in_area(data: DataArea, c: Seq<u32>)
    requires
        chain_in_area(data, c),
    ensures
        forall|i: int|
            0 <= i < chain_sectors(data, c).len() ==> data.start() <= (#[trigger] chain_sectors(data, c)[i]).0
                < data.end(),
    decreases c.len(),
{
    if c.len() > 0 {
        let init = c.drop_last();
        assert forall|i: int| 0 <= i < init.len() implies 2 <= #[trigger] init[i] && data.cluster_fits(init[i])
            && data.cluster_start(init[i]) + data.cluster_sectors <= data.end() by {
            assert(init[i] == c[i]);
        }
        lemma_chain_sectors_in_area(data, init);
        let id = c.last();
        assert(2 <= c[c.len() - 1]);
        let a = chain_sectors(data, init);
        let b = cluster_sectors_of(data, id);
        assert forall|i: int| 0 <= i < chain_sectors(data, c).len() implies data.start() <= (#[trigger] chain_sectors(data, c)[i]).0
            < data.end() by {
            if i < a.len() {
                assert(chain_sectors(data, c)[i] == a[i]);
            } else {
                assert(chain_sectors(data, c)[i] == b[i - a.len()]);
                assert((id - 2) * data.cluster_sectors >= 0) by (nonlinear_arith)
                    requires
                        id >= 2,
                ;
            }
        }
    }
}

/// A chain of whole clusters has `cluster_sectors` sectors per cluster.
pub proof fn lemma_chain_sectors_len(data: DataArea, c: Seq<u32>)
    requires
        chain_in_area(data, c),
    ensures
        chain_sectors(data, c).len() == c.len() * data.cluster_sectors,
    decreases c.len(),
{
    if c.len() > 0 {
        let init = c.drop_last();
        assert forall|i: int| 0 <= i < init.len() implies 2 <= #[trigger] init[i] && data.cluster_fits(init[i])
            && data.cluster_start(init[i]) + data.cluster_sectors <= data.end() by {
            assert(init[i] == c[i]);
        }
        lemma_chain_sectors_len(data, init);
        assert(2 <= c[c.len() - 1]);
        assert(c.len() * data.cluster_sectors == init.len() * data.cluster_sectors + data.cluster_sectors) by (nonlinear_arith)
            requires
                c.len() == init.len() + 1,
        ;
    }
}

/// Sector `i` of a chain of whole clusters is sector `i % cluster_sectors`
/// of its cluster `i / cluster_sectors`.
pub proof fn lemma_chain_sectors_at(data: DataArea, c: Seq<u32>, i: int)
    requires
        chain_in_area(data, c),
        0 <= i < c.len() * data.cluster_sectors,
    ensures
        chain_sectors(data, c).len() == c.len() * data.cluster_sectors,
        0 <= i / (data.cluster_sectors as int) < c.len(),
        chain_sectors(data, c)[i].0 == data.cluster_start(c[i / (data.cluster_sectors as int)]) + i % (data.cluster_sectors as int),
    decreases c.len(),
{
    lemma_chain_sectors_len(data, c);
    let cs = data.cluster_sectors as int;
    let init = c.drop_last();
    assert forall|j: int| 0 <= j < init.len() implies 2 <= #[trigger] init[j] && data.cluster_fits(init[j])
        && data.cluster_start(init[j]) + data.cluster_sectors <= data.end() by {
        assert(init[j] == c[j]);
    }
    lemma_chain_sectors_len(data, init);
    let l = init.len() as int;
    let n = c.len() as int;
    assert(cs > 0) by (nonlinear_arith)
        requires
            0 <= i,
            i < n * cs,
            cs >= 0,
    ;
    if i < l * cs {
        lemma_chain_sectors_at(data, init, i);
        assert(chain_sectors(data, c)[i] == chain_sectors(data, init)[i]);
        assert(init[i / cs] == c[i / cs]);
    } else {
        assert(c.len() * cs == l * cs + cs) by (nonlinear_arith)
            requires
                c.len() == l + 1,
        ;
        vstd::arithmetic::div_mod::lemma_fundamental_div_mod_converse(i, cs, l, i - l * cs);
        assert(chain_sectors(data, c)[i] == cluster_sectors_of(data, c.last())[i - l * cs]);
        assert(2 <= c[c.len() - 1]);
    }
}

/// The sectors of a chain of distinct whole clusters are distinct.
pub proof fn lemma_chain_sectors_distinct(data: DataArea, c: Seq<u32>, i: int, j: int)
    requires
        chain_in_area(data, c),
        forall|a: int, b: int| 0 <= a < b < c.len() ==> #[trigger] c[a] != #[trigger] c[b],
        0 <= i < j < c.len() * data.cluster_sectors,
    ensures
        chain_sectors(data, c)[i] != chain_sectors(data, c)[j],
{
    lemma_chain_sectors_at(data, c, i);
    lemma_chain_sectors_at(data, c, j);
    let cs = data.cluster_sectors as int;
    let n = c.len() as int;
    assert(cs > 0) by (nonlinear_arith)
        requires
            0 <= i,
            i < n * cs,
            cs >= 0,
    ;
    let a = i / cs;
    let b = j / cs;
    if chain_sectors(data, c)[i] == chain_sectors(data, c)[j] {
        assert(2 <= c[a] && 2 <= c[b]);
        let va = (c[a] - 2) * cs + i % cs;
        let vb = (c[b] - 2) * cs + j % cs;
        assert(va == vb);
        assert(0 <= i % cs < cs) by (nonlinear_arith)
            requires
                cs > 0,
        ;
        assert(0 <= j % cs < cs) by (nonlinear_arith)
            requires
                cs > 0,
        ;
        vstd::arithmetic::div_mod::lemma_fundamental_div_mod_converse(va, cs, c[a] - 2, i % cs);
        vstd::arithmetic::div_mod::lemma_fundamental_div_mod_converse(vb, cs, c[b] - 2, j % cs);
        if a == b {
            vstd::arithmetic::div_mod::lemma_fundamental_div_mod(i, cs);
            vstd::arithmetic::div_mod::lemma_fundamental_div_mod(j, cs);
        } else if a < b {
            assert(c[a] != c[b]);
        } else {
            assert(c[b] != c[a]);
        }
    }
}

/// A FAT32 volume over a cached device.
pub struct FatFileSystem<D: BlockDevice> {
    /// The cached device.
    pub cache: CacheManager<D>,
    /// The volume's parameters.
    pub bpb: Bpb,
    pub fat: Fat,
    pub data_area: DataArea,
}

impl<D: BlockDevice> FatFileSystem<D> {
    /// The volume's sectors as the cache presents them.
    pub open spec fn sectors(&self) -> Seq<Seq<u8>> {
        self.cache@
    }

    /// The FAT and the data area lie on the device.
    pub open spec fn wf(&self) -> bool {
        &&& self.cache.wf()
        &&& self.fat.wf()
        &&& self.fat.fits(self.cache@.len() as int)
        &&& self.data_area.cluster_sectors > 0
        &&& self.data_area.end() <= self.cache@.len()
    }

    /// The chain from `id` exists, and its clusters are whole and in the data area.
    pub open spec fn good_chain(&self, id: ClusterId) -> bool {
        &&& exists|c: Seq<u32>| is_chain(self.cache@, self.fat, id, c)
        &&& chain_in_area(self.data_area, chain_of(self.cache@, self.fat, id))
    }

    /// `other` presents the same volume: the same sectors and layout.
    pub open spec fn same_volume(&self, other: Self) -> bool {
        &&& self.cache.wf() == other.cache.wf()
        &&& self.sectors() == other.sectors()
        &&& self.cache.device_blocks().len() == other.cache.device_blocks().len()
        &&& self.bpb == other.bpb
        &&& self.fat == other.fat
        &&& self.data_area == other.data_area
    }

    /// The chain from `id`.
    pub open spec fn chain(&self, id: ClusterId) -> Seq<u32> {
        chain_of(self.cache@, self.fat, id)
    }

    /// The first free FAT entry names a usable cluster, whole and in the data area.
    pub open spec fn can_alloc(&self) -> bool {
        exists|k: int|
            #[trigger] is_first_free(self.cache@, self.fat, k) && 2 <= k <= 0x0FFF_FFF6
                && self.data_area.cluster_fits(k as u32) && self.data_area.cluster_start(k as u32)
                + self.data_area.cluster_sectors <= self.data_area.end()
    }

    /// A volume of `disk_size` bytes over `device`, with its layout computed
    /// and nothing written yet: [`FatFileSystem::foramt`] writes it.
    pub fn new(disk_size: usize, device: D) -> (r: Self)
        requires
            blocks_wf(device.blocks()),
            disk_size / 512 >= 8,
            (disk_size / 512) as u32 != 0,
            crate::fat::bpb::spec_fat_size(
                (disk_size / 512) as int,
                8,
                crate::fat::bpb::spec_sec_per_clus(disk_size / 512).spec_value() as int,
                2,
                crate::fat::bpb::FatType::T32,
            ) as u32 != 0,
            8 + 2 * (crate::fat::bpb::spec_fat_size(
                (disk_size / 512) as int,
                8,
                crate::fat::bpb::spec_sec_per_clus(disk_size / 512).spec_value() as int,
                2,
                crate::fat::bpb::FatType::T32,
            ) as u32) <= usize::MAX,
        ensures
            r.cache.wf(),
            r.sectors() == device.blocks(),
            r.cache.device_blocks() == device.blocks(),
            r.bpb.is_new(disk_size),
            r.fat.start() == r.bpb.rsvd_sec_cnt,
            r.fat.end() == r.bpb.rsvd_sec_cnt + r.bpb.spec_fat_sectors(),
            r.data_area.start() == r.bpb.spec_data_area(),
            r.data_area.end() == r.bpb.spec_total_sectors(),
            r.data_area.cluster_sectors == r.bpb.sec_per_clus.spec_value(),
    {
        let bpb = Bpb::new(disk_size);
        let fat = Fat::new(&bpb);
        let data_area = DataArea::new(&bpb);
        FatFileSystem { cache: CacheManager::new(device), bpb, fat, data_area }
    }

    /// The volume stored on `device`, with the layout that the BPB in its
    /// first sector describes: `None` where that sector holds no BPB, or one
    /// whose counts leave the machine's integers.
    pub fn load(device: D) -> (r: Option<Self>)
        requires
            blocks_wf(device.blocks()),
            device.blocks().len() > 0,
        ensures
            match r {
                Some(fs) => {
                    &&& fs.cache.wf()
                    &&& fs.sectors() == device.blocks()
                    &&& fs.cache.device_blocks() == device.blocks()
                    &&& fs.bpb.spec_to_bytes() == device.blocks()[0]
                    &&& fs.bpb.loadable()
                    &&& fs.fat.start() == fs.bpb.rsvd_sec_cnt
                    &&& fs.fat.end() == fs.bpb.rsvd_sec_cnt + fs.bpb.spec_fat_sectors()
                    &&& fs.data_area.start() == fs.bpb.spec_data_area()
                    &&& fs.data_area.end() == fs.bpb.spec_total_sectors()
                    &&& fs.data_area.cluster_sectors == fs.bpb.sec_per_clus.spec_value()
                },
                None => forall|b: Bpb| #[trigger] b.spec_to_bytes() == device.blocks()[0] ==> !b.loadable(),
            },
    {
        let mut buf = crate::block_dev::zero_block();
        device.read_block(0, buf.as_mut_slice());
        let bpb = match Bpb::from_bytes(buf.as_slice()) {
            None => return None,
            Some(b) => b,
        };
        if !bpb.is_loadable() {
            proof {
                assert forall|b: Bpb| #[trigger] b.spec_to_bytes() == device.blocks()[0] implies !b.loadable() by {
                    crate::fat::bpb::lemma_bpb_bytes_unique(b, bpb);
                }
            }
            return None;
        }
        let fat = Fat::new(&bpb);
        let data_area = DataArea::new(&bpb);
        Some(FatFileSystem { cache: CacheManager::new(device), bpb, fat, data_area })
    }

    /// The FAT.
    pub fn fat(&self) -> (r: &Fat)
        ensures
            *r == self.fat,
    {
        &self.fat
    }

    /// The FAT, to change.
    pub fn fat_mut(&mut self) -> (r: &mut Fat)
        ensures
            *r == old(self).fat,
            *final(self) == (FatFileSystem { fat: *final(r), ..*old(self) }),
    {
        &mut self.fat
    }

    /// The data area.
    pub fn data(&self) -> (r: &DataArea)
        ensures
            *r == self.data_area,
    {
        &self.data_area
    }
}

/// What [`FatFileSystem::foramt`] leaves on `disk`: the boot record and its
/// backup, FSINFO and its backup, a FAT with only the root directory's
/// cluster allocated.
pub open spec fn formatted(disk: Seq<Seq<u8>>, bpb: Bpb, fat: Fat) -> Seq<Seq<u8>> {
    let boot = bpb.spec_to_bytes();
    let info = FsInfo::spec_for(bpb).spec_to_bytes();
    let d1 = disk.update(0, boot).update(bpb.bk_boot_sec as int, boot).update(bpb.fs_info as int, info).update(7, info);
    let d2 = zeroed(d1, fat.start(), fat.end());
    recorded_alloc(
        with_entry(
            with_entry(
                with_entry(d2, fat.start(), 0, mask28((0xFFFF_FF00 + bpb.media.spec_value()) as u32)),
                fat.start(),
                1,
                mask28(0x0C00_0000u32 | 0xFFFF_FFFFu32),
            ),
            fat.start(),
            2,
            0xFFFF_FFFF,
        ),
    )
}

/// Loading a freshly formatted volume finds the layout it was formatted
/// with: the BPB read from its first sector agrees with the one written in
/// every field that describes the layout.
pub proof fn lemma_format_then_load(disk: Seq<Seq<u8>>, bpb: Bpb, fat: Fat, loaded: Bpb)
    requires
        7 < disk.len(),
        bpb.bk_boot_sec < disk.len(),
        0 < bpb.fs_info < disk.len(),
        fat.wf(),
        fat.start() < fat.end(),
        fat.fits(disk.len() as int),
        loaded.spec_to_bytes() == formatted(disk, bpb, fat)[0],
    ensures
        loaded.byts_per_sec == bpb.byts_per_sec,
        loaded.sec_per_clus == bpb.sec_per_clus,
        loaded.rsvd_sec_cnt == bpb.rsvd_sec_cnt,
        loaded.num_fats == bpb.num_fats,
        loaded.root_ent_cnt == bpb.root_ent_cnt,
        loaded.tot_sec16 == bpb.tot_sec16,
        loaded.fat_sz16 == bpb.fat_sz16,
        loaded.tot_sec32 == bpb.tot_sec32,
        loaded.fat_sz32 == bpb.fat_sz32,
        loaded.root_clus == bpb.root_clus,
        loaded.loadable() == bpb.loadable(),
{
    let boot = bpb.spec_to_bytes();
    let info = FsInfo::spec_for(bpb).spec_to_bytes();
    let d1 = disk.update(0, boot).update(bpb.bk_boot_sec as int, boot).update(bpb.fs_info as int, info).update(7, info);
    assert(d1[0] == boot);
    let d2 = zeroed(d1, fat.start(), fat.end());
    assert(d2[0] == boot);
    let d3 = with_entry(d2, fat.start(), 0, mask28((0xFFFF_FF00 + bpb.media.spec_value()) as u32));
    assert(0int / 128 == 0 && 1int / 128 == 0 && 2int / 128 == 0);
    assert(d3[0] == boot);
    let d4 = with_entry(d3, fat.start(), 1, mask28(0x0C00_0000u32 | 0xFFFF_FFFFu32));
    assert(d4[0] == boot);
    let d5 = with_entry(d4, fat.start(), 2, 0xFFFF_FFFF);
    assert(d5[0] == boot);
    assert(recorded_alloc(d5)[0] == boot);
    crate::fat::bpb::lemma_bpb_bytes_unique(loaded, bpb);
}

impl<D: BlockDevice> FatFileSystem<D> {
    /// Writes whole sector `sid` of the cache.
    fn put_sector(&mut self, sid: usize, bytes: &Vec<u8>)
        requires
            old(self).cache.wf(),
            sid < old(self).cache@.len(),
            bytes@.len() == BLOCK_SIZE,
        ensures
            final(self).cache.wf(),
            final(self).cache@ == old(self).cache@.update(sid as int, bytes@),
            final(self).cache.device_blocks().len() == old(self).cache.device_blocks().len(),
            final(self).bpb == old(self).bpb,
            final(self).fat == old(self).fat,
            final(self).data_area == old(self).data_area,
    {
        proof { self.cache.lemma_wf_view(); }
        self.cache.write(sid, 0, bytes.as_slice());
        assert(splice(old(self).cache@[sid as int], 0, bytes@) =~= bytes@);
    }

    /// Writes a fresh volume: boot record, FSINFO, their backups, and an
    /// empty FAT with the root directory's cluster allocated; then writes
    /// every cached sector back to the device.
    pub fn foramt(&mut self)
        requires
            old(self).wf(),
            old(self).fat.start() < old(self).fat.end(),
            7 < old(self).cache@.len(),
            old(self).bpb.bk_boot_sec < old(self).cache@.len(),
            old(self).bpb.fs_info < old(self).cache@.len(),
            old(self).bpb.in_range(),
            old(self).bpb.spec_data_area() <= old(self).bpb.spec_total_sectors(),
            old(self).bpb.sec_per_clus.spec_value() != 0,
        ensures
            final(self).wf(),
            final(self).bpb == old(self).bpb,
            final(self).fat == old(self).fat,
            final(self).data_area == old(self).data_area,
            final(self).sectors() == formatted(old(self).sectors(), old(self).bpb, old(self).fat),
            final(self).cache.device_blocks() == final(self).sectors(),
    {
        let boot = self.bpb.to_bytes();
        let info = FsInfo::new(&self.bpb).to_bytes();
        self.put_sector(0, &boot);
        let backup = self.bpb.backup_boot();
        self.put_sector(backup.0, &boot);
        let fs_info = self.bpb.fs_info();
        self.put_sector(fs_info.0, &info);
        self.put_sector(7, &info);
        let ghost d1 = self.cache@;
        let mut sid = self.fat.range.start.0;
        while sid < self.fat.range.end.0
            invariant
                self.wf(),
                self.bpb == old(self).bpb,
                self.fat == old(self).fat,
                self.data_area == old(self).data_area,
                self.fat.start() <= sid <= self.fat.end(),
                self.cache@ == zeroed(d1, self.fat.start(), sid as int),
                d1.len() == old(self).cache@.len(),
            decreases self.fat.end() - sid,
        {
            let ghost before = self.cache@;
            self.cache.zeroize(sid);
            assert(self.cache@ =~= zeroed(d1, self.fat.start(), sid + 1));
            sid = sid + 1;
        }
        let ghost d2 = self.cache@;
        assert(d2 =~= zeroed(d1, self.fat.start(), self.fat.end()));
        self.fat.alloc_root(&mut self.cache, &self.bpb);
        sync_all(&mut self.cache);
    }

    /// Allocates the first free cluster, zeroes its sectors, and answers it
    /// with its sectors.
    pub fn alloc_cluster(&mut self) -> (r: (ClusterId, Range<SectorId>))
        requires
            old(self).wf(),
            old(self).can_alloc(),
        ensures
            final(self).wf(),
            final(self).bpb == old(self).bpb,
            final(self).fat == old(self).fat,
            final(self).data_area == old(self).data_area,
            exists|k: int| {
                &&& is_first_free(old(self).sectors(), old(self).fat, k)
                &&& r.0.0 == k
                &&& r.1.start.0 == old(self).data_area.cluster_start(k as u32)
                &&& r.1.end.0 == old(self).data_area.cluster_start(k as u32) + old(self).data_area.cluster_sectors
                &&& final(self).sectors() == zeroed(
                    recorded_alloc(with_entry(old(self).sectors(), old(self).fat.start(), k, 0xFFFF_FFFF)),
                    r.1.start.0 as int,
                    r.1.end.0 as int,
                )
            },
    {
        let ghost k = choose|k: int|
            #[trigger] is_first_free(self.cache@, self.fat, k) && 2 <= k <= 0x0FFF_FFF6
                && self.data_area.cluster_fits(k as u32) && self.data_area.cluster_start(k as u32)
                + self.data_area.cluster_sectors <= self.data_area.end();
        let id = match self.fat.allocate(&mut self.cache) {
            Some(id) => id,
            None => {
                proof { assert(crate::fat::table::fat_entry(old(self).cache@, self.fat.start(), k) != 0); }
                return (ClusterId::free(), Range { start: SectorId::new(0), end: SectorId::new(0) });
            },
        };
        let ghost k2 = choose|k2: int| {
            &&& is_first_free(old(self).cache@, old(self).fat, k2)
            &&& id.0 == mask28(k2 as u32)
            &&& self.cache@ == recorded_alloc(with_entry(old(self).cache@, old(self).fat.start(), k2, 0xFFFF_FFFF))
        };
        proof {
            if k2 < k {
                assert(crate::fat::table::fat_entry(old(self).cache@, self.fat.start(), k2) != 0);
            }
            if k < k2 {
                assert(crate::fat::table::fat_entry(old(self).cache@, self.fat.start(), k) != 0);
            }
            assert(k2 == k);
            let kk = k as u32;
            assert(kk & 0x0FFF_FFFF == kk) by (bit_vector)
                requires
                    kk <= 0x0FFF_FFF6,
            ;
        }
        let sectors = match self.data_area.cluster(id) {
            Ok(s) => s,
            Err(_) => {
                proof { assert(false); }
                return (id, Range { start: SectorId::new(0), end: SectorId::new(0) });
            },
        };
        zeroize_sectors(&mut self.cache, Range { start: sectors.start, end: sectors.end });
        assert(is_first_free(old(self).sectors(), old(self).fat, k) && id.0 == k
            && sectors.start.0 == old(self).data_area.cluster_start(k as u32)
            && sectors.end.0 == old(self).data_area.cluster_start(k as u32) + old(self).data_area.cluster_sectors);
        (id, sectors)
    }

    /// The sectors of the chain from `start_cluster`, in order.
    pub fn data_sectors(&mut self, start_cluster: ClusterId) -> (r: Vec<SectorId>)
        requires
            old(self).wf(),
            old(self).good_chain(start_cluster),
        ensures
            final(self).same_volume(*old(self)),
            r@ == chain_sectors(old(self).data_area, old(self).chain(start_cluster)),
    {
        let ghost c = self.chain(start_cluster);
        let ghost disk = self.cache@;
        let mut r: Vec<SectorId> = Vec::new();
        let mut cur = start_cluster;
        let ghost mut i: int = 0;
        proof {
            assert(c.take(0) =~= Seq::<u32>::empty());
        }
        loop
            invariant_except_break
                0 <= i < c.len(),
                cur.0 == c[i],
                r@ == chain_sectors(self.data_area, c.take(i)),
            invariant
                self.wf(),
                self.cache@ == disk,
                self.same_volume(*old(self)),
                disk == old(self).cache@,
                c == self.chain(start_cluster),
                is_chain(disk, self.fat, start_cluster, c),
                chain_in_area(self.data_area, c),
            ensures
                r@ == chain_sectors(self.data_area, c),
            decreases c.len() - i,
        {
            assert(self.data_area.cluster_fits(c[i]));
            assert(self.fat.spec_validate_id(ClusterId(c[i])) is Ok);
            let sectors = match self.data_area.cluster(cur) {
                Ok(s) => s,
                Err(_) => {
                    proof { assert(false); }
                    break;
                },
            };
            let ghost base = r@;
            let mut sid = sectors.start.0;
            while sid < sectors.end.0
                invariant
                    sectors.start.0 == self.data_area.cluster_start(c[i]),
                    sectors.end.0 == self.data_area.cluster_end(c[i]),
                    sectors.start.0 <= sid <= sectors.end.0,
                    r@ == base + cluster_sectors_of(self.data_area, c[i]).take(sid - sectors.start.0),
                decreases sectors.end.0 - sid,
            {
                r.push(SectorId::new(sid));
                assert(r@ =~= base + cluster_sectors_of(self.data_area, c[i]).take(sid + 1 - sectors.start.0));
                sid = sid + 1;
            }
            proof {
                let cs = cluster_sectors_of(self.data_area, c[i]);
                assert(cs.take(cs.len() as int) =~= cs);
                assert(c.take(i + 1).drop_last() =~= c.take(i));
                assert(c.take(i + 1).last() == c[i]);
            }
            let next = self.fat.next(&mut self.cache, cur);
            match next {
                Ok(Some(n)) => {
                    proof {
                        if i == c.len() - 1 {
                            assert(false);
                        }
                        assert(n.0 == c[i + 1]);
                        i = i + 1;
                    }
                    cur = n;
                },
                Ok(None) => {
                    proof {
                        if i < c.len() - 1 {
                            assert(self.fat.spec_validate_id(ClusterId(c[i + 1])) is Ok);
                            assert(false);
                        }
                        assert(c.take(i + 1) =~= c);
                    }
                    break;
                },
                Err(_) => {
                    proof {
                        if i < c.len() - 1 {
                            assert(self.fat.spec_validate_id(ClusterId(c[i + 1])) is Ok);
                        }
                        assert(false);
                    }
                    break;
                },
            }
        }
        r
    }

    /// A cursor on the first sector of the chain from `start_cluster`.
    pub fn data_sector_cursor(&mut self, start_cluster: ClusterId) -> (r: SectorCursor)
        requires
            old(self).wf(),
            old(self).good_chain(start_cluster),
        ensures
            *final(self) == *old(self),
            r.wf(*final(self)),
            r.clusters@[0] == start_cluster,
            r.current.0 == 0,
            r.current.2 == 0,
    {
        proof {
            let c = self.chain(start_cluster);
            assert(self.data_area.cluster_fits(c[0]));
            assert(self.fat.spec_validate_id(ClusterId(c[0])) is Ok);
        }
        SectorCursor::new(start_cluster, self)
    }
}

/// A position among the sectors of a chain: the index of the cluster, the
/// sectors of that cluster, the index of the sector in it, and the sector;
/// with the clusters of the chain met so far.
#[derive(Debug)]
pub struct SectorCursor {
    pub current: (usize, Range<SectorId>, usize, SectorId),
    pub clusters: Vec<ClusterId>,
}

/// Position `(ci, si)` comes no later than `(cj, sj)`.
pub open spec fn pos_le(ci: int, si: int, cj: int, sj: int) -> bool {
    ci < cj || (ci == cj && si <= sj)
}

impl SectorCursor {
    /// The chain the cursor walks.
    pub open spec fn chain<D: BlockDevice>(&self, fs: FatFileSystem<D>) -> Seq<u32> {
        fs.chain(self.clusters@[0])
    }

    /// The sector at position `(ci, si)` of the chain.
    pub open spec fn sector_at<D: BlockDevice>(&self, fs: FatFileSystem<D>, ci: int, si: int) -> int {
        fs.data_area.cluster_start(self.chain(fs)[ci]) + si
    }

    /// The cursor stands on a sector of a good chain of `fs`.
    pub open spec fn wf<D: BlockDevice>(&self, fs: FatFileSystem<D>) -> bool {
        let c = self.chain(fs);
        let (ci, sids, si, sid) = self.current;
        &&& fs.wf()
        &&& self.clusters@.len() > 0
        &&& fs.good_chain(self.clusters@[0])
        &&& self.clusters@.len() <= c.len()
        &&& forall|i: int| 0 <= i < self.clusters@.len() ==> (#[trigger] self.clusters@[i]).0 == c[i]
        &&& ci < self.clusters@.len()
        &&& sids.start.0 == fs.data_area.cluster_start(c[ci as int])
        &&& sids.end.0 == fs.data_area.cluster_start(c[ci as int]) + fs.data_area.cluster_sectors
        &&& si < fs.data_area.cluster_sectors
        &&& sid.0 == sids.start.0 + si
    }

    /// A cursor on the first sector of cluster `start_cluster`, the head
    /// of the chain it walks; it is a sound cursor of `fs` when the chain
    /// from there is good.
    pub fn new<D: BlockDevice>(start_cluster: ClusterId, fs: &FatFileSystem<D>) -> (r: Self)
        requires
            fs.data_area.cluster_fits(start_cluster.0),
            fs.data_area.spec_cluster(start_cluster) is Ok,
        ensures
            r.clusters@ == seq![start_cluster],
            r.current.0 == 0,
            r.current.2 == 0,
            fs.data_area.spec_cluster(start_cluster) == Ok::<Range<SectorId>, ClusterError>(r.current.1),
            r.current.3 == r.current.1.start,
            fs.wf() && fs.good_chain(start_cluster) ==> r.wf(*fs),
    {
        let sids = match fs.data_area.cluster(start_cluster) {
            Ok(s) => s,
            Err(_) => {
                proof { assert(false); }
                Range { start: SectorId::new(0), end: SectorId::new(0) }
            },
        };
        let start_sector = sids.start;
        let mut clusters: Vec<ClusterId> = Vec::new();
        clusters.push(start_cluster);
        let r = SectorCursor { current: (0, sids, 0, start_sector), clusters };
        proof {
            if fs.wf() && fs.good_chain(start_cluster) {
                let c = fs.chain(start_cluster);
                assert(fs.data_area.cluster_fits(c[0]));
                assert(fs.fat.spec_validate_id(ClusterId(c[0])) is Ok);
            }
        }
        r
    }

    /// The sector under the cursor.
    pub fn sector(&self) -> (r: SectorId)
        ensures
            r == self.current.3,
    {
        self.current.3
    }

    /// Moves to the next sector of the chain and answers `true`; at the last
    /// sector answers `false` and stays.
    #[verifier::rlimit(60)]
    #[verifier::spinoff_prover]
    pub fn next<D: BlockDevice>(&mut self, fs: &mut FatFileSystem<D>) -> (r: bool)
        requires
            old(self).wf(*old(fs)),
        ensures
            final(fs).same_volume(*old(fs)),
            final(self).wf(*final(fs)),
            final(self).clusters@[0] == old(self).clusters@[0],
            ({
                let c = old(self).chain(*old(fs));
                let (ci, si) = (old(self).current.0 as int, old(self).current.2 as int);
                let (cj, sj) = (final(self).current.0 as int, final(self).current.2 as int);
                if si + 1 < old(fs).data_area.cluster_sectors {
                    r && cj == ci && sj == si + 1
                } else if ci + 1 < c.len() {
                    r && cj == ci + 1 && sj == 0
                } else {
                    !r && cj == ci && sj == si
                }
            }),
    {
        let ghost c = self.chain(*fs);
        let ci = self.current.0;
        let si = self.current.2;
        let cs = fs.data_area.cluster_sectors;
        if si + 1 < cs {
            let next_sid = SectorId::new(self.current.1.start.0 + si + 1);
            self.current.2 = si + 1;
            self.current.3 = next_sid;
            return true;
        }
        let n_clusters = self.clusters.len();
        let next_ci = ci + 1;
        let next_cid = if next_ci < self.clusters.len() {
            self.clusters[next_ci]
        } else {
            assert(fs.fat.spec_validate_id(ClusterId(c[ci as int])) is Ok);
            match fs.fat.next(&mut fs.cache, self.clusters[ci]) {
                Ok(Some(n)) => {
                    proof {
                        if ci + 1 == c.len() {
                            assert(false);
                        }
                    }
                    self.clusters.push(n);
                    n
                },
                Ok(None) => {
                    proof {
                        if ci + 1 < c.len() {
                            assert(fs.fat.spec_validate_id(ClusterId(c[ci + 1])) is Ok);
                            assert(false);
                        }
                    }
                    return false;
                },
                Err(_) => {
                    proof {
                        if ci + 1 < c.len() {
                            assert(fs.fat.spec_validate_id(ClusterId(c[ci + 1])) is Ok);
                        }
                        assert(false);
                    }
                    return false;
                },
            }
        };
        assert(next_cid.0 == c[next_ci as int]);
        assert(fs.data_area.cluster_fits(c[next_ci as int]));
        assert(fs.fat.spec_validate_id(ClusterId(c[next_ci as int])) is Ok);
        let sids = match fs.data_area.cluster(next_cid) {
            Ok(s) => s,
            Err(_) => {
                proof { assert(false); }
                return false;
            },
        };
        let start = sids.start;
        self.current = (next_ci, sids, 0, start);
        true
    }

    /// Moves to the previous sector of the chain and answers `true`; at the
    /// first sector answers `false` and stays.
    #[verifier::spinoff_prover]
    pub fn prev<D: BlockDevice>(&mut self, fs: &mut FatFileSystem<D>) -> (r: bool)
        requires
            old(self).wf(*old(fs)),
        ensures
            final(fs).same_volume(*old(fs)),
            final(self).wf(*final(fs)),
            final(self).clusters@ == old(self).clusters@,
            ({
                let (ci, si) = (old(self).current.0 as int, old(self).current.2 as int);
                let (cj, sj) = (final(self).current.0 as int, final(self).current.2 as int);
                if si > 0 {
                    r && cj == ci && sj == si - 1
                } else if ci > 0 {
                    r && cj == ci - 1 && sj == old(fs).data_area.cluster_sectors - 1
                } else {
                    !r && cj == ci && sj == si
                }
            }),
    {
        let ghost c = self.chain(*fs);
        let ci = self.current.0;
        let si = self.current.2;
        if si > 0 {
            let prev_sid = SectorId::new(self.current.1.start.0 + si - 1);
            self.current.2 = si - 1;
            self.current.3 = prev_sid;
            return true;
        }
        if ci == 0 {
            return false;
        }
        let prev_ci = ci - 1;
        let cid = self.clusters[prev_ci];
        assert(fs.data_area.cluster_fits(c[prev_ci as int]));
        assert(fs.fat.spec_validate_id(ClusterId(c[prev_ci as int])) is Ok);
        let sids = match fs.data_area.cluster(cid) {
            Ok(s) => s,
            Err(_) => {
                proof { assert(false); }
                return false;
            },
        };
        let sindex = fs.data_area.cluster_sectors - 1;
        let sid = SectorId::new(sids.start.0 + sindex);
        self.current = (prev_ci, sids, sindex, sid);
        true
    }

    /// Moves forward, from the sector under the cursor on, to the first
    /// sector `sector` and answers `true`; answers `false` at the chain's
    /// last sector when there is none.
    pub fn find<D: BlockDevice>(&mut self, fs: &mut FatFileSystem<D>, sector: SectorId) -> (r: bool)
        requires
            old(self).wf(*old(fs)),
        ensures
            final(fs).same_volume(*old(fs)),
            final(self).wf(*final(fs)),
            final(self).clusters@[0] == old(self).clusters@[0],
            pos_le(old(self).current.0 as int, old(self).current.2 as int, final(self).current.0 as int, final(self).current.2 as int),
            r ==> final(self).current.3 == sector,
            forall|ci: int, si: int|
                0 <= si < old(fs).data_area.cluster_sectors
                    && pos_le(old(self).current.0 as int, old(self).current.2 as int, ci, si)
                    && pos_le(ci, si, final(self).current.0 as int, final(self).current.2 as int)
                    && !(r && ci == final(self).current.0 && si == final(self).current.2)
                    ==> old(self).sector_at(*old(fs), ci, si) != sector.0,
            !r ==> final(self).current.0 == old(self).chain(*old(fs)).len() - 1
                && final(self).current.2 == old(fs).data_area.cluster_sectors - 1,
    {
        let ghost c = self.chain(*fs);
        loop
            invariant
                self.wf(*fs),
                fs.same_volume(*old(fs)),
                self.clusters@[0] == old(self).clusters@[0],
                c == self.chain(*fs),
                pos_le(old(self).current.0 as int, old(self).current.2 as int, self.current.0 as int, self.current.2 as int),
                forall|ci: int, si: int|
                    0 <= si < fs.data_area.cluster_sectors
                        && pos_le(old(self).current.0 as int, old(self).current.2 as int, ci, si)
                        && pos_le(ci, si, self.current.0 as int, self.current.2 as int)
                        && !(ci == self.current.0 && si == self.current.2)
                        ==> old(self).sector_at(*old(fs), ci, si) != sector.0,
            decreases c.len() - self.current.0, fs.data_area.cluster_sectors - self.current.2,
        {
            if self.current.3 == sector {
                return true;
            }
            let ghost pc = self.current.0;
            let ghost ps = self.current.2;
            let moved = self.next(fs);
            if !moved {
                return false;
            }
            assert forall|ci: int, si: int|
                0 <= si < fs.data_area.cluster_sectors
                    && pos_le(old(self).current.0 as int, old(self).current.2 as int, ci, si)
                    && pos_le(ci, si, self.current.0 as int, self.current.2 as int)
                    && !(ci == self.current.0 && si == self.current.2)
                    implies old(self).sector_at(*old(fs), ci, si) != sector.0 by {
                if ci == pc && si == ps {
                } else {
                    assert(pos_le(ci, si, pc as int, ps as int));
                }
            }
        }
    }

    /// Moves backward, from the sector under the cursor on, to the first
    /// sector `sector` and answers `true`; answers `false` at the chain's
    /// first sector when there is none.
    pub fn rfind<D: BlockDevice>(&mut self, fs: &mut FatFileSystem<D>, sector: SectorId) -> (r: bool)
        requires
            old(self).wf(*old(fs)),
        ensures
            final(fs).same_volume(*old(fs)),
            final(self).wf(*final(fs)),
            final(self).clusters@ == old(self).clusters@,
            pos_le(final(self).current.0 as int, final(self).current.2 as int, old(self).current.0 as int, old(self).current.2 as int),
            r ==> final(self).current.3 == sector,
            forall|ci: int, si: int|
                0 <= si < old(fs).data_area.cluster_sectors
                    && pos_le(final(self).current.0 as int, final(self).current.2 as int, ci, si)
                    && pos_le(ci, si, old(self).current.0 as int, old(self).current.2 as int)
                    && !(r && ci == final(self).current.0 && si == final(self).current.2)
                    ==> old(self).sector_at(*old(fs), ci, si) != sector.0,
            !r ==> final(self).current.0 == 0 && final(self).current.2 == 0,
    {
        loop
            invariant
                self.wf(*fs),
                fs.same_volume(*old(fs)),
                self.clusters@ == old(self).clusters@,
                pos_le(self.current.0 as int, self.current.2 as int, old(self).current.0 as int, old(self).current.2 as int),
                forall|ci: int, si: int|
                    0 <= si < fs.data_area.cluster_sectors
                        && pos_le(self.current.0 as int, self.current.2 as int, ci, si)
                        && pos_le(ci, si, old(self).current.0 as int, old(self).current.2 as int)
                        && !(ci == self.current.0 && si == self.current.2)
                        ==> old(self).sector_at(*old(fs), ci, si) != sector.0,
            decreases self.current.0, self.current.2,
        {
            if self.current.3 == sector {
                return true;
            }
            let ghost pc = self.current.0;
            let ghost ps = self.current.2;
            let moved = self.prev(fs);
            if !moved {
                return false;
            }
            assert forall|ci: int, si: int|
                0 <= si < fs.data_area.cluster_sectors
                    && pos_le(self.current.0 as int, self.current.2 as int, ci, si)
                    && pos_le(ci, si, old(self).current.0 as int, old(self).current.2 as int)
                    && !(ci == self.current.0 && si == self.current.2)
                    implies old(self).sector_at(*old(fs), ci, si) != sector.0 by {
                if ci == pc && si == ps {
                } else {
                    assert(pos_le(pc as int, ps as int, ci, si));
                }
            }
        }
    }
}

} // verus!
