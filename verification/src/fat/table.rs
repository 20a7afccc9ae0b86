//! The File Allocation Table: one 32-bit entry per cluster, holding the
//! number of the next cluster of its chain, [`ClusterId::eof`] at a chain's
//! end, or [`ClusterId::free`] for an unallocated cluster.

use vstd::prelude::*;

use core::ops::Range;

use crate::block_cache::splice;
use crate::block_dev::{blocks_wf, BlockDevice};
use crate::fat::bpb::Bpb;
use crate::fat::cluster::{mask28, spec_validate, ClusterError, ClusterId};
use crate::fat::fs_info::{disk_free_count, record_alloc, record_free, with_free_count, FS_INFO_SECTOR};
use crate::fat::sector::{CacheManager, SectorId};
use crate::BLOCK_SIZE;
use vstd::bytes::{
    lemma_auto_spec_u32_to_from_le_bytes, spec_u32_from_le_bytes, spec_u32_to_le_bytes, u32_from_le_bytes,
};

verus! {

/// FAT entries held by one sector.
pub const SECTOR_CLUSTERS: usize = 128;

/// The raw FAT entry of cluster `id`, in a FAT that starts at sector `start`.
pub open spec fn fat_entry(disk: Seq<Seq<u8>>, start: int, id: int) -> u32 {
    spec_u32_from_le_bytes(disk[start + id / 128].subrange(4 * (id % 128), 4 * (id % 128) + 4))
}

/// `disk` with the FAT entry of cluster `id` set to `v`.
pub open spec fn with_entry(disk: Seq<Seq<u8>>, start: int, id: int, v: u32) -> Seq<Seq<u8>> {
    disk.update(start + id / 128, splice(disk[start + id / 128], 4 * (id % 128), spec_u32_to_le_bytes(v)))
}

/// `disk` after recording one allocation in the FSINFO sector.
pub open spec fn recorded_alloc(disk: Seq<Seq<u8>>) -> Seq<Seq<u8>> {
    with_free_count(disk, crate::fat::fs_info::count_after_alloc(disk_free_count(disk)))
}

/// `disk` after recording one release in the FSINFO sector.
pub open spec fn recorded_free(disk: Seq<Seq<u8>>) -> Seq<Seq<u8>> {
    with_free_count(disk, crate::fat::fs_info::count_after_free(disk_free_count(disk)))
}

/// Writing one entry changes no other entry, and keeps every sector's size.
pub proof fn lemma_with_entry(disk: Seq<Seq<u8>>, start: int, id: int, v: u32, other: int)
    requires
        blocks_wf(disk),
        0 <= start,
        0 <= id,
        0 <= other,
        start + id / 128 < disk.len(),
        start + other / 128 < disk.len(),
    ensures
        blocks_wf(with_entry(disk, start, id, v)),
        with_entry(disk, start, id, v).len() == disk.len(),
        fat_entry(with_entry(disk, start, id, v), start, other) == if other == id { v } else { fat_entry(disk, start, other) },
        forall|s: int| 0 <= s < disk.len() && s != start + id / 128 ==> #[trigger] with_entry(disk, start, id, v)[s] == disk[s],
{
    lemma_auto_spec_u32_to_from_le_bytes();
    let d2 = with_entry(disk, start, id, v);
    let s = start + id / 128;
    assert(disk[s].len() == BLOCK_SIZE);
    assert forall|i: int| 0 <= i < d2.len() implies (#[trigger] d2[i]).len() == BLOCK_SIZE by {
        assert(disk[i].len() == BLOCK_SIZE);
    }
    let e = id % 128;
    let e2 = other % 128;
    if other == id {
        assert(d2[s].subrange(4 * e, 4 * e + 4) =~= spec_u32_to_le_bytes(v));
    } else if start + other / 128 == s {
        assert(e != e2) by {
            vstd::arithmetic::div_mod::lemma_fundamental_div_mod(id, 128);
            vstd::arithmetic::div_mod::lemma_fundamental_div_mod(other, 128);
        }
        assert(d2[s].subrange(4 * e2, 4 * e2 + 4) =~= disk[s].subrange(4 * e2, 4 * e2 + 4));
    }
}

/// Recording the free count leaves the FAT, beyond the FSINFO sector, alone.
pub proof fn lemma_free_count_frame(disk: Seq<Seq<u8>>, start: int, id: int, n: u32)
    requires
        FS_INFO_SECTOR < start,
        0 <= id,
        FS_INFO_SECTOR < disk.len(),
        start + id / 128 < disk.len(),
    ensures
        fat_entry(with_free_count(disk, n), start, id) == fat_entry(disk, start, id),
        disk_free_count(with_entry(disk, start, id, n)) == disk_free_count(disk),
        with_free_count(disk, n).len() == disk.len(),
{
}

/// Where a FAT entry lies: a sector and an index among the sector's entries.
#[derive(Debug, Clone, Copy, PartialEq, Eq, Structural)]
pub struct ClusterIdPos {
    pub sector: SectorId,
    pub nth: usize,
}

impl ClusterIdPos {
    /// The entry stored here.
    pub fn access<D: BlockDevice>(&self, cache: &mut CacheManager<D>) -> (r: ClusterId)
        requires
            old(cache).wf(),
            self.sector.0 < old(cache)@.len(),
            self.nth < SECTOR_CLUSTERS,
        ensures
            final(cache).wf(),
            final(cache)@ == old(cache)@,
            final(cache).device_blocks().len() == old(cache).device_blocks().len(),
            r.0 == spec_u32_from_le_bytes(old(cache)@[self.sector.0 as int].subrange(4 * self.nth, 4 * self.nth + 4)),
    {
        ClusterId(cache.read_u32(self.sector.0, self.nth * 4))
    }

    /// Stores `id` here and gives back the entry it replaced.
    pub fn access_mut<D: BlockDevice>(&self, cache: &mut CacheManager<D>, id: ClusterId) -> (r: ClusterId)
        requires
            old(cache).wf(),
            self.sector.0 < old(cache)@.len(),
            self.nth < SECTOR_CLUSTERS,
        ensures
            final(cache).wf(),
            final(cache)@ == old(cache)@.update(
                self.sector.0 as int,
                splice(old(cache)@[self.sector.0 as int], 4 * self.nth, spec_u32_to_le_bytes(id.0)),
            ),
            final(cache).device_blocks().len() == old(cache).device_blocks().len(),
            r.0 == spec_u32_from_le_bytes(old(cache)@[self.sector.0 as int].subrange(4 * self.nth, 4 * self.nth + 4)),
    {
        let old_id = cache.read_u32(self.sector.0, self.nth * 4);
        cache.write_u32(self.sector.0, self.nth * 4, id.0);
        ClusterId(old_id)
    }
}

/// The FAT: the sectors it occupies.
#[derive(Debug)]
pub struct Fat {
    pub range: Range<SectorId>,
}

impl Fat {
    pub open spec fn start(&self) -> int {
        self.range.start.0 as int
    }

    pub open spec fn end(&self) -> int {
        self.range.end.0 as int
    }

    /// Number of entries the FAT holds.
    pub open spec fn spec_entries(&self) -> int {
        (self.end() - self.start()) * 128
    }

    /// The FAT lies after the FSINFO sector, and its sizes fit the machine.
    pub open spec fn wf(&self) -> bool {
        &&& FS_INFO_SECTOR < self.start() <= self.end()
        &&& self.spec_entries() <= 0x1_0000_0000
        &&& self.end() + 0x200_0000 <= usize::MAX
    }

    /// The FAT lies on a disk of `len` sectors.
    pub open spec fn fits(&self, len: int) -> bool {
        self.end() <= len
    }

    /// What [`Fat::validate_id`] answers: the number itself when it names a
    /// usable cluster whose entry lies in this FAT.
    pub open spec fn spec_validate_id(&self, id: ClusterId) -> Result<ClusterId, ClusterError> {
        match spec_validate(id) {
            Err(e) => Err(e),
            Ok(id) => if self.start() + id.0 / 128 < self.end() {
                Ok(id)
            } else {
                Err(ClusterError::Reserved)
            },
        }
    }

    /// The FAT of the volume `bpb` describes.
    pub fn new(bpb: &Bpb) -> (r: Self)
        requires
            bpb.rsvd_sec_cnt + bpb.spec_fat_sectors() <= usize::MAX,
        ensures
            r.start() == bpb.rsvd_sec_cnt,
            r.end() == bpb.rsvd_sec_cnt + bpb.spec_fat_sectors(),
    {
        let start = bpb.fat_area();
        let end = SectorId::new(start.0 + bpb.fat_sectors());
        Fat { range: Range { start, end } }
    }

    /// The sectors the FAT occupies.
    pub fn range(&self) -> (r: Range<SectorId>)
        ensures
            r == self.range,
    {
        Range { start: self.range.start, end: self.range.end }
    }

    /// How many entries one sector holds.
    fn sector_clusters() -> (r: usize)
        ensures
            r == SECTOR_CLUSTERS,
    {
        SECTOR_CLUSTERS
    }

    /// The sector that holds the entry of `id`.
    fn get_sector(&self, id: ClusterId) -> (r: SectorId)
        requires
            self.wf(),
        ensures
            r.0 == self.start() + id.0 / 128,
    {
        SectorId::new(self.range.start.0 + id.0 as usize / Self::sector_clusters())
    }

    /// The number itself when it names a usable cluster whose entry lies in this FAT.
    fn validate_id(&self, id: ClusterId) -> (r: Result<ClusterId, ClusterError>)
        requires
            self.wf(),
        ensures
            r == self.spec_validate_id(id),
    {
        match id.validate() {
            Err(e) => Err(e),
            Ok(id) => {
                let sector = self.get_sector(id);
                if self.range.start.0 <= sector.0 && sector.0 < self.range.end.0 {
                    Ok(id)
                } else {
                    Err(ClusterError::Reserved)
                }
            },
        }
    }

    /// Where the entry of `id` lies.
    fn id2pos(&self, id: ClusterId) -> (r: ClusterIdPos)
        requires
            self.wf(),
        ensures
            r.sector.0 == self.start() + id.0 / 128,
            r.nth == id.0 % 128,
    {
        ClusterIdPos { sector: self.get_sector(id), nth: id.0 as usize % Self::sector_clusters() }
    }
}

/// What [`Fat::next`] answers: the cluster after `id` in its chain, `None`
/// at the chain's end, or why `id` or its entry names no usable cluster.
pub open spec fn spec_next(disk: Seq<Seq<u8>>, fat: Fat, id: ClusterId) -> Result<Option<ClusterId>, ClusterError> {
    match fat.spec_validate_id(id) {
        Err(e) => Err(e),
        Ok(id) => match spec_validate(ClusterId(fat_entry(disk, fat.start(), id.0 as int))) {
            Ok(n) => Ok(Some(n)),
            Err(ClusterError::Eof) => Ok(None),
            Err(e) => Err(e),
        },
    }
}

/// Following the chain from `id` for at most `fuel` steps: its last cluster,
/// the first error met, or `None` when the fuel ran out first.
pub open spec fn walk(disk: Seq<Seq<u8>>, fat: Fat, id: ClusterId, fuel: nat) -> Option<Result<ClusterId, ClusterError>>
    decreases fuel,
{
    if fuel == 0 {
        None
    } else {
        match spec_next(disk, fat, id) {
            Err(e) => Some(Err(e)),
            Ok(None) => Some(Ok(id)),
            Ok(Some(n)) => walk(disk, fat, n, (fuel - 1) as nat),
        }
    }
}

/// Following the chain from `id` comes to an end: a last cluster or an error.
pub open spec fn chain_ends(disk: Seq<Seq<u8>>, fat: Fat, id: ClusterId) -> bool {
    exists|f: nat| (#[trigger] walk(disk, fat, id, f)) is Some
}

/// What [`Fat::last`] answers.
pub open spec fn spec_last(disk: Seq<Seq<u8>>, fat: Fat, id: ClusterId) -> Result<ClusterId, ClusterError> {
    walk(disk, fat, id, last_fuel(disk, fat, id))->0
}

/// Fuel enough for the walk from `id` to end, where some is.
pub open spec fn last_fuel(disk: Seq<Seq<u8>>, fat: Fat, id: ClusterId) -> nat {
    choose|f: nat| (#[trigger] walk(disk, fat, id, f)) is Some
}

/// More fuel changes nothing once the walk has ended.
pub proof fn lemma_walk_mono(disk: Seq<Seq<u8>>, fat: Fat, id: ClusterId, f1: nat, f2: nat)
    requires
        walk(disk, fat, id, f1) is Some,
        f1 <= f2,
    ensures
        walk(disk, fat, id, f2) == walk(disk, fat, id, f1),
    decreases f1,
{
    if let Ok(Some(n)) = spec_next(disk, fat, id) {
        lemma_walk_mono(disk, fat, n, (f1 - 1) as nat, (f2 - 1) as nat);
    }
}

/// `c` is the chain from `id`: distinct usable clusters of this FAT, each
/// entry naming the next one, the last one's entry [`ClusterId::eof`].
pub open spec fn is_chain(disk: Seq<Seq<u8>>, fat: Fat, id: ClusterId, c: Seq<u32>) -> bool {
    &&& c.len() > 0
    &&& c[0] == id.0
    &&& forall|i: int| 0 <= i < c.len() ==> (#[trigger] fat.spec_validate_id(ClusterId(c[i]))) is Ok
    &&& forall|i: int| 0 <= i < c.len() - 1 ==> fat_entry(disk, fat.start(), #[trigger] c[i] as int) == c[i + 1]
    &&& fat_entry(disk, fat.start(), c.last() as int) == 0xFFFF_FFFF
    &&& forall|i: int, j: int| 0 <= i < j < c.len() ==> #[trigger] c[i] != #[trigger] c[j]
}

/// The chain from `id`, where there is one.
pub open spec fn chain_of(disk: Seq<Seq<u8>>, fat: Fat, id: ClusterId) -> Seq<u32> {
    choose|c: Seq<u32>| is_chain(disk, fat, id, c)
}

/// `disk` after the clusters of `c` were freed one by one, each release
/// recorded in the FSINFO sector.
pub open spec fn released(disk: Seq<Seq<u8>>, start: int, c: Seq<u32>) -> Seq<Seq<u8>>
    decreases c.len(),
{
    if c.len() == 0 {
        disk
    } else {
        released(recorded_free(with_entry(disk, start, c[0] as int, 0)), start, c.drop_first())
    }
}

/// Freeing the clusters of `c` changes only the FAT and the FSINFO sector,
/// and no entry outside `c`.
pub proof fn lemma_released_frame(disk: Seq<Seq<u8>>, fat: Fat, c: Seq<u32>)
    requires
        fat.wf(),
        blocks_wf(disk),
        fat.fits(disk.len() as int),
        forall|i: int| 0 <= i < c.len() ==> fat.start() + (#[trigger] c[i]) / 128 < fat.end(),
    ensures
        released(disk, fat.start(), c).len() == disk.len(),
        blocks_wf(released(disk, fat.start(), c)),
        forall|s: int| 0 <= s < disk.len() && s != FS_INFO_SECTOR && !(fat.start() <= s < fat.end())
            ==> #[trigger] released(disk, fat.start(), c)[s] == disk[s],
        forall|j: int| 0 <= j < fat.spec_entries() && (forall|i: int| 0 <= i < c.len() ==> #[trigger] c[i] != j)
            ==> #[trigger] fat_entry(released(disk, fat.start(), c), fat.start(), j) == fat_entry(disk, fat.start(), j),
    decreases c.len(),
{
    if c.len() > 0 {
        let start = fat.start();
        let k = c[0] as int;
        let mid = with_entry(disk, start, k, 0);
        let now = recorded_free(mid);
        lemma_with_entry(disk, start, k, 0, 0);
        assert(mid[FS_INFO_SECTOR as int].len() == BLOCK_SIZE);
        lemma_auto_spec_u32_to_from_le_bytes();
        assert forall|t: int| 0 <= t < now.len() implies (#[trigger] now[t]).len() == BLOCK_SIZE by {
            assert(mid[t].len() == BLOCK_SIZE);
        }
        let rest = c.drop_first();
        assert forall|i: int| 0 <= i < rest.len() implies fat.start() + (#[trigger] rest[i]) / 128 < fat.end() by {
            assert(rest[i] == c[i + 1]);
        }
        lemma_released_frame(now, fat, rest);
        assert forall|j: int| 0 <= j < fat.spec_entries() && (forall|i: int| 0 <= i < c.len() ==> #[trigger] c[i] != j)
            implies #[trigger] fat_entry(released(disk, start, c), start, j) == fat_entry(disk, start, j) by {
            assert(c[0] != j);
            assert forall|i: int| 0 <= i < rest.len() implies #[trigger] rest[i] != j by {
                assert(rest[i] == c[i + 1]);
            }
            lemma_with_entry(disk, start, k, 0, j);
            lemma_free_count_frame(mid, start, j, crate::fat::fs_info::count_after_free(crate::fat::fs_info::disk_free_count(mid)));
        }
    }
}

/// The first free entry of the FAT is `k`.
pub open spec fn is_first_free(disk: Seq<Seq<u8>>, fat: Fat, k: int) -> bool {
    &&& 0 <= k < fat.spec_entries()
    &&& fat_entry(disk, fat.start(), k) == 0
    &&& forall|j: int| 0 <= j < k ==> fat_entry(disk, fat.start(), j) != 0
}

proof fn lemma_entry_split(i: int, j: int)
    requires
        0 <= i,
        0 <= j < 128,
    ensures
        (i * 128 + j) / 128 == i,
        (i * 128 + j) % 128 == j,
{
    vstd::arithmetic::div_mod::lemma_fundamental_div_mod_converse(i * 128 + j, 128, i, j);
}

/// The free-cluster count `n` after `i` releases.
pub open spec fn count_after_frees(n: u32, i: int) -> u32
    decreases i,
{
    if i <= 0 {
        n
    } else {
        crate::fat::fs_info::count_after_free(count_after_frees(n, i - 1))
    }
}

/// Midway through freeing the chain `c` of `disk`: its first `i` clusters
/// are free and recorded, the rest of the chain is as it was.
pub open spec fn release_state(disk: Seq<Seq<u8>>, now: Seq<Seq<u8>>, fat: Fat, c: Seq<u32>, i: int) -> bool {
    &&& blocks_wf(now)
    &&& now.len() == disk.len()
    &&& released(now, fat.start(), c.skip(i)) == released(disk, fat.start(), c)
    &&& disk_free_count(now) == count_after_frees(disk_free_count(disk), i)
    &&& forall|j: int| i <= j < c.len() ==> fat_entry(now, fat.start(), #[trigger] c[j] as int) == fat_entry(disk, fat.start(), c[j] as int)
}

/// Freeing the next cluster of the chain moves one step through [`released`].
proof fn lemma_released_step(before: Seq<Seq<u8>>, start: int, c: Seq<u32>, i: int)
    requires
        0 <= i < c.len(),
    ensures
        released(before, start, c.skip(i)) == released(recorded_free(with_entry(before, start, c[i] as int, 0)), start, c.skip(i + 1)),
{
    assert(c.skip(i).drop_first() =~= c.skip(i + 1));
    assert(c.skip(i)[0] == c[i]);
}

/// Freeing one cluster and recording it leaves the sizes of the sectors and
/// every other entry alone.
proof fn lemma_free_one(before: Seq<Seq<u8>>, fat: Fat, k: int, other: int)
    requires
        fat.wf(),
        blocks_wf(before),
        fat.fits(before.len() as int),
        0 <= k,
        0 <= other,
        fat.start() + k / 128 < fat.end(),
        fat.start() + other / 128 < fat.end(),
    ensures
        ({
            let mid = with_entry(before, fat.start(), k, 0);
            let now = recorded_free(mid);
            &&& blocks_wf(now)
            &&& now.len() == before.len()
            &&& disk_free_count(now) == crate::fat::fs_info::count_after_free(disk_free_count(before))
            &&& other != k ==> fat_entry(now, fat.start(), other) == fat_entry(before, fat.start(), other)
        }),
{
    let start = fat.start();
    let mid = with_entry(before, start, k, 0);
    let now = recorded_free(mid);
    lemma_with_entry(before, start, k, 0, other);
    lemma_free_count_frame(before, start, k, 0);
    crate::fat::fs_info::lemma_free_count_roundtrip(mid, crate::fat::fs_info::count_after_free(disk_free_count(mid)));
    lemma_free_count_frame(mid, start, other, crate::fat::fs_info::count_after_free(disk_free_count(mid)));
    assert forall|s: int| 0 <= s < now.len() implies (#[trigger] now[s]).len() == BLOCK_SIZE by {
        assert(mid[s].len() == BLOCK_SIZE);
    }
}

/// One step of [`Fat::dealloc`] keeps [`release_state`].
#[verifier::rlimit(100)]
#[verifier::spinoff_prover]
proof fn lemma_release_step(disk: Seq<Seq<u8>>, before: Seq<Seq<u8>>, fat: Fat, id: ClusterId, c: Seq<u32>, i: int)
    requires
        fat.wf(),
        fat.fits(disk.len() as int),
        is_chain(disk, fat, id, c),
        0 <= i < c.len(),
        release_state(disk, before, fat, c, i),
    ensures
        ({
            let now = recorded_free(with_entry(before, fat.start(), c[i] as int, 0));
            &&& released(before, fat.start(), c.skip(i)) == released(now, fat.start(), c.skip(i + 1))
            &&& release_state(disk, now, fat, c, i + 1)
            &&& fat_entry(before, fat.start(), c[i] as int) == if i < c.len() - 1 { c[i + 1] } else { 0xFFFF_FFFFu32 }
        }),
{
    let start = fat.start();
    let now = recorded_free(with_entry(before, start, c[i] as int, 0));
    assert(fat.spec_validate_id(ClusterId(c[i])) is Ok);
    lemma_released_step(before, start, c, i);
    lemma_free_one(before, fat, c[i] as int, c[i] as int);
    assert forall|j: int| i + 1 <= j < c.len() implies fat_entry(now, start, #[trigger] c[j] as int) == fat_entry(disk, start, c[j] as int) by {
        assert(fat.spec_validate_id(ClusterId(c[j])) is Ok);
        lemma_free_one(before, fat, c[i] as int, c[j] as int);
    }
    if i < c.len() - 1 {
        assert(fat_entry(disk, start, c[i] as int) == c[i + 1]);
    }
}

impl Fat {
    /// The cluster after `id` in its chain; `None` when `id` is its last.
    pub fn next<D: BlockDevice>(&self, cache: &mut CacheManager<D>, id: ClusterId) -> (r: Result<Option<ClusterId>, ClusterError>)
        requires
            self.wf(),
            old(cache).wf(),
            self.fits(old(cache)@.len() as int),
        ensures
            final(cache).wf(),
            final(cache)@ == old(cache)@,
            final(cache).device_blocks().len() == old(cache).device_blocks().len(),
            r == spec_next(old(cache)@, *self, id),
    {
        let id = match self.validate_id(id) {
            Err(e) => return Err(e),
            Ok(id) => id,
        };
        let raw = self.id2pos(id).access(cache);
        match raw.validate() {
            Ok(n) => Ok(Some(n)),
            Err(ClusterError::Eof) => Ok(None),
            Err(e) => Err(e),
        }
    }

    /// The last cluster of the chain from `id`.
    pub fn last<D: BlockDevice>(&self, cache: &mut CacheManager<D>, id: ClusterId) -> (r: Result<ClusterId, ClusterError>)
        requires
            self.wf(),
            old(cache).wf(),
            self.fits(old(cache)@.len() as int),
            chain_ends(old(cache)@, *self, id),
        ensures
            final(cache).wf(),
            final(cache)@ == old(cache)@,
            final(cache).device_blocks().len() == old(cache).device_blocks().len(),
            r == spec_last(old(cache)@, *self, id),
    {
        let ghost disk = cache@;
        let ghost fuel = last_fuel(disk, *self, id);
        let ghost mut left: nat = fuel;
        let mut cur = id;
        loop
            invariant
                self.wf(),
                cache.wf(),
                cache@ == disk,
                disk == old(cache)@,
                cache.device_blocks().len() == old(cache).device_blocks().len(),
                self.fits(disk.len() as int),
                fuel == last_fuel(disk, *self, id),
                walk(disk, *self, id, fuel) is Some,
                walk(disk, *self, cur, left) == walk(disk, *self, id, fuel),
            decreases left,
        {
            let step = self.next(cache, cur);
            proof {
                assert(left > 0);
                assert(walk(disk, *self, cur, left) == match step {
                    Err(e) => Some(Err(e)),
                    Ok(None) => Some(Ok(cur)),
                    Ok(Some(n)) => walk(disk, *self, n, (left - 1) as nat),
                });
            }
            match step {
                Err(e) => {
                    assert(walk(disk, *self, id, fuel) == Some(Err::<ClusterId, ClusterError>(e)));
                    return Err(e);
                },
                Ok(None) => {
                    assert(walk(disk, *self, id, fuel) == Some(Ok::<ClusterId, ClusterError>(cur)));
                    return Ok(cur);
                },
                Ok(Some(n)) => {
                    proof { left = (left - 1) as nat; }
                    cur = n;
                },
            }
        }
    }

    /// Marks the root directory's cluster allocated: entries 0 and 1 take
    /// the media byte and the volume flags, entry 2 ends a chain.
    pub fn alloc_root<D: BlockDevice>(&mut self, cache: &mut CacheManager<D>, bpb: &Bpb)
        requires
            old(self).wf(),
            old(cache).wf(),
            old(self).fits(old(cache)@.len() as int),
            old(self).start() < old(self).end(),
        ensures
            *final(self) == *old(self),
            final(cache).wf(),
            final(cache).device_blocks().len() == old(cache).device_blocks().len(),
            final(cache)@ == recorded_alloc(with_entry(with_entry(with_entry(
                old(cache)@, old(self).start(), 0, mask28((0xFFFF_FF00 + bpb.media.spec_value()) as u32)),
                old(self).start(), 1, mask28(0x0C00_0000u32 | 0xFFFF_FFFFu32)),
                old(self).start(), 2, 0xFFFF_FFFF)),
    {
        let sector = self.range.start;
        let media = bpb.media.value() as u32;
        let first = ClusterId::new(0xFFFF_FF00 + media);
        let second = ClusterId::new((0x0800_0000 + 0x0400_0000) | u32::MAX);
        ClusterIdPos { sector, nth: 0 }.access_mut(cache, first);
        ClusterIdPos { sector, nth: 1 }.access_mut(cache, second);
        ClusterIdPos { sector, nth: 2 }.access_mut(cache, ClusterId::eof());
        record_alloc(cache);
    }

    /// Finds the first free entry, marks it the end of a chain, records the
    /// allocation and answers its cluster; `None` when no entry is free.
    /// The cluster's contents are left as they are.
    pub fn allocate<D: BlockDevice>(&mut self, cache: &mut CacheManager<D>) -> (r: Option<ClusterId>)
        requires
            old(self).wf(),
            old(cache).wf(),
            old(self).fits(old(cache)@.len() as int),
        ensures
            *final(self) == *old(self),
            final(cache).wf(),
            final(cache).device_blocks().len() == old(cache).device_blocks().len(),
            match r {
                None => {
                    &&& final(cache)@ == old(cache)@
                    &&& forall|k: int| 0 <= k < old(self).spec_entries() ==> fat_entry(old(cache)@, old(self).start(), k) != 0
                },
                Some(c) => exists|k: int| {
                    &&& is_first_free(old(cache)@, *old(self), k)
                    &&& c.0 == mask28(k as u32)
                    &&& final(cache)@ == recorded_alloc(with_entry(old(cache)@, old(self).start(), k, 0xFFFF_FFFF))
                },
            },
    {
        let ghost disk = cache@;
        proof { cache.lemma_wf_view(); }
        let n = self.range.end.0 - self.range.start.0;
        let mut i: usize = 0;
        while i < n
            invariant
                self.wf(),
                *self == *old(self),
                n == self.end() - self.start(),
                cache.wf(),
                cache@ == disk,
                disk == old(cache)@,
                blocks_wf(disk),
                cache.device_blocks().len() == old(cache).device_blocks().len(),
                self.fits(disk.len() as int),
                i <= n,
                forall|k: int| 0 <= k < i * 128 ==> fat_entry(disk, self.start(), k) != 0,
            decreases n - i,
        {
            let sid = self.range.start.0 + i;
            let bytes = cache.read(sid, 0, BLOCK_SIZE);
            let mut j: usize = 0;
            while j < SECTOR_CLUSTERS
                invariant
                    self.wf(),
                    *self == *old(self),
                    n == self.end() - self.start(),
                    cache.wf(),
                    cache@ == disk,
                    disk == old(cache)@,
                    blocks_wf(disk),
                    cache.device_blocks().len() == old(cache).device_blocks().len(),
                    self.fits(disk.len() as int),
                    i < n,
                    sid == self.start() + i,
                    bytes@ == disk[sid as int].subrange(0, BLOCK_SIZE as int),
                    j <= SECTOR_CLUSTERS,
                    forall|k: int| 0 <= k < i * 128 + j ==> fat_entry(disk, self.start(), k) != 0,
                decreases SECTOR_CLUSTERS - j,
            {
                let v = u32_from_le_bytes(&bytes.as_slice()[4 * j..4 * j + 4]);
                proof {
                    lemma_entry_split(i as int, j as int);
                    assert(bytes@.subrange(4 * j, 4 * j + 4) =~= disk[sid as int].subrange(4 * j, 4 * j + 4));
                    assert(v == fat_entry(disk, self.start(), i * 128 + j));
                }
                if v == 0 {
                    let pos = ClusterIdPos { sector: SectorId::new(sid), nth: j };
                    pos.access_mut(cache, ClusterId::eof());
                    record_alloc(cache);
                    let k = i * SECTOR_CLUSTERS + j;
                    proof {
                        assert(is_first_free(disk, *self, k as int));
                    }
                    return Some(ClusterId::new(k as u32));
                }
                j = j + 1;
            }
            i = i + 1;
        }
        None
    }

    /// Links `prev` to `next`. Whatever followed `prev` is no longer reached
    /// from it, so `prev` should end its chain.
    pub fn couple<D: BlockDevice>(&mut self, cache: &mut CacheManager<D>, prev: ClusterId, next: ClusterId)
        requires
            old(self).wf(),
            old(cache).wf(),
            old(self).fits(old(cache)@.len() as int),
            old(self).spec_validate_id(prev) is Ok,
        ensures
            *final(self) == *old(self),
            final(cache).wf(),
            final(cache).device_blocks().len() == old(cache).device_blocks().len(),
            final(cache)@ == with_entry(old(cache)@, old(self).start(), prev.0 as int, next.0),
    {
        self.id2pos(prev).access_mut(cache, next);
    }

    /// Frees every cluster of the chain from `id`, recording each release.
    pub fn dealloc<D: BlockDevice>(&mut self, cache: &mut CacheManager<D>, id: ClusterId) -> (r: Result<(), ClusterError>)
        requires
            old(self).wf(),
            old(cache).wf(),
            old(self).fits(old(cache)@.len() as int),
            old(self).spec_validate_id(id) is Ok ==> exists|c: Seq<u32>| is_chain(old(cache)@, *old(self), id, c),
        ensures
            *final(self) == *old(self),
            final(cache).wf(),
            final(cache).device_blocks().len() == old(cache).device_blocks().len(),
            r == match old(self).spec_validate_id(id) {
                Err(e) => Err(e),
                Ok(_) => Ok(()),
            },
            final(cache)@.len() == old(cache)@.len(),
            r is Err ==> final(cache)@ == old(cache)@,
            r is Ok ==> final(cache)@ == released(old(cache)@, old(self).start(), chain_of(old(cache)@, *old(self), id)),
    {
        let id = match self.validate_id(id) {
            Err(e) => return Err(e),
            Ok(id) => id,
        };
        let ghost disk = cache@;
        let ghost c = chain_of(disk, *self, id);
        let ghost start = self.start();
        let ghost mut i: int = 0;
        proof { cache.lemma_wf_view(); }
        let mut cur = id;
        proof {
            assert(c.skip(0) =~= c);
            assert(self.spec_validate_id(ClusterId(c[0])) is Ok);
        }
        loop
            invariant_except_break
                release_state(disk, cache@, *self, c, i),
                0 <= i < c.len(),
                cur.0 == c[i],
            invariant
                self.wf(),
                *self == *old(self),
                start == self.start(),
                disk == old(cache)@,
                is_chain(disk, *self, id, c),
                cache.wf(),
                cache@.len() == disk.len(),
                cache.device_blocks().len() == old(cache).device_blocks().len(),
                self.fits(disk.len() as int),
            ensures
                cache@ == released(disk, start, c),
            decreases c.len() - i,
        {
            let ghost before = cache@;
            let pos = self.id2pos(cur);
            assert(self.spec_validate_id(ClusterId(c[i])) is Ok);
            let next = pos.access_mut(cache, ClusterId::free());
            let ghost mid = cache@;
            proof {
                lemma_with_entry(before, start, c[i] as int, 0, c[i] as int);
                lemma_free_count_frame(before, start, c[i] as int, 0);
            }
            record_free(cache);
            proof {
                lemma_release_step(disk, before, *self, id, c, i);
            }
            if next == ClusterId::eof() {
                proof {
                    if i < c.len() - 1 {
                        assert(self.spec_validate_id(ClusterId(c[i + 1])) is Ok);
                    }
                    assert(c.skip(i + 1) =~= Seq::<u32>::empty());
                    assert(released(cache@, start, c.skip(i + 1)) == cache@);
                }
                break;
            }
            proof {
                if i == c.len() - 1 {
                    assert(next.0 == 0xFFFF_FFFF);
                }
                i = i + 1;
            }
            cur = next;
        }
        Ok(())
    }
}

} // verus!
