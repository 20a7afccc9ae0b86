//! Taking free clusters one after another and linking them onto the end of
//! a chain.

use vstd::prelude::*;

use core::ops::Range;

use crate::block_dev::{blocks_wf, BlockDevice};
use crate::fat::cluster::{spec_validate, ClusterId};
use crate::fat::control::{chain_in_area, chain_sectors, zeroed, FatFileSystem};
use crate::fat::fs_info::{disk_free_count, FS_INFO_SECTOR};
use crate::fat::sector::SectorId;
use crate::fat::table::{
    chain_ends, fat_entry, is_chain, is_first_free, lemma_free_count_frame, lemma_walk_mono, lemma_with_entry,
    recorded_alloc, spec_last, spec_next, walk, with_entry, Fat,
};

verus! {

/// How many of the FAT entries `[0, n)` are free.
pub open spec fn free_entries(disk: Seq<Seq<u8>>, fat: Fat, n: int) -> nat
    decreases n,
{
    if n <= 0 {
        0
    } else {
        free_entries(disk, fat, n - 1) + if fat_entry(disk, fat.start(), n - 1) == 0 { 1nat } else { 0nat }
    }
}

impl<D: BlockDevice> FatFileSystem<D> {
    /// Every cluster numbered in `[2, lim)` is whole, lies in the data
    /// area and has its entry in the FAT, which lies before the data area;
    /// entries 0 and 1 are taken.
    pub open spec fn alloc_limit(&self, lim: int) -> bool {
        &&& 2 <= lim <= self.fat.spec_entries()
        &&& lim <= 0x0FFF_FFF7
        &&& fat_entry(self.sectors(), self.fat.start(), 0) != 0
        &&& fat_entry(self.sectors(), self.fat.start(), 1) != 0
        &&& self.fat.end() <= self.data_area.start()
        &&& forall|k: int| 2 <= k < lim ==> {
            &&& #[trigger] self.data_area.cluster_fits(k as u32)
            &&& self.data_area.cluster_start(k as u32) + self.data_area.cluster_sectors <= self.data_area.end()
        }
    }

    /// `n` clusters can be taken one after another: the first `n` free
    /// entries of the FAT name usable clusters.
    pub open spec fn room(&self, n: int) -> bool {
        exists|lim: int| #[trigger] self.alloc_limit(lim) && free_entries(self.sectors(), self.fat, lim) >= n
    }
}

/// A free entry below `j` or at it leads to the first free entry.
proof fn lemma_first_free(disk: Seq<Seq<u8>>, fat: Fat, j: int)
    requires
        0 <= j < fat.spec_entries(),
        fat_entry(disk, fat.start(), j) == 0,
    ensures
        exists|k: int| k <= j && #[trigger] is_first_free(disk, fat, k),
    decreases j,
{
    if forall|i: int| 0 <= i < j ==> fat_entry(disk, fat.start(), i) != 0 {
        assert(is_first_free(disk, fat, j));
    } else {
        let i = choose|i: int| 0 <= i < j && fat_entry(disk, fat.start(), i) == 0;
        lemma_first_free(disk, fat, i);
    }
}

/// Some entry below `n` is free where the count says so.
proof fn lemma_some_free_entry(disk: Seq<Seq<u8>>, fat: Fat, n: int)
    requires
        free_entries(disk, fat, n) > 0,
    ensures
        exists|j: int| 0 <= j < n && fat_entry(disk, fat.start(), j) == 0,
    decreases n,
{
    if n > 0 && fat_entry(disk, fat.start(), n - 1) != 0 {
        lemma_some_free_entry(disk, fat, n - 1);
    }
}

/// Taking the free entry `k` takes one from the count of free entries.
proof fn lemma_free_entries_take(d1: Seq<Seq<u8>>, d2: Seq<Seq<u8>>, fat: Fat, k: int, n: int)
    requires
        0 <= k,
        fat_entry(d1, fat.start(), k) == 0,
        fat_entry(d2, fat.start(), k) != 0,
        forall|j: int| 0 <= j < n && j != k ==> (fat_entry(d2, fat.start(), j) == 0) == (fat_entry(d1, fat.start(), j) == 0),
    ensures
        free_entries(d2, fat, n) + (if k < n { 1nat } else { 0nat }) == free_entries(d1, fat, n),
    decreases n,
{
    if n > 0 {
        lemma_free_entries_take(d1, d2, fat, k, n - 1);
    }
}

/// Views that agree on which entries are free count alike.
pub proof fn lemma_free_entries_same(d1: Seq<Seq<u8>>, d2: Seq<Seq<u8>>, fat: Fat, n: int)
    requires
        forall|j: int| 0 <= j < n ==> (fat_entry(d2, fat.start(), j) == 0) == (fat_entry(d1, fat.start(), j) == 0),
    ensures
        free_entries(d2, fat, n) == free_entries(d1, fat, n),
    decreases n,
{
    if n > 0 {
        lemma_free_entries_same(d1, d2, fat, n - 1);
    }
}

/// A chain stays a chain where no entry changed.
pub proof fn lemma_chain_same(d1: Seq<Seq<u8>>, d2: Seq<Seq<u8>>, fat: Fat, id: ClusterId, c: Seq<u32>)
    requires
        is_chain(d1, fat, id, c),
        forall|j: int| 0 <= j < fat.spec_entries() ==> #[trigger] fat_entry(d2, fat.start(), j) == fat_entry(d1, fat.start(), j),
    ensures
        is_chain(d2, fat, id, c),
{
    assert forall|i: int| 0 <= i < c.len() implies #[trigger] fat_entry(d2, fat.start(), c[i] as int) == fat_entry(d1, fat.start(), c[i] as int) by {
        assert(fat.spec_validate_id(ClusterId(c[i])) is Ok);
        assert(c[i] < fat.spec_entries());
    }
    assert(fat.spec_validate_id(ClusterId(c[c.len() - 1])) is Ok);
}

/// Two chains from one cluster agree on their first clusters.
proof fn lemma_chain_prefix(disk: Seq<Seq<u8>>, fat: Fat, id: ClusterId, c1: Seq<u32>, c2: Seq<u32>, i: int)
    requires
        is_chain(disk, fat, id, c1),
        is_chain(disk, fat, id, c2),
        0 <= i < c1.len(),
        i < c2.len(),
    ensures
        c1[i] == c2[i],
    decreases i,
{
    if i > 0 {
        lemma_chain_prefix(disk, fat, id, c1, c2, i - 1);
        assert(c1[i] == fat_entry(disk, fat.start(), c1[i - 1] as int));
        assert(c2[i] == fat_entry(disk, fat.start(), c2[i - 1] as int));
    }
}

/// There is one chain from a cluster.
pub proof fn lemma_chain_unique(disk: Seq<Seq<u8>>, fat: Fat, id: ClusterId, c1: Seq<u32>, c2: Seq<u32>)
    requires
        is_chain(disk, fat, id, c1),
        is_chain(disk, fat, id, c2),
    ensures
        c1 == c2,
{
    let n = if c1.len() < c2.len() { c1.len() as int } else { c2.len() as int };
    assert forall|i: int| 0 <= i < n implies c1[i] == c2[i] by {
        lemma_chain_prefix(disk, fat, id, c1, c2, i);
    }
    if c1.len() != c2.len() {
        if c1.len() < c2.len() {
            let l = c1.len() - 1;
            assert(fat_entry(disk, fat.start(), c1.last() as int) == 0xFFFF_FFFF);
            assert(fat_entry(disk, fat.start(), c2[l] as int) == c2[l + 1]);
            assert(fat.spec_validate_id(ClusterId(c2[l + 1])) is Ok);
        } else {
            let l = c2.len() - 1;
            assert(fat_entry(disk, fat.start(), c2.last() as int) == 0xFFFF_FFFF);
            assert(fat_entry(disk, fat.start(), c1[l] as int) == c1[l + 1]);
            assert(fat.spec_validate_id(ClusterId(c1[l + 1])) is Ok);
        }
    }
    assert(c1 =~= c2);
}

/// Linking the free cluster `k`, now ending a chain, after the last
/// cluster of the chain `c` makes `c` followed by `k` the chain.
pub proof fn lemma_chain_extend(d1: Seq<Seq<u8>>, d2: Seq<Seq<u8>>, fat: Fat, id: ClusterId, c: Seq<u32>, k: u32)
    requires
        is_chain(d1, fat, id, c),
        fat.spec_validate_id(ClusterId(k)) is Ok,
        fat_entry(d1, fat.start(), k as int) == 0,
        fat_entry(d2, fat.start(), k as int) == 0xFFFF_FFFF,
        fat_entry(d2, fat.start(), c.last() as int) == k,
        forall|j: int| 0 <= j < fat.spec_entries() && j != k && j != c.last() ==> #[trigger] fat_entry(d2, fat.start(), j) == fat_entry(d1, fat.start(), j),
    ensures
        is_chain(d2, fat, id, c.push(k)),
{
    let c2 = c.push(k);
    assert forall|i: int| 0 <= i < c.len() implies #[trigger] c[i] != k by {
        assert(fat.spec_validate_id(ClusterId(c[i])) is Ok);
        if i < c.len() - 1 {
            assert(fat_entry(d1, fat.start(), c[i] as int) == c[i + 1]);
            assert(fat.spec_validate_id(ClusterId(c[i + 1])) is Ok);
        }
    }
    assert forall|i: int| 0 <= i < c2.len() implies (#[trigger] fat.spec_validate_id(ClusterId(c2[i]))) is Ok by {
        if i < c.len() {
            assert(c2[i] == c[i]);
        }
    }
    assert forall|i: int| 0 <= i < c2.len() - 1 implies fat_entry(d2, fat.start(), #[trigger] c2[i] as int) == c2[i + 1] by {
        assert(c2[i] == c[i]);
        assert(fat.spec_validate_id(ClusterId(c[i])) is Ok);
        if i < c.len() - 1 {
            assert(c[i] != c[c.len() - 1]);
            assert(fat_entry(d1, fat.start(), c[i] as int) == c[i + 1]);
        }
    }
    assert forall|i: int, j: int| 0 <= i < j < c2.len() implies #[trigger] c2[i] != #[trigger] c2[j] by {
        if j < c.len() {
            assert(c2[i] == c[i] && c2[j] == c[j]);
        } else {
            assert(c2[i] == c[i]);
        }
    }
}

/// Walking a chain from its cluster `i` comes to its last cluster.
proof fn lemma_walk_chain(disk: Seq<Seq<u8>>, fat: Fat, id: ClusterId, c: Seq<u32>, i: int)
    requires
        is_chain(disk, fat, id, c),
        0 <= i < c.len(),
    ensures
        walk(disk, fat, ClusterId(c[i]), (c.len() - i) as nat) == Some(Ok::<ClusterId, crate::fat::cluster::ClusterError>(ClusterId(c.last()))),
    decreases c.len() - i,
{
    assert(fat.spec_validate_id(ClusterId(c[i])) is Ok);
    if i < c.len() - 1 {
        assert(fat_entry(disk, fat.start(), c[i] as int) == c[i + 1]);
        assert(fat.spec_validate_id(ClusterId(c[i + 1])) is Ok);
        assert(spec_next(disk, fat, ClusterId(c[i])) == Ok::<Option<ClusterId>, crate::fat::cluster::ClusterError>(Some(ClusterId(c[i + 1]))));
        lemma_walk_chain(disk, fat, id, c, i + 1);
    } else {
        assert(fat_entry(disk, fat.start(), c[i] as int) == 0xFFFF_FFFF);
    }
}

/// The walk from the start of a chain ends at its last cluster.
pub proof fn lemma_chain_last(disk: Seq<Seq<u8>>, fat: Fat, id: ClusterId, c: Seq<u32>)
    requires
        is_chain(disk, fat, id, c),
    ensures
        chain_ends(disk, fat, id),
        spec_last(disk, fat, id) == Ok::<ClusterId, crate::fat::cluster::ClusterError>(ClusterId(c.last())),
{
    lemma_walk_chain(disk, fat, id, c, 0);
    assert(ClusterId(c[0]) == id);
    let f = c.len() as nat;
    assert(walk(disk, fat, id, f) is Some);
    let g = crate::fat::table::last_fuel(disk, fat, id);
    if g <= f {
        lemma_walk_mono(disk, fat, id, g, f);
    } else {
        lemma_walk_mono(disk, fat, id, f, g);
    }
}

impl<D: BlockDevice> FatFileSystem<D> {
    /// Takes the first free cluster, as [`FatFileSystem::alloc_cluster`]
    /// does, where `n` clusters can be taken.
    pub(crate) fn take_cluster(&mut self, Ghost(n): Ghost<int>) -> (r: (ClusterId, Range<SectorId>))
        requires
            old(self).wf(),
            old(self).room(n),
            n >= 1,
        ensures
            final(self).wf(),
            final(self).bpb == old(self).bpb,
            final(self).fat == old(self).fat,
            final(self).data_area == old(self).data_area,
            final(self).room(n - 1),
            old(self).fat.spec_validate_id(r.0) is Ok,
            chain_in_area(old(self).data_area, seq![r.0.0]),
            fat_entry(old(self).sectors(), old(self).fat.start(), r.0.0 as int) == 0,
            forall|j: int| 0 <= j < old(self).fat.spec_entries() ==> #[trigger] fat_entry(final(self).sectors(), old(self).fat.start(), j)
                == if j == r.0.0 { 0xFFFF_FFFFu32 } else { fat_entry(old(self).sectors(), old(self).fat.start(), j) },
            final(self).sectors().len() == old(self).sectors().len(),
            forall|s: int| 0 <= s < old(self).sectors().len() && s != FS_INFO_SECTOR
                && s != old(self).fat.start() + r.0.0 / 128
                && !(r.1.start.0 <= s < r.1.end.0) ==> #[trigger] final(self).sectors()[s] == old(self).sectors()[s],
            old(self).data_area.start() <= r.1.start.0,
            r.1.start.0 == old(self).data_area.cluster_start(r.0.0),
            r.1.end.0 == old(self).data_area.cluster_start(r.0.0) + old(self).data_area.cluster_sectors,
    {
        let ghost disk = self.sectors();
        let ghost fat = self.fat;
        let ghost start = fat.start();
        let ghost lim = choose|lim: int| #[trigger] self.alloc_limit(lim) && free_entries(disk, fat, lim) >= n;
        proof {
            self.cache.lemma_wf_view();
            lemma_some_free_entry(disk, fat, lim);
            let j = choose|j: int| 0 <= j < lim && fat_entry(disk, start, j) == 0;
            lemma_first_free(disk, fat, j);
            let k = choose|k: int| k <= j && #[trigger] is_first_free(disk, fat, k);
            assert(k != 0 && k != 1);
            assert(self.data_area.cluster_fits(k as u32));
            assert(self.can_alloc());
        }
        let r = self.alloc_cluster();
        proof {
            let k = choose|k: int| {
                &&& is_first_free(disk, fat, k)
                &&& r.0.0 == k
                &&& r.1.start.0 == self.data_area.cluster_start(k as u32)
                &&& r.1.end.0 == self.data_area.cluster_start(k as u32) + self.data_area.cluster_sectors
                &&& self.sectors() == zeroed(
                    recorded_alloc(with_entry(disk, start, k, 0xFFFF_FFFF)),
                    r.1.start.0 as int,
                    r.1.end.0 as int,
                )
            };
            assert(2 <= k < lim) by {
                if k >= lim {
                    let j = choose|j: int| 0 <= j < lim && fat_entry(disk, start, j) == 0;
                    assert(fat_entry(disk, start, j) != 0);
                }
            }
            assert(self.data_area.cluster_fits(k as u32));
            assert((k - 2) * self.data_area.cluster_sectors >= 0) by (nonlinear_arith)
                requires
                    k >= 2,
            ;
            let d1 = with_entry(disk, start, k, 0xFFFF_FFFF);
            let d2 = recorded_alloc(d1);
            assert forall|j: int| 0 <= j < fat.spec_entries() implies #[trigger] fat_entry(self.sectors(), start, j)
                == if j == k { 0xFFFF_FFFFu32 } else { fat_entry(disk, start, j) } by {
                lemma_with_entry(disk, start, k, 0xFFFF_FFFF, j);
                lemma_free_count_frame(d1, start, j, if disk_free_count(d1) == 0 { 0u32 } else { (disk_free_count(d1) - 1) as u32 });
                assert(start + j / 128 < fat.end());
                assert(self.sectors()[start + j / 128] == d2[start + j / 128]);
            }
            assert forall|s: int| 0 <= s < disk.len() && s != FS_INFO_SECTOR && s != start + k / 128
                && !(r.1.start.0 <= s < r.1.end.0) implies #[trigger] self.sectors()[s] == disk[s] by {
                lemma_with_entry(disk, start, k, 0xFFFF_FFFF, 0);
            }
            lemma_free_entries_take(disk, self.sectors(), fat, k, lim);
            assert(fat_entry(self.sectors(), start, 0) == fat_entry(disk, start, 0));
            assert(fat_entry(self.sectors(), start, 1) == fat_entry(disk, start, 1));
            assert(self.alloc_limit(lim));
            assert(spec_validate(ClusterId(k as u32)) is Ok);
        }
        r
    }

    /// Takes the first free cluster and links it after `last`, the last
    /// cluster of the chain `c` from `id`, where `n` clusters can be taken.
    /// Answers the cluster taken.
    pub(crate) fn append_cluster(&mut self, last: ClusterId, Ghost(id): Ghost<ClusterId>, Ghost(c): Ghost<Seq<u32>>, Ghost(n): Ghost<int>) -> (r: ClusterId)
        requires
            old(self).wf(),
            old(self).room(n),
            n >= 1,
            is_chain(old(self).sectors(), old(self).fat, id, c),
            chain_in_area(old(self).data_area, c),
            c.last() == last.0,
        ensures
            final(self).wf(),
            final(self).bpb == old(self).bpb,
            final(self).fat == old(self).fat,
            final(self).data_area == old(self).data_area,
            final(self).room(n - 1),
            is_chain(final(self).sectors(), final(self).fat, id, c.push(r.0)),
            chain_in_area(final(self).data_area, c.push(r.0)),
            final(self).sectors().len() == old(self).sectors().len(),
            forall|s: int| 0 <= s < old(self).sectors().len() && s != FS_INFO_SECTOR
                && !(old(self).fat.start() <= s < old(self).fat.end())
                && !(old(self).data_area.cluster_start(r.0) <= s < old(self).data_area.cluster_start(r.0) + old(self).data_area.cluster_sectors)
                ==> #[trigger] final(self).sectors()[s] == old(self).sectors()[s],
    {
        let ghost disk = self.sectors();
        let (next, _) = self.take_cluster(Ghost(n));
        let ghost d1 = self.sectors();
        let ghost f1 = *self;
        proof {
            self.cache.lemma_wf_view();
            assert(self.fat.spec_validate_id(ClusterId(c[c.len() - 1])) is Ok);
        }
        self.fat.couple(&mut self.cache, last, next);
        proof {
            let fat = self.fat;
            let start = fat.start();
            assert forall|j: int| 0 <= j < fat.spec_entries() implies #[trigger] fat_entry(self.sectors(), start, j)
                == if j == last.0 { next.0 } else { fat_entry(d1, start, j) } by {
                lemma_with_entry(d1, start, last.0 as int, next.0, j);
                assert(start + j / 128 < fat.end());
            }
            lemma_chain_extend(disk, self.sectors(), fat, id, c, next.0);
            let lim = choose|lim: int| #[trigger] f1.alloc_limit(lim) && free_entries(d1, fat, lim) >= n - 1;
            assert(fat_entry(disk, start, last.0 as int) == 0xFFFF_FFFF);
            assert(last.0 != next.0);
            assert(fat_entry(d1, start, last.0 as int) == 0xFFFF_FFFF);
            assert forall|j: int| 0 <= j < lim implies (fat_entry(self.sectors(), start, j) == 0) == (fat_entry(d1, start, j) == 0) by {
                if j == last.0 {
                    assert(next.0 != 0);
                }
            }
            lemma_free_entries_same(d1, self.sectors(), fat, lim);
            assert(self.alloc_limit(lim));
            let c2 = c.push(next.0);
            assert forall|i: int| 0 <= i < c2.len() implies 2 <= #[trigger] c2[i] && self.data_area.cluster_fits(c2[i])
                && self.data_area.cluster_start(c2[i]) + self.data_area.cluster_sectors <= self.data_area.end() by {
                if i < c.len() {
                    assert(c2[i] == c[i]);
                } else {
                    assert(seq![next.0][0] == next.0);
                }
            }
            assert(start + last.0 / 128 < fat.end());
            assert(start + next.0 / 128 < fat.end());
        }
        next
    }
}

/// Sectors before the end of the FAT that stayed the same keep every entry.
pub proof fn lemma_entries_kept(d1: Seq<Seq<u8>>, d2: Seq<Seq<u8>>, fat: Fat)
    requires
        forall|s: int| 0 <= s < fat.end() ==> #[trigger] d2[s] == d1[s],
        0 <= fat.start(),
    ensures
        forall|j: int| 0 <= j < fat.spec_entries() ==> #[trigger] fat_entry(d2, fat.start(), j) == fat_entry(d1, fat.start(), j),
{
    assert forall|j: int| 0 <= j < fat.spec_entries() implies #[trigger] fat_entry(d2, fat.start(), j) == fat_entry(d1, fat.start(), j) by {
        assert(fat.start() + j / 128 < fat.end());
        assert(d2[fat.start() + j / 128] == d1[fat.start() + j / 128]);
    }
}

/// Clusters that can be taken stay so while no FAT entry changes.
pub proof fn lemma_room_frame<D: BlockDevice>(f1: FatFileSystem<D>, f2: FatFileSystem<D>, n: int)
    requires
        f1.room(n),
        f2.fat == f1.fat,
        f2.data_area == f1.data_area,
        forall|j: int| 0 <= j < f1.fat.spec_entries() ==> #[trigger] fat_entry(f2.sectors(), f1.fat.start(), j)
            == fat_entry(f1.sectors(), f1.fat.start(), j),
    ensures
        f2.room(n),
{
    let lim = choose|lim: int| #[trigger] f1.alloc_limit(lim) && free_entries(f1.sectors(), f1.fat, lim) >= n;
    lemma_free_entries_same(f1.sectors(), f2.sectors(), f1.fat, lim);
    assert(f2.alloc_limit(lim));
}

/// A chain stays a chain where only a free entry changed.
pub proof fn lemma_chain_keep_but(d1: Seq<Seq<u8>>, d2: Seq<Seq<u8>>, fat: Fat, id: ClusterId, c: Seq<u32>, k: u32)
    requires
        is_chain(d1, fat, id, c),
        fat_entry(d1, fat.start(), k as int) == 0,
        forall|j: int| 0 <= j < fat.spec_entries() && j != k ==> #[trigger] fat_entry(d2, fat.start(), j) == fat_entry(d1, fat.start(), j),
    ensures
        is_chain(d2, fat, id, c),
{
    assert forall|i: int| 0 <= i < c.len() implies #[trigger] fat_entry(d2, fat.start(), c[i] as int) == fat_entry(d1, fat.start(), c[i] as int) by {
        assert(fat.spec_validate_id(ClusterId(c[i])) is Ok);
        assert(c[i] < fat.spec_entries());
        if i < c.len() - 1 {
            assert(fat_entry(d1, fat.start(), c[i] as int) == c[i + 1]);
            assert(fat.spec_validate_id(ClusterId(c[i + 1])) is Ok);
        }
    }
    assert(fat.spec_validate_id(ClusterId(c[c.len() - 1])) is Ok);
}


/// A sector outside the sectors of a chain that ends in cluster `k` lies
/// outside the chain before `k` and outside `k` itself.
pub proof fn lemma_outside_pushed(data: crate::fat::data::DataArea, c: Seq<u32>, k: u32, s: int)
    requires
        forall|j: int| 0 <= j < chain_sectors(data, c.push(k)).len() ==> (#[trigger] chain_sectors(data, c.push(k))[j]).0 != s,
        data.cluster_start(k) + data.cluster_sectors <= data.end(),
        0 <= data.cluster_start(k),
    ensures
        forall|j: int| 0 <= j < chain_sectors(data, c).len() ==> (#[trigger] chain_sectors(data, c)[j]).0 != s,
        !(data.cluster_start(k) <= s < data.cluster_start(k) + data.cluster_sectors),
{
    let c2 = c.push(k);
    assert(c2.drop_last() =~= c);
    let a = chain_sectors(data, c);
    let b = crate::fat::control::cluster_sectors_of(data, k);
    assert(chain_sectors(data, c2) == a + b);
    assert forall|j: int| 0 <= j < a.len() implies (#[trigger] a[j]).0 != s by {
        assert((a + b)[j] == a[j]);
    }
    if data.cluster_start(k) <= s < data.cluster_start(k) + data.cluster_sectors {
        let i = s - data.cluster_start(k);
        assert((a + b)[a.len() + i] == b[i]);
        assert(b[i].0 == s);
    }
}

} // verus!
