//! Recording a new item in a directory: finding slots for its long entries
//! and its short entry, growing the directory by a cluster where needed.

use vstd::prelude::*;

use crate::block_cache::splice;
use crate::block_dev::{blocks_wf, BlockDevice};
use crate::fat::cluster::ClusterId;
use crate::fat::control::{chain_in_area, chain_sectors, FatFileSystem};
use crate::fat::dir_entry::{
    cwd_name, long_count, name2dirents, name_part, parent_name, short_name_of, spec_checksum, status_of, DirEntryStatus,
    LongDirEntry, ShortDirEntry,
};
use crate::fat::inode::DirEntryType;
use crate::fat::sector::sync_all;
use crate::fat::fs_info::FS_INFO_SECTOR;
use crate::fat::table::{fat_entry, Fat};
use crate::fat::grow::{lemma_chain_last, lemma_chain_same, lemma_chain_unique, lemma_entries_kept};
use crate::fat::inode::{named, slot, DirEntryPos, DirEntryRange, Error, Inode, SECTOR_SLOTS};
use crate::fat::range::{kept_but, lemma_range_slots, lemma_slot_splice, range_ok, range_slots, slot_at};
use crate::fat::sector::SectorId;
use crate::fat::table::is_chain;
use vstd::string::StringSliceAdditionalSpecFns;

verus! {

/// Where a scan of a directory found room for an item.
#[derive(Debug, Clone, Copy, PartialEq, Eq, Structural)]
pub enum Room {
    /// The item's slots are a run of free slots ending at this slot (an
    /// index over the directory's slots), which the scan took to have begun
    /// in the previous sector when the flag is set.
    Run(usize, bool),
    /// The free tail starts at this slot.
    Tail(usize),
    /// No slot is free.
    Full,
}

/// The status of slot `i` of the directory whose sectors are `secs`, its
/// slots numbered across sectors.
pub open spec fn status_at(disk: Seq<Seq<u8>>, secs: Seq<SectorId>, i: int) -> DirEntryStatus {
    status_of(slot(disk[secs[i / 16].0 as int], i % 16)[0])
}

/// Scanning the first `i` slots for `n + 1` free slots in a row: what was
/// found, the length of the run of free slots just scanned, and whether
/// that run began in an earlier sector than the one it has reached.
pub open spec fn scan(disk: Seq<Seq<u8>>, secs: Seq<SectorId>, n: int, i: int) -> (Option<Room>, int, bool)
    decreases i,
{
    if i <= 0 {
        (None, 0, false)
    } else {
        let prev = scan(disk, secs, n, i - 1);
        if prev.0 is Some {
            prev
        } else {
            let k = i - 1;
            let count = prev.1;
            let disc = prev.2;
            match status_at(disk, secs, k) {
                DirEntryStatus::Free => if count + 1 == n + 1 {
                    (Some(Room::Run(k as usize, disc)), count + 1, disc)
                } else {
                    (None, count + 1, if k % 16 == 15 { true } else { disc })
                },
                DirEntryStatus::TailFree => (Some(Room::Tail(k as usize)), 0, disc),
                DirEntryStatus::Occupied => (None, 0, false),
            }
        }
    }
}

/// What the scan of the whole directory finds.
pub open spec fn room_of(disk: Seq<Seq<u8>>, secs: Seq<SectorId>, n: int) -> Room {
    match scan(disk, secs, n, 16 * (secs.len() as int)).0 {
        Some(r) => r,
        None => Room::Full,
    }
}

/// Once the scan has found room, scanning on finds the same.
proof fn lemma_scan_found(disk: Seq<Seq<u8>>, secs: Seq<SectorId>, n: int, i: int, j: int)
    requires
        scan(disk, secs, n, i).0 is Some,
        0 <= i <= j,
    ensures
        scan(disk, secs, n, j) == scan(disk, secs, n, i),
    decreases j - i,
{
    if j > i {
        lemma_scan_found(disk, secs, n, i, j - 1);
    }
}

impl<D: BlockDevice> FatFileSystem<D> {
    /// Scans the slots of the directory whose sectors are `secs` for room
    /// for `n` long entries and a short entry.
    fn find_room(&mut self, secs: &Vec<SectorId>, n: usize) -> (r: Room)
        requires
            old(self).wf(),
            forall|i: int| 0 <= i < secs@.len() ==> (#[trigger] secs@[i]).0 < old(self).sectors().len(),
            16 * secs@.len() <= usize::MAX,
        ensures
            final(self).same_volume(*old(self)),
            r == room_of(old(self).sectors(), secs@, n as int),
    {
        let ghost disk = self.sectors();
        let ghost f0 = *self;
        proof { self.cache.lemma_wf_view(); }
        let mut count: usize = 0;
        let mut disc = false;
        let mut p: usize = 0;
        while p < secs.len()
            invariant
                self.wf(),
                self.same_volume(f0),
                f0 == *old(self),
                disk == self.sectors(),
                blocks_wf(disk),
                forall|i: int| 0 <= i < secs@.len() ==> (#[trigger] secs@[i]).0 < disk.len(),
                16 * secs@.len() <= usize::MAX,
                p <= secs@.len(),
                scan(disk, secs@, n as int, 16 * p) == (None::<Room>, count as int, disc),
                count <= 16 * p,
            decreases secs@.len() - p,
        {
            let sb = self.cache.read(secs[p].0, 0, 512);
            let mut q: usize = 0;
            while q < 16
                invariant
                    self.wf(),
                    self.same_volume(f0),
                    f0 == *old(self),
                    disk == self.sectors(),
                    forall|i: int| 0 <= i < secs@.len() ==> (#[trigger] secs@[i]).0 < disk.len(),
                    p < secs@.len(),
                    16 * secs@.len() <= usize::MAX,
                    sb@ == disk[secs@[p as int].0 as int],
                    sb@.len() == 512,
                    q <= 16,
                    scan(disk, secs@, n as int, 16 * p + q) == (None::<Room>, count as int, disc),
                    count <= 16 * p + q,
                decreases 16 - q,
            {
                let b = sb[32 * q];
                let k: usize = 16 * p + q;
                proof {
                    assert(k / 16 == p && k % 16 == q);
                    assert(slot(disk[secs@[p as int].0 as int], q as int)[0] == b);
                    assert(status_at(disk, secs@, k as int) == status_of(b));
                }
                if b == 0xE5 {
                    if count == n {
                        proof { lemma_scan_found(disk, secs@, n as int, k + 1, 16 * (secs@.len() as int)); }
                        return Room::Run(k, disc);
                    }
                    count = count + 1;
                    if q == 15 {
                        disc = true;
                    }
                } else if b == 0 {
                    proof { lemma_scan_found(disk, secs@, n as int, k + 1, 16 * (secs@.len() as int)); }
                    return Room::Tail(k);
                } else {
                    count = 0;
                    disc = false;
                }
                q = q + 1;
            }
            p = p + 1;
        }
        Room::Full
    }
}

/// The positions a scan result leads to can be computed and written, for
/// `n` long entries: what [`Inode::create`] needs of it.
pub open spec fn room_fits(room: Room, n: int) -> bool {
    match room {
        Room::Run(at, disc) => if disc {
            16 <= at && at % 16 <= n && n - at % 16 <= 16
        } else {
            at % 16 >= n
        },
        Room::Tail(at) => n + 1 > 16 - at % 16 ==> at % 16 + n < 32,
        Room::Full => n < 16,
    }
}

/// Recording `n` long entries where the scan found `room`, in a directory
/// of `nsecs` sectors, takes a new cluster.
pub open spec fn room_grows(room: Room, n: int, nsecs: int) -> bool {
    match room {
        Room::Run(_, _) => false,
        Room::Tail(at) => n + 1 > 16 - at % 16 && at / 16 + 1 >= nsecs,
        Room::Full => true,
    }
}

/// The directory slot, numbered across sectors, where an item's slots
/// begin when `n` long entries are recorded where the scan found `room` in
/// a directory of `nsecs` sectors: they run on from there to its short entry.
pub open spec fn room_start(room: Room, n: int, nsecs: int) -> int {
    match room {
        Room::Run(at, _) => at - n,
        Room::Tail(at) => at as int,
        Room::Full => 16 * nsecs,
    }
}

/// Slot `i` of the directory whose sectors are `secs`, slots numbered
/// across sectors.
pub open spec fn pos_of(secs: Seq<SectorId>, i: int) -> DirEntryPos {
    DirEntryPos { sector: secs[i / 16], nth: (i % 16) as usize }
}

/// The `n + 1` slots of `range` are the directory slots from `start` on,
/// slots numbered across the sectors `secs`.
#[verifier::opaque]
pub open spec fn placed_at(range: DirEntryRange, secs: Seq<SectorId>, start: int, n: int) -> bool {
    &&& 0 <= start
    &&& start + n < 16 * secs.len()
    &&& forall|i: int| 0 <= i <= n ==> #[trigger] range_slots(range)[i] == pos_of(secs, start + i)
}

/// From `d1` to `d2`, every sector kept its bytes but FSINFO, the FAT's
/// and the sectors `secs`.
pub open spec fn kept_outside(d1: Seq<Seq<u8>>, d2: Seq<Seq<u8>>, fat: Fat, secs: Seq<SectorId>) -> bool {
    forall|t: int| 0 <= t < d1.len() && t != FS_INFO_SECTOR && !(fat.start() <= t < fat.end())
        && (forall|j: int| 0 <= j < secs.len() ==> (#[trigger] secs[j]).0 != t)
        ==> #[trigger] d2[t] == d1[t]
}

/// From `d1` to `d2`, every slot of the directory whose sectors are
/// `secs` kept its bytes but the slots from `start` to `start + n`.
#[verifier::opaque]
pub open spec fn kept_slots(d1: Seq<Seq<u8>>, d2: Seq<Seq<u8>>, secs: Seq<SectorId>, start: int, n: int) -> bool {
    forall|j: int| 0 <= j < 16 * secs.len() && !(start <= j <= start + n)
        ==> #[trigger] slot_at(d2, pos_of(secs, j)) == slot_at(d1, pos_of(secs, j))
}

/// Placing a range at directory slots `start` to `start + n` keeps every
/// other slot of the directory: its sectors, kept by what came before the
/// placing, are distinct, and only the range's slots changed.
proof fn lemma_kept_slots(
    d1: Seq<Seq<u8>>,
    dm: Seq<Seq<u8>>,
    d2: Seq<Seq<u8>>,
    secs: Seq<SectorId>,
    secs2: Seq<SectorId>,
    range: DirEntryRange,
    start: int,
    n: int,
)
    requires
        secs.len() <= secs2.len(),
        secs2.subrange(0, secs.len() as int) == secs,
        forall|a: int, b: int| 0 <= a < b < secs2.len() ==> secs2[a] != secs2[b],
        forall|i: int| 0 <= i < secs.len() ==> (#[trigger] secs[i]).0 < d1.len(),
        forall|i: int| 0 <= i < secs.len() ==> #[trigger] dm[secs[i].0 as int] == d1[secs[i].0 as int],
        dm.len() == d1.len(),
        kept_but(dm, d2, range_slots(range), n + 1),
        placed_at(range, secs2, start, n),
        0 <= n,
        0 <= start,
        start + n < 16 * secs2.len(),
    ensures
        kept_slots(d1, d2, secs, start, n),
{
    reveal(placed_at);
    reveal(kept_slots);
    assert forall|j: int| 0 <= j < 16 * secs.len() && !(start <= j <= start + n)
        implies #[trigger] slot_at(d2, pos_of(secs, j)) == slot_at(d1, pos_of(secs, j)) by {
        let pos = pos_of(secs, j);
        assert(secs2[j / 16] == secs[j / 16]);
        assert forall|i: int| 0 <= i < n + 1 implies #[trigger] range_slots(range)[i] != pos by {
            let k = start + i;
            if range_slots(range)[i] == pos {
                assert(pos_of(secs2, k) == pos);
                if 0 <= k / 16 < secs2.len() && k / 16 != j / 16 {
                    if k / 16 < j / 16 {
                        assert(secs2[k / 16] != secs2[j / 16]);
                    } else {
                        assert(secs2[j / 16] != secs2[k / 16]);
                    }
                }
                assert(k == 16 * (k / 16) + k % 16);
                assert(j == 16 * (j / 16) + j % 16);
                assert(k / 16 == j / 16 ==> k == j);
            }
        }
        assert(dm[secs[j / 16].0 as int] == d1[secs[j / 16].0 as int]);
    }
}

/// The slots of a range within one sector run on from directory slot
/// `start` to its short entry.
proof fn lemma_run_in_sector(range: DirEntryRange, secs: Seq<SectorId>, start: int, n: int)
    requires
        0 <= start,
        start + n < 16 * secs.len(),
        0 <= n,
        range.last_long.sector == range.short.sector,
        range.short == pos_of(secs, start + n),
        range.short.nth >= n,
        range.last_long.nth == range.short.nth - n,
    ensures
        range_slots(range).len() == n + 1,
        placed_at(range, secs, start, n),
{
    reveal(placed_at);
    assert forall|i: int| 0 <= i <= n implies #[trigger] range_slots(range)[i] == pos_of(secs, start + i) by {
        assert((start + i) / 16 == (start + n) / 16);
        assert((start + i) % 16 == (start + n) % 16 - (n - i));
    }
}

/// The slots of a range over two sectors run on from directory slot
/// `start`, in the sector before the short entry's, to its short entry.
proof fn lemma_run_across(range: DirEntryRange, secs: Seq<SectorId>, start: int, n: int)
    requires
        0 <= start,
        start + n < 16 * secs.len(),
        0 <= n,
        (start + n) / 16 >= 1,
        range.short == pos_of(secs, start + n),
        range.short.nth <= n,
        n - range.short.nth <= 16,
        range.last_long == (DirEntryPos { sector: secs[(start + n) / 16 - 1], nth: (16 - (n - range.short.nth)) as usize }),
        range.last_long.sector != range.short.sector,
    ensures
        range_slots(range).len() == n + 1,
        placed_at(range, secs, start, n),
{
    reveal(placed_at);
    let a = n - range.short.nth;
    assert forall|i: int| 0 <= i <= n implies #[trigger] range_slots(range)[i] == pos_of(secs, start + i) by {
        if i < a {
            assert((start + i) / 16 == (start + n) / 16 - 1);
            assert((start + i) % 16 == 16 - a + i);
        } else {
            assert((start + i) / 16 == (start + n) / 16);
            assert((start + i) % 16 == i - a);
        }
    }
}

/// Writes `longs` and then `short` into the slots of `range`.
fn place<D: BlockDevice>(fs: &mut FatFileSystem<D>, range: DirEntryRange, longs: &Vec<LongDirEntry>, short: &ShortDirEntry)
    requires
        old(fs).wf(),
        range_ok(range, old(fs).sectors().len()),
        longs@.len() + 1 == range_slots(range).len(),
        old(fs).fat.end() <= range.last_long.sector.0,
        old(fs).fat.end() <= range.short.sector.0,
    ensures
        final(fs).wf(),
        final(fs).bpb == old(fs).bpb,
        final(fs).fat == old(fs).fat,
        final(fs).data_area == old(fs).data_area,
        kept_but(old(fs).sectors(), final(fs).sectors(), range_slots(range), range_slots(range).len() as int),
        forall|i: int| 0 <= i < longs@.len() ==> #[trigger] slot_at(final(fs).sectors(), range_slots(range)[i]) == longs@[i].spec_to_bytes(),
        slot_at(final(fs).sectors(), range.short) == short.spec_to_bytes(),
        forall|s: int| 0 <= s < old(fs).fat.end() ==> #[trigger] final(fs).sectors()[s] == old(fs).sectors()[s],
{
    let ghost d0 = fs.sectors();
    let ghost ps = range_slots(range);
    proof { lemma_range_slots(range); }
    range.write_longs(longs, &mut fs.cache);
    let ghost d1 = fs.sectors();
    proof { fs.cache.lemma_wf_view(); }
    range.short.access_mut(&mut fs.cache, short);
    proof {
        fs.cache.lemma_wf_view();
        let n = longs@.len() as int;
        let sc = range.short.sector.0 as int;
        let bytes = short.spec_to_bytes();
        assert(bytes.len() == 32) by {
            crate::fat::dir_entry::lemma_short_len(*short);
        }
        assert forall|q: int| 0 <= q < 16 implies #[trigger] slot(fs.sectors()[sc], q) == if q == range.short.nth { bytes } else { slot(d1[sc], q) } by {
            lemma_slot_splice(d1[sc], range.short.nth as int, bytes, q);
        }
        assert(ps[n] == range.short);
        assert forall|i: int| 0 <= i < n implies #[trigger] slot_at(fs.sectors(), ps[i]) == longs@[i].spec_to_bytes() by {
            assert(ps[i] != ps[n]);
            assert(slot_at(d1, ps[i]) == longs@[i].spec_to_bytes());
            if ps[i].sector.0 == sc {
                assert(slot(fs.sectors()[sc], ps[i].nth as int) == slot(d1[sc], ps[i].nth as int));
            } else {
                assert(fs.sectors()[ps[i].sector.0 as int] == d1[ps[i].sector.0 as int]);
            }
        }
        assert forall|s: int| 0 <= s < d0.len() && (forall|i: int| 0 <= i < n + 1 ==> (#[trigger] ps[i]).sector.0 != s)
            implies #[trigger] fs.sectors()[s] == d0[s] by {
            assert(ps[n].sector.0 != s);
            assert forall|i: int| 0 <= i < n implies (#[trigger] ps[i]).sector.0 != s by {
                assert(ps[i].sector.0 != s);
            }
        }
        assert forall|p2: DirEntryPos| p2.nth < SECTOR_SLOTS && p2.sector.0 < d0.len()
            && (forall|i: int| 0 <= i < n + 1 ==> #[trigger] ps[i] != p2) implies #[trigger] slot_at(fs.sectors(), p2) == slot_at(d0, p2) by {
            assert(ps[n] != p2);
            assert forall|i: int| 0 <= i < n implies #[trigger] ps[i] != p2 by {
                assert(ps[i] != p2);
            }
            assert(slot_at(d1, p2) == slot_at(d0, p2));
            if p2.sector.0 == sc {
                assert(slot(fs.sectors()[sc], p2.nth as int) == slot(d1[sc], p2.nth as int));
            } else {
                assert(fs.sectors()[p2.sector.0 as int] == d1[p2.sector.0 as int]);
            }
        }
        assert forall|s: int| 0 <= s < old(fs).fat.end() implies #[trigger] fs.sectors()[s] == d0[s] by {
            assert forall|i: int| 0 <= i < n + 1 implies (#[trigger] ps[i]).sector.0 != s by {}
        }
    }
}

impl Inode {
    /// [`Inode::create`] can record an item named `name` with `n` long
    /// entries in this directory on `fs`: the directory's chain is whole,
    /// its items have their long entries, and the slots the scan finds can
    /// be written, a cluster taken where they need one.
    pub open spec fn can_record<D: BlockDevice>(&self, fs: FatFileSystem<D>, name: Seq<u8>, n: int) -> bool {
        let secs = self.dir_sectors(fs);
        let room = room_of(fs.sectors(), secs, n);
        &&& fs.good_chain(self.start_id)
        &&& fs.fat.end() <= fs.data_area.start()
        &&& crate::fat::inode::longs_found(fs.sectors(), secs, spec_checksum(name))
        &&& 16 * secs.len() <= usize::MAX
        &&& room_fits(room, n)
        &&& room_grows(room, n, secs.len() as int) ==> fs.room(1)
    }

    /// What [`Inode::create`] did, from `before` to `after`, recording the
    /// item named `name` with the entries `short` and `longs` in this
    /// directory and answering `r`.
    pub open spec fn recorded<D: BlockDevice>(
        &self,
        before: FatFileSystem<D>,
        after: FatFileSystem<D>,
        name: Seq<u8>,
        short: ShortDirEntry,
        longs: Seq<LongDirEntry>,
        r: Result<DirEntryRange, Error>,
    ) -> bool {
        let disk = before.sectors();
        let secs = self.dir_sectors(before);
        let n = longs.len() as int;
        let room = room_of(disk, secs, n);
        match r {
            Err(e) => {
                &&& e == Error::AlreadyExists
                &&& exists|p: int, q: int| #[trigger] named(disk, secs, p, q, name)
                &&& after.sectors() == disk
            },
            Ok(range) => {
                &&& forall|p: int, q: int| !#[trigger] named(disk, secs, p, q, name)
                &&& range_ok(range, after.sectors().len())
                &&& range_slots(range).len() == n + 1
                &&& forall|i: int| 0 <= i < n ==> #[trigger] slot_at(after.sectors(), range_slots(range)[i]) == longs[i].spec_to_bytes()
                &&& slot_at(after.sectors(), range.short) == short.spec_to_bytes()
                &&& after.good_chain(self.start_id)
                &&& self.dir_sectors(after).subrange(0, secs.len() as int) == secs
                &&& placed_at(range, self.dir_sectors(after), room_start(room, n, secs.len() as int), n)
                &&& kept_slots(disk, after.sectors(), secs, room_start(room, n, secs.len() as int), n)
                &&& kept_outside(disk, after.sectors(), before.fat, self.dir_sectors(after))
                &&& match room {
                    Room::Run(at, _) => range.short == pos_of(secs, at as int),
                    Room::Tail(at) => range.last_long == pos_of(secs, at as int),
                    Room::Full => {
                        &&& range.last_long == DirEntryPos { sector: self.dir_sectors(after)[secs.len() as int], nth: 0 }
                        &&& range.short == DirEntryPos { sector: self.dir_sectors(after)[secs.len() as int], nth: n as usize }
                    },
                }
                &&& if room_grows(room, n, secs.len() as int) {
                    &&& after.chain(self.start_id).drop_last() == before.chain(self.start_id)
                    &&& after.chain(self.start_id).len() == before.chain(self.start_id).len() + 1
                } else {
                    &&& after.chain(self.start_id) == before.chain(self.start_id)
                    &&& kept_but(disk, after.sectors(), range_slots(range), n + 1)
                }
            },
        }
    }
}

impl Inode {
    /// Grows this directory by one cluster, the first free one; answers the
    /// cluster's first sector.
    fn grow_dir<D: BlockDevice>(&self, fs: &mut FatFileSystem<D>) -> (r: SectorId)
        requires
            old(fs).wf(),
            old(fs).good_chain(self.start_id),
            old(fs).room(1),
            old(fs).fat.end() <= old(fs).data_area.start(),
        ensures
            final(fs).wf(),
            final(fs).bpb == old(fs).bpb,
            final(fs).fat == old(fs).fat,
            final(fs).data_area == old(fs).data_area,
            final(fs).sectors().len() == old(fs).sectors().len(),
            forall|i: int| 0 <= i < self.dir_sectors(*old(fs)).len()
                ==> #[trigger] final(fs).sectors()[self.dir_sectors(*old(fs))[i].0 as int] == old(fs).sectors()[self.dir_sectors(*old(fs))[i].0 as int],
            kept_outside(old(fs).sectors(), final(fs).sectors(), old(fs).fat, self.dir_sectors(*final(fs))),
            final(fs).good_chain(self.start_id),
            final(fs).chain(self.start_id).drop_last() == old(fs).chain(self.start_id),
            final(fs).chain(self.start_id).len() == old(fs).chain(self.start_id).len() + 1,
            self.dir_sectors(*final(fs)).len() == self.dir_sectors(*old(fs)).len() + old(fs).data_area.cluster_sectors,
            self.dir_sectors(*final(fs)).subrange(0, self.dir_sectors(*old(fs)).len() as int) == self.dir_sectors(*old(fs)),
            r == self.dir_sectors(*final(fs))[self.dir_sectors(*old(fs)).len() as int],
    {
        let ghost c = fs.chain(self.start_id);
        proof {
            lemma_chain_last(fs.sectors(), fs.fat, self.start_id, c);
            fs.cache.lemma_wf_view();
        }
        let last = match fs.fat.last(&mut fs.cache, self.start_id) {
            Ok(l) => l,
            Err(_) => {
                proof { assert(false); }
                return SectorId::new(0);
            },
        };
        let ghost f1 = *fs;
        proof {
            lemma_entries_kept(old(fs).sectors(), fs.sectors(), fs.fat);
            crate::fat::grow::lemma_room_frame(*old(fs), *fs, 1);
        }
        let k = fs.append_cluster(last, Ghost(self.start_id), Ghost(c), Ghost(1));
        let c2 = Ghost(c.push(k.0));
        proof {
            let secs = chain_sectors(fs.data_area, c);
            crate::fat::control::lemma_chain_sectors_in_area(fs.data_area, c);
            assert forall|i: int| 0 <= i < secs.len() implies #[trigger] fs.sectors()[secs[i].0 as int] == old(fs).sectors()[secs[i].0 as int] by {
                let s = secs[i].0 as int;
                if fs.data_area.cluster_start(k.0) <= s < fs.data_area.cluster_start(k.0) + fs.data_area.cluster_sectors {
                    lemma_fresh_apart(fs.data_area, c, k.0, s);
                }
            }
        }
        proof {
            lemma_chain_unique(fs.sectors(), fs.fat, self.start_id, fs.chain(self.start_id), c2@);
            assert(c2@.drop_last() =~= c);
            assert(c2@[c.len() as int] == k.0);
            assert(2 <= c2@[c.len() as int]);
            assert(fs.fat.spec_validate_id(ClusterId(c2@[c.len() as int])) is Ok);
            assert(fs.data_area.cluster_fits(k.0));
            crate::fat::control::lemma_chain_sectors_len(fs.data_area, c);
            crate::fat::control::lemma_chain_sectors_len(fs.data_area, c2@);
            let data = fs.data_area;
            assert(data.cluster_start(k.0) + data.cluster_sectors <= data.end());
            assert forall|t: int| 0 <= t < old(fs).sectors().len() && t != FS_INFO_SECTOR && !(old(fs).fat.start() <= t < old(fs).fat.end())
                && (forall|j: int| 0 <= j < chain_sectors(data, c2@).len() ==> (#[trigger] chain_sectors(data, c2@)[j]).0 != t)
                implies #[trigger] fs.sectors()[t] == old(fs).sectors()[t] by {
                crate::fat::grow::lemma_outside_pushed(data, c, k.0, t);
            }
            assert(self.dir_sectors(*fs) == chain_sectors(data, c2@));
        }
        let sectors = match fs.data_area.cluster(k) {
            Ok(r) => r,
            Err(_) => {
                proof { assert(false); }
                return SectorId::new(0);
            },
        };
        proof {
            let a = chain_sectors(fs.data_area, c);
            let b = crate::fat::control::cluster_sectors_of(fs.data_area, k.0);
            assert(chain_sectors(fs.data_area, c2@) == a + b);
            assert((a + b).subrange(0, a.len() as int) =~= a);
            assert((a + b)[a.len() as int] == b[0]);
        }
        sectors.start
    }

    /// Records the item named `name`, whose entries are `short` and the long
    /// entries `longs` (the first held in the item's last long slot), in this
    /// directory: in the first run of free slots long enough that a scan
    /// meets, else from the first slot of the free tail on (into the next
    /// sector, or a new cluster, where the tail's sector has too few slots),
    /// else in a new cluster. Answers where the entries lie, or
    /// [`Error::AlreadyExists`] when the directory has an item named `name`.
    #[verifier::rlimit(100)]
    #[verifier::spinoff_prover]
    pub fn create<D: BlockDevice>(&self, name: &str, short: ShortDirEntry, longs: Vec<LongDirEntry>, fs: &mut FatFileSystem<D>) -> (r: Result<DirEntryRange, Error>)
        requires
            old(fs).wf(),
            self.can_record(*old(fs), name.spec_bytes(), longs@.len() as int),
        ensures
            final(fs).wf(),
            final(fs).bpb == old(fs).bpb,
            final(fs).fat == old(fs).fat,
            final(fs).data_area == old(fs).data_area,
            self.recorded(*old(fs), *final(fs), name.spec_bytes(), short, longs@, r),
    {
        let ghost disk = fs.sectors();
        let ghost secs0 = self.dir_sectors(*fs);
        let ghost n0 = longs@.len() as int;
        proof {
            let room0 = room_of(disk, secs0, n0);
            assert(fs.good_chain(self.start_id));
            assert(fs.fat.end() <= fs.data_area.start());
            assert(crate::fat::inode::longs_found(disk, secs0, spec_checksum(name.spec_bytes())));
            assert(16 * secs0.len() <= usize::MAX);
            assert(room_fits(room0, n0));
            assert(room_grows(room0, n0, secs0.len() as int) ==> fs.room(1));
        }
        let found = self.find_cwd(name, fs);
        if found.is_some() {
            proof {
                let inode = found->0;
                let (p, q) = choose|p: int, q: int| {
                    &&& #[trigger] named(disk, secs0, p, q, name.spec_bytes())
                    &&& forall|p2: int, q2: int| crate::fat::inode::slot_before(p2, q2, p, q) ==> !#[trigger] named(disk, secs0, p2, q2, name.spec_bytes())
                    &&& inode == crate::fat::inode::inode_at(disk, secs0, p, q, spec_checksum(name.spec_bytes()))
                };
                assert(named(disk, secs0, p, q, name.spec_bytes()));
                assert(self.recorded(*old(fs), *fs, name.spec_bytes(), short, longs@, Err(Error::AlreadyExists)));
            }
            return Err(Error::AlreadyExists);
        }
        let ghost f1 = *fs;
        let secs = fs.data_sectors(self.start_id);
        proof {
            crate::fat::control::lemma_chain_sectors_in_area(fs.data_area, fs.chain(self.start_id));
            assert(fs.sectors() == disk);
        }
        let n = longs.len();
        let room = fs.find_room(&secs, n);
        let ghost c0 = fs.chain(self.start_id);
        let ghost f2 = *fs;
        proof { lemma_room_in_dir(disk, secs@, n as int); }
        match room {
            Room::Run(at, disc) => {
                let short_pos = DirEntryPos { sector: secs[at / 16], nth: at % 16 };
                let last_long = if disc {
                    DirEntryPos { sector: secs[at / 16 - 1], nth: 16 - (n - at % 16) }
                } else {
                    DirEntryPos { sector: short_pos.sector, nth: short_pos.nth - n }
                };
                let range = DirEntryRange::new(last_long, short_pos);
                proof {
                    assert(at < 16 * secs@.len()) by {
                        lemma_room_in_dir(disk, secs@, n as int);
                    }
                    if disc {
                        assert(secs@[(at / 16 - 1) as int] != secs@[(at / 16) as int]) by {
                            lemma_secs_distinct(*fs, self.start_id, (at / 16 - 1) as int, (at / 16) as int);
                        }
                    }
                }
                place(fs, range, &longs, &short);
                proof {
                    self.lemma_chain_kept(f2, *fs);
                }
                proof {
                    assert(self.dir_sectors(*fs).subrange(0, secs@.len() as int) =~= secs@);
                    if disc {
                        lemma_run_across(range, self.dir_sectors(*fs), at - n, n as int);
                    } else {
                        lemma_run_in_sector(range, self.dir_sectors(*fs), at - n, n as int);
                    }
                    self.lemma_recorded_kept(*old(fs), f2, *fs, range, at - n, n as int);
                    assert(self.recorded(*old(fs), *fs, name.spec_bytes(), short, longs@, Ok(range)));
                }
                Ok(range)
            },
            Room::Tail(at) => {
                self.record_at_tail(name, short, longs, fs, &secs, at, Ghost(*old(fs)))
            },
            Room::Full => {
                proof {
                    lemma_entries_kept(old(fs).sectors(), fs.sectors(), fs.fat);
                    crate::fat::grow::lemma_room_frame(*old(fs), *fs, 1);
                }
                let sector = self.grow_dir(fs);
                let ghost f3 = *fs;
                let last_long = DirEntryPos { sector, nth: 0 };
                let start = DirEntryPos { sector, nth: n };
                let range = DirEntryRange::new(last_long, start);
                proof {
                    crate::fat::control::lemma_chain_sectors_in_area(f3.data_area, f3.chain(self.start_id));
                }
                place(fs, range, &longs, &short);
                proof {
                    self.lemma_chain_kept(f3, *fs);
                }
                proof {
                    assert(self.dir_sectors(*fs).subrange(0, secs@.len() as int) =~= secs@);
                    lemma_run_in_sector(range, self.dir_sectors(*fs), 16 * (secs@.len() as int), n as int);
                    self.lemma_recorded_kept(*old(fs), f3, *fs, range, 16 * (secs@.len() as int), n as int);
                    assert(self.recorded(*old(fs), *fs, name.spec_bytes(), short, longs@, Ok(range)));
                }
                Ok(range)
            },
        }
    }

    /// Records the item named `name` from directory slot `at`, where the
    /// scan of the directory on `before` met the free tail: in that slot's
    /// sector, else on into the next one, taking a new cluster where the
    /// directory has none.
    #[verifier::rlimit(100)]
    #[verifier::spinoff_prover]
    fn record_at_tail<D: BlockDevice>(
        &self,
        name: &str,
        short: ShortDirEntry,
        longs: Vec<LongDirEntry>,
        fs: &mut FatFileSystem<D>,
        secs: &Vec<SectorId>,
        at: usize,
        Ghost(before): Ghost<FatFileSystem<D>>,
    ) -> (r: Result<DirEntryRange, Error>)
        requires
            old(fs).wf(),
            old(fs).same_volume(before),
            self.can_record(before, name.spec_bytes(), longs@.len() as int),
            secs@ == self.dir_sectors(before),
            room_of(before.sectors(), secs@, longs@.len() as int) == Room::Tail(at),
            forall|p: int, q: int| !#[trigger] named(before.sectors(), secs@, p, q, name.spec_bytes()),
        ensures
            final(fs).wf(),
            final(fs).bpb == old(fs).bpb,
            final(fs).fat == old(fs).fat,
            final(fs).data_area == old(fs).data_area,
            self.recorded(before, *final(fs), name.spec_bytes(), short, longs@, r),
    {
        let ghost f0 = *fs;
        let n = longs.len();
        proof {
            assert(f0.chain(self.start_id) == before.chain(self.start_id));
            assert(self.dir_sectors(f0) == self.dir_sectors(before));
            crate::fat::control::lemma_chain_sectors_in_area(fs.data_area, fs.chain(self.start_id));
        }
        proof {
            assert(at < 16 * secs@.len()) by {
                lemma_room_in_dir(before.sectors(), secs@, n as int);
            }
        }
        let end = DirEntryPos { sector: secs[at / 16], nth: at % 16 };
        let need_next = if n + 1 > 16 - end.nth { n + 1 - (16 - end.nth) } else { 0 };
        let start_nth = (end.nth + n) % 16;
        if need_next == 0 {
            let start = DirEntryPos { sector: end.sector, nth: start_nth };
            let range = DirEntryRange::new(end, start);
            place(fs, range, &longs, &short);
            proof {
                self.lemma_chain_kept(f0, *fs);
            }
            proof {
                assert(self.dir_sectors(*fs).subrange(0, secs@.len() as int) =~= secs@);
                lemma_run_in_sector(range, self.dir_sectors(*fs), at as int, n as int);
                self.lemma_recorded_kept(before, f0, *fs, range, at as int, n as int);
                assert(self.recorded(before, *fs, name.spec_bytes(), short, longs@, Ok(range)));
            }
            Ok(range)
        } else if at / 16 + 1 < secs.len() {
            let start = DirEntryPos { sector: secs[at / 16 + 1], nth: start_nth };
            let range = DirEntryRange::new(end, start);
            proof {
                assert(secs@[(at / 16) as int] != secs@[(at / 16 + 1) as int]) by {
                    lemma_secs_distinct(*fs, self.start_id, (at / 16) as int, (at / 16 + 1) as int);
                }
            }
            place(fs, range, &longs, &short);
            proof {
                self.lemma_chain_kept(f0, *fs);
            }
            proof {
                assert(self.dir_sectors(*fs).subrange(0, secs@.len() as int) =~= secs@);
                lemma_run_across(range, self.dir_sectors(*fs), at as int, n as int);
                self.lemma_recorded_kept(before, f0, *fs, range, at as int, n as int);
                assert(self.recorded(before, *fs, name.spec_bytes(), short, longs@, Ok(range)));
            }
            Ok(range)
        } else {
            self.record_tail_grown(name, short, longs, fs, secs, at, Ghost(before))
        }
    }

    /// Records the item named `name` from directory slot `at`, where the
    /// scan of the directory on `before` met the free tail in its last
    /// sector and the item's slots run past it: into a new cluster.
    #[verifier::rlimit(100)]
    #[verifier::spinoff_prover]
    fn record_tail_grown<D: BlockDevice>(
        &self,
        name: &str,
        short: ShortDirEntry,
        longs: Vec<LongDirEntry>,
        fs: &mut FatFileSystem<D>,
        secs: &Vec<SectorId>,
        at: usize,
        Ghost(before): Ghost<FatFileSystem<D>>,
    ) -> (r: Result<DirEntryRange, Error>)
        requires
            old(fs).wf(),
            old(fs).same_volume(before),
            self.can_record(before, name.spec_bytes(), longs@.len() as int),
            secs@ == self.dir_sectors(before),
            room_of(before.sectors(), secs@, longs@.len() as int) == Room::Tail(at),
            forall|p: int, q: int| !#[trigger] named(before.sectors(), secs@, p, q, name.spec_bytes()),
            at < 16 * secs@.len(),
            longs@.len() + 1 > 16 - at % 16,
            at / 16 + 1 >= secs@.len(),
        ensures
            final(fs).wf(),
            final(fs).bpb == old(fs).bpb,
            final(fs).fat == old(fs).fat,
            final(fs).data_area == old(fs).data_area,
            self.recorded(before, *final(fs), name.spec_bytes(), short, longs@, r),
    {
        let ghost f0 = *fs;
        let n = longs.len();
        proof {
            assert(f0.chain(self.start_id) == before.chain(self.start_id));
            assert(self.dir_sectors(f0) == self.dir_sectors(before));
            crate::fat::control::lemma_chain_sectors_in_area(fs.data_area, fs.chain(self.start_id));
        }
        let end = DirEntryPos { sector: secs[at / 16], nth: at % 16 };
        let start_nth = (end.nth + n) % 16;
        proof {
            lemma_entries_kept(before.sectors(), fs.sectors(), fs.fat);
            crate::fat::grow::lemma_room_frame(before, *fs, 1);
        }
        let sector = self.grow_dir(fs);
        let ghost f3 = *fs;
        let start = DirEntryPos { sector, nth: start_nth };
        let range = DirEntryRange::new(end, start);
        proof {
            let s3 = self.dir_sectors(f3);
            assert(s3[(at / 16) as int] == secs@[(at / 16) as int]);
            assert(s3[(at / 16) as int] != s3[secs@.len() as int]) by {
                lemma_secs_distinct(f3, self.start_id, (at / 16) as int, secs@.len() as int);
            }
            crate::fat::control::lemma_chain_sectors_in_area(f3.data_area, f3.chain(self.start_id));
        }
        place(fs, range, &longs, &short);
        proof {
            self.lemma_chain_kept(f3, *fs);
        }
        proof {
            assert(self.dir_sectors(*fs).subrange(0, secs@.len() as int) =~= secs@);
            lemma_run_across(range, self.dir_sectors(*fs), at as int, n as int);
            self.lemma_recorded_kept(before, f3, *fs, range, at as int, n as int);
            assert(self.recorded(before, *fs, name.spec_bytes(), short, longs@, Ok(range)));
        }
        Ok(range)
    }

    /// Recording that placed its range at directory slots `start` to
    /// `start + n`, over `mid` that kept this directory's sectors, kept
    /// every other slot of the directory.
    proof fn lemma_recorded_kept<D: BlockDevice>(
        &self,
        before: FatFileSystem<D>,
        mid: FatFileSystem<D>,
        after: FatFileSystem<D>,
        range: DirEntryRange,
        start: int,
        n: int,
    )
        requires
            before.wf(),
            before.good_chain(self.start_id),
            after.good_chain(self.start_id),
            after.data_area == before.data_area,
            mid.sectors().len() == before.sectors().len(),
            self.dir_sectors(before).len() <= self.dir_sectors(after).len(),
            self.dir_sectors(after).subrange(0, self.dir_sectors(before).len() as int) == self.dir_sectors(before),
            forall|i: int| 0 <= i < self.dir_sectors(before).len() ==> #[trigger] mid.sectors()[self.dir_sectors(before)[i].0 as int]
                == before.sectors()[self.dir_sectors(before)[i].0 as int],
            kept_but(mid.sectors(), after.sectors(), range_slots(range), n + 1),
            placed_at(range, self.dir_sectors(after), start, n),
            0 <= n,
            0 <= start,
            start + n < 16 * self.dir_sectors(after).len(),
        ensures
            kept_slots(before.sectors(), after.sectors(), self.dir_sectors(before), start, n),
    {
        let secs = self.dir_sectors(before);
        let secs2 = self.dir_sectors(after);
        crate::fat::control::lemma_chain_sectors_in_area(before.data_area, before.chain(self.start_id));
        assert forall|a: int, b: int| 0 <= a < b < secs2.len() implies secs2[a] != secs2[b] by {
            lemma_secs_distinct(after, self.start_id, a, b);
        }
        lemma_kept_slots(before.sectors(), mid.sectors(), after.sectors(), secs, secs2, range, start, n);
    }

    /// Writes past the end of the FAT keep this directory's chain.
    proof fn lemma_chain_kept<D: BlockDevice>(&self, f1: FatFileSystem<D>, f2: FatFileSystem<D>)
        requires
            f1.good_chain(self.start_id),
            f2.fat == f1.fat,
            f2.data_area == f1.data_area,
            forall|s: int| 0 <= s < f1.fat.end() ==> #[trigger] f2.sectors()[s] == f1.sectors()[s],
            0 <= f1.fat.start(),
        ensures
            f2.good_chain(self.start_id),
            f2.chain(self.start_id) == f1.chain(self.start_id),
            self.dir_sectors(f2) == self.dir_sectors(f1),
    {
        let c = f1.chain(self.start_id);
        lemma_entries_kept(f1.sectors(), f2.sectors(), f1.fat);
        lemma_chain_same(f1.sectors(), f2.sectors(), f1.fat, self.start_id, c);
        lemma_chain_unique(f2.sectors(), f2.fat, self.start_id, f2.chain(self.start_id), c);
    }
}

/// What the scan finds lies among the directory's slots.
pub(crate) proof fn lemma_room_in_dir(disk: Seq<Seq<u8>>, secs: Seq<SectorId>, n: int)
    ensures
        match room_of(disk, secs, n) {
            Room::Run(at, _) => at < 16 * secs.len(),
            Room::Tail(at) => at < 16 * secs.len(),
            Room::Full => true,
        },
{
    lemma_scan_below(disk, secs, n, 16 * (secs.len() as int));
}

/// The scan of the first `i` slots finds one of them.
proof fn lemma_scan_below(disk: Seq<Seq<u8>>, secs: Seq<SectorId>, n: int, i: int)
    ensures
        match scan(disk, secs, n, i).0 {
            Some(Room::Run(at, _)) => at < i,
            Some(Room::Tail(at)) => at < i,
            _ => true,
        },
    decreases i,
{
    if i > 0 {
        lemma_scan_below(disk, secs, n, i - 1);
    }
}

/// The sectors of a good chain are distinct.
pub(crate) proof fn lemma_secs_distinct<D: BlockDevice>(fs: FatFileSystem<D>, id: ClusterId, i: int, j: int)
    requires
        fs.good_chain(id),
        0 <= i < j < chain_sectors(fs.data_area, fs.chain(id)).len(),
    ensures
        chain_sectors(fs.data_area, fs.chain(id))[i] != chain_sectors(fs.data_area, fs.chain(id))[j],
{
    let c = fs.chain(id);
    assert(is_chain(fs.sectors(), fs.fat, id, c));
    crate::fat::control::lemma_chain_sectors_len(fs.data_area, c);
    crate::fat::control::lemma_chain_sectors_distinct(fs.data_area, c, i, j);
}

/// `short` and `longs` are the entries of an item named `name`: the short
/// name, blank otherwise, and the long entries of the name, last part first.
pub open spec fn names_entries(name: Seq<u8>, short: ShortDirEntry, longs: Seq<LongDirEntry>) -> bool {
    &&& short.rest_zero()
    &&& short.attr == 0
    &&& short.fst_clus_lo == 0
    &&& short.fst_clus_hi == 0
    &&& short.name@ == short_name_of(name)
    &&& longs.len() == long_count(name.len() as int)
    &&& forall|j: int| 0 <= j < longs.len() ==> {
        let i = longs.len() - 1 - j;
        &&& (#[trigger] longs[j]).ord == (if j == 0 { ((i + 1) as u8) | 0x40 } else { (i + 1) as u8 })
        &&& longs[j].chksum == spec_checksum(name)
        &&& longs[j].attr == 0x0F
        &&& longs[j].ty == 0
        &&& longs[j].fst_clus_lo == 0
        &&& longs[j].spec_name() == name_part(name, i)
    }
}

/// `e` as the entry of a directory whose chain starts at `k`.
pub open spec fn dir_entry_of(e: ShortDirEntry, k: ClusterId) -> ShortDirEntry {
    ShortDirEntry { fst_clus_lo: (k.0 % 0x10000) as u16, fst_clus_hi: (k.0 / 0x10000) as u16, attr: e.attr | 0x10, ..e }
}

/// `e` is the `..` entry of a directory whose parent's chain starts at `pid`.
pub open spec fn parent_entry(e: ShortDirEntry, pid: ClusterId) -> bool {
    &&& e.rest_zero()
    &&& e.attr == 0x10
    &&& e.name@ == parent_name()
    &&& crate::fat::cluster::join_halves(e.fst_clus_lo, e.fst_clus_hi) == if pid.0 == 2 { 0 } else { pid.0 }
}

/// No sector of the chain `c` lies in the fresh cluster `k` that follows it.
proof fn lemma_fresh_apart(data: crate::fat::data::DataArea, c: Seq<u32>, k: u32, s: int)
    requires
        chain_in_area(data, c.push(k)),
        forall|a: int, b: int| 0 <= a < b < c.push(k).len() ==> #[trigger] c.push(k)[a] != #[trigger] c.push(k)[b],
        data.cluster_start(k) <= s < data.cluster_start(k) + data.cluster_sectors,
    ensures
        forall|i: int| 0 <= i < chain_sectors(data, c).len() ==> (#[trigger] chain_sectors(data, c)[i]).0 != s,
{
    let c2 = c.push(k);
    let cs = data.cluster_sectors as int;
    assert(c2.drop_last() =~= c);
    assert forall|i: int| 0 <= i < c.len() implies 2 <= #[trigger] c[i] && data.cluster_fits(c[i])
        && data.cluster_start(c[i]) + data.cluster_sectors <= data.end() by {
        assert(c2[i] == c[i]);
    }
    crate::fat::control::lemma_chain_sectors_len(data, c);
    crate::fat::control::lemma_chain_sectors_len(data, c2);
    let j = c.len() * cs + (s - data.cluster_start(k));
    assert(c2.len() * cs == c.len() * cs + cs) by (nonlinear_arith)
        requires
            c2.len() == c.len() + 1,
    ;
    assert(2 <= c2[c.len() as int]);
    let a = chain_sectors(data, c);
    let b = crate::fat::control::cluster_sectors_of(data, k);
    assert(chain_sectors(data, c2) == a + b);
    assert(chain_sectors(data, c2)[j] == b[s - data.cluster_start(k)]);
    assert forall|i: int| 0 <= i < a.len() implies (#[trigger] a[i]).0 != s by {
        assert(chain_sectors(data, c2)[i] == a[i]);
        crate::fat::control::lemma_chain_sectors_distinct(data, c2, i, j);
    }
}

impl Inode {
    /// What [`Inode::alloc_dir`] did, from `before` to `after`: took the
    /// free cluster `k` as the chain of a new directory whose entry, once
    /// `short`, is now `short2`, and wrote its `.` and `..` entries; this
    /// directory's chain and sectors stayed as they were.
    pub open spec fn dir_made<D: BlockDevice>(
        &self,
        before: FatFileSystem<D>,
        after: FatFileSystem<D>,
        k: ClusterId,
        short: ShortDirEntry,
        short2: ShortDirEntry,
    ) -> bool {
        let first = after.data_area.cluster_start(k.0);
        &&& fat_entry(before.sectors(), before.fat.start(), k.0 as int) == 0
        &&& after.good_chain(k)
        &&& after.chain(k) == seq![k.0]
        &&& after.good_chain(self.start_id)
        &&& after.chain(self.start_id) == before.chain(self.start_id)
        &&& self.dir_sectors(after) == self.dir_sectors(before)
        &&& forall|i: int| 0 <= i < self.dir_sectors(before).len()
            ==> #[trigger] after.sectors()[self.dir_sectors(before)[i].0 as int] == before.sectors()[self.dir_sectors(before)[i].0 as int]
        &&& short2 == dir_entry_of(short, k)
        &&& slot(after.sectors()[first], 0) == cwd_name() + short2.spec_to_bytes().subrange(11, 32)
        &&& exists|e: ShortDirEntry| #[trigger] parent_entry(e, self.start_id) && slot(after.sectors()[first], 1) == e.spec_to_bytes()
    }

    /// Takes the first free cluster for a new directory whose entry is
    /// `dir`: records the cluster and the directory attribute in `dir`, and
    /// writes the `.` and `..` entries into the cluster's first two slots.
    #[verifier::rlimit(60)]
    #[verifier::spinoff_prover]
    fn alloc_dir<D: BlockDevice>(&self, dir: &mut ShortDirEntry, fs: &mut FatFileSystem<D>, Ghost(n): Ghost<int>) -> (r: ClusterId)
        requires
            old(fs).wf(),
            old(fs).room(n),
            n >= 1,
            old(fs).good_chain(self.start_id),
        ensures
            final(fs).wf(),
            final(fs).bpb == old(fs).bpb,
            final(fs).fat == old(fs).fat,
            final(fs).data_area == old(fs).data_area,
            final(fs).sectors().len() == old(fs).sectors().len(),
            final(fs).room(n - 1),
            self.dir_made(*old(fs), *final(fs), r, *old(dir), *final(dir)),
    {
        let ghost d0 = fs.sectors();
        let ghost c = fs.chain(self.start_id);
        let ghost f0 = *fs;
        let (k, sectors) = fs.take_cluster(Ghost(n));
        let ghost d1 = fs.sectors();
        let ghost f1 = *fs;
        dir.set_cluster_id(k);
        dir.attr = dir.attr | 0x10;
        let cwd = dir.as_cwd();
        let parent = ShortDirEntry::new_parent(self.start_id);
        proof {
            fs.cache.lemma_wf_view();
            assert(is_chain(d0, fs.fat, self.start_id, c));
            assert forall|i: int| 0 <= i < c.len() implies #[trigger] c[i] != k.0 by {
                assert(fs.fat.spec_validate_id(ClusterId(c[i])) is Ok);
                if i < c.len() - 1 {
                    assert(fat_entry(d0, fs.fat.start(), c[i] as int) == c[i + 1]);
                    assert(fs.fat.spec_validate_id(ClusterId(c[i + 1])) is Ok);
                }
            }
            let c2 = c.push(k.0);
            assert forall|a: int, b: int| 0 <= a < b < c2.len() implies #[trigger] c2[a] != #[trigger] c2[b] by {
                if b < c.len() {
                    assert(c2[a] == c[a] && c2[b] == c[b]);
                } else {
                    assert(c2[a] == c[a]);
                }
            }
            assert(seq![k.0][0] == k.0);
            assert forall|i: int| 0 <= i < c2.len() implies 2 <= #[trigger] c2[i] && fs.data_area.cluster_fits(c2[i])
                && fs.data_area.cluster_start(c2[i]) + fs.data_area.cluster_sectors <= fs.data_area.end() by {
                if i < c.len() {
                    assert(c2[i] == c[i]);
                }
            }
            assert(sectors.start.0 == fs.data_area.cluster_start(k.0));
        }
        let pos0 = DirEntryPos { sector: sectors.start, nth: 0 };
        let pos1 = DirEntryPos { sector: sectors.start, nth: 1 };
        proof { assert(sectors.start.0 < fs.sectors().len()); }
        pos0.access_mut(&mut fs.cache, &cwd);
        pos1.access_mut(&mut fs.cache, &parent);
        proof {
            fs.cache.lemma_wf_view();
            let d3 = fs.sectors();
            let first = sectors.start.0 as int;
            let secs = self.dir_sectors(f0);
            crate::fat::control::lemma_chain_sectors_in_area(fs.data_area, c);
            crate::fat::dir_entry::lemma_short_len(cwd);
            crate::fat::dir_entry::lemma_short_len(parent);
            assert forall|s: int| 0 <= s < fs.fat.end() implies #[trigger] d3[s] == d1[s] by {}
            lemma_entries_kept(d1, d3, fs.fat);
            assert(fat_entry(d0, fs.fat.start(), c[c.len() - 1] as int) == 0xFFFF_FFFF);
            assert forall|j: int| 0 <= j < fs.fat.spec_entries() implies #[trigger] fat_entry(d3, fs.fat.start(), j)
                == if j == k.0 { 0xFFFF_FFFFu32 } else { fat_entry(d0, fs.fat.start(), j) } by {}
            crate::fat::grow::lemma_chain_keep_but(d0, d3, fs.fat, self.start_id, c, k.0);
            lemma_chain_unique(d3, fs.fat, self.start_id, fs.chain(self.start_id), c);
            assert(is_chain(d3, fs.fat, k, seq![k.0]));
            lemma_chain_unique(d3, fs.fat, k, fs.chain(k), seq![k.0]);
            assert forall|i: int| 0 <= i < secs.len() implies #[trigger] d3[secs[i].0 as int] == d0[secs[i].0 as int] by {
                lemma_fresh_apart(fs.data_area, c, k.0, first);
                if sectors.start.0 <= secs[i].0 < sectors.end.0 {
                    lemma_fresh_apart(fs.data_area, c, k.0, secs[i].0 as int);
                }
            }
            crate::fat::grow::lemma_room_frame(f1, *fs, n - 1);
            let b0 = slot(d3[first], 0);
            assert(b0 == cwd.spec_to_bytes()) by {
                crate::fat::range::lemma_slot_splice(fs.sectors()[first], 0, parent.spec_to_bytes(), 0);
            }
            assert(cwd.spec_to_bytes() =~= cwd_name() + dir.spec_to_bytes().subrange(11, 32));
            assert(parent_entry(parent, self.start_id));
            assert(*dir == dir_entry_of(*old(dir), k));
            assert(fat_entry(d0, fs.fat.start(), k.0 as int) == 0);
            assert(fs.good_chain(k));
            assert(fs.chain(k) == seq![k.0]);
            assert(fs.good_chain(self.start_id));
            assert(fs.chain(self.start_id) == f0.chain(self.start_id));
            assert(self.dir_sectors(*fs) == self.dir_sectors(f0));
            assert(slot(fs.sectors()[fs.data_area.cluster_start(k.0)], 0) == cwd_name() + dir.spec_to_bytes().subrange(11, 32));
            assert(slot(fs.sectors()[fs.data_area.cluster_start(k.0)], 1) == parent.spec_to_bytes());
        }
        k
    }

    /// Creates an empty file named `name` in this directory, with no chain
    /// yet, and writes every cached sector back; or answers
    /// [`Error::AlreadyExists`].
    pub fn create_file<D: BlockDevice>(&self, name: &str, fs: &mut FatFileSystem<D>) -> (r: Result<Inode, Error>)
        requires
            old(fs).wf(),
            name.spec_bytes().len() > 0,
            old(fs).good_chain(self.start_id),
            old(fs).fat.end() <= old(fs).data_area.start(),
            crate::fat::inode::longs_found(old(fs).sectors(), self.dir_sectors(*old(fs)), spec_checksum(name.spec_bytes())),
            16 * self.dir_sectors(*old(fs)).len() <= usize::MAX,
            room_fits(room_of(old(fs).sectors(), self.dir_sectors(*old(fs)), long_count(name.spec_bytes().len() as int)),
                long_count(name.spec_bytes().len() as int)),
            room_grows(room_of(old(fs).sectors(), self.dir_sectors(*old(fs)), long_count(name.spec_bytes().len() as int)),
                long_count(name.spec_bytes().len() as int), self.dir_sectors(*old(fs)).len() as int) ==> old(fs).room(1),
        ensures
            final(fs).wf(),
            final(fs).bpb == old(fs).bpb,
            final(fs).fat == old(fs).fat,
            final(fs).data_area == old(fs).data_area,
            r is Ok ==> final(fs).cache.device_blocks() == final(fs).sectors(),
            exists|short: ShortDirEntry, longs: Seq<LongDirEntry>| {
                &&& #[trigger] names_entries(name.spec_bytes(), short, longs)
                &&& match r {
                    Err(e) => self.recorded(*old(fs), *final(fs), name.spec_bytes(), short, longs, Err(e)),
                    Ok(inode) => {
                        &&& self.recorded(*old(fs), *final(fs), name.spec_bytes(), short, longs, Ok(inode.range))
                        &&& inode.start_id.0 == 0
                        &&& inode.ty == DirEntryType::Regular
                    },
                }
            },
    {
        let (short, longs) = name2dirents(name);
        let ghost lv = longs@;
        proof { assert(names_entries(name.spec_bytes(), short, lv)); }
        let range = match self.create(name, short, longs, fs) {
            Ok(range) => range,
            Err(e) => return Err(e),
        };
        proof { fs.cache.lemma_wf_view(); }
        let ghost f1 = *fs;
        sync_all(&mut fs.cache);
        proof {
            fs.cache.lemma_wf_view();
            assert(fs.sectors() == f1.sectors());
            crate::fat::grow::lemma_chain_same(f1.sectors(), fs.sectors(), fs.fat, self.start_id, f1.chain(self.start_id));
        }
        Ok(Inode { start_id: ClusterId::free(), range, ty: DirEntryType::Regular })
    }

    /// Creates an empty directory named `name` in this directory: takes a
    /// cluster for it, holding its `.` and `..` entries, records it, and
    /// writes every cached sector back; or answers
    /// [`Error::AlreadyExists`], the cluster taken all the same.
    pub fn mkdir<D: BlockDevice>(&self, name: &str, fs: &mut FatFileSystem<D>) -> (r: Result<Inode, Error>)
        requires
            old(fs).wf(),
            name.spec_bytes().len() > 0,
            old(fs).good_chain(self.start_id),
            old(fs).fat.end() <= old(fs).data_area.start(),
            crate::fat::inode::longs_found(old(fs).sectors(), self.dir_sectors(*old(fs)), spec_checksum(name.spec_bytes())),
            16 * self.dir_sectors(*old(fs)).len() <= usize::MAX,
            room_fits(room_of(old(fs).sectors(), self.dir_sectors(*old(fs)), long_count(name.spec_bytes().len() as int)),
                long_count(name.spec_bytes().len() as int)),
            old(fs).room(if room_grows(room_of(old(fs).sectors(), self.dir_sectors(*old(fs)), long_count(name.spec_bytes().len() as int)),
                long_count(name.spec_bytes().len() as int), self.dir_sectors(*old(fs)).len() as int) { 2 } else { 1 }),
        ensures
            final(fs).wf(),
            final(fs).bpb == old(fs).bpb,
            final(fs).fat == old(fs).fat,
            final(fs).data_area == old(fs).data_area,
            r is Ok ==> final(fs).cache.device_blocks() == final(fs).sectors(),
            exists|mid: FatFileSystem<D>, k: ClusterId, short: ShortDirEntry, longs: Seq<LongDirEntry>| {
                &&& #[trigger] names_entries(name.spec_bytes(), short, longs)
                &&& #[trigger] self.dir_made(*old(fs), mid, k, short, dir_entry_of(short, k))
                &&& match r {
                    Err(e) => self.recorded(mid, *final(fs), name.spec_bytes(), dir_entry_of(short, k), longs, Err(e)),
                    Ok(inode) => {
                        &&& self.recorded(mid, *final(fs), name.spec_bytes(), dir_entry_of(short, k), longs, Ok(inode.range))
                        &&& inode.start_id == k
                        &&& inode.ty == DirEntryType::Directory
                    },
                }
            },
    {
        let (mut short, longs) = name2dirents(name);
        let ghost short0 = short;
        let ghost lv = longs@;
        let ghost n = long_count(name.spec_bytes().len() as int);
        let ghost room = room_of(fs.sectors(), self.dir_sectors(*fs), n);
        let ghost grows = room_grows(room, n, self.dir_sectors(*fs).len() as int);
        proof { assert(names_entries(name.spec_bytes(), short, lv)); }
        let start_id = self.alloc_dir(&mut short, fs, Ghost(if grows { 2int } else { 1int }));
        let ghost mid = *fs;
        proof {
            assert(self.dir_made(*old(fs), mid, start_id, short0, short));
            assert(self.dir_sectors(mid) == self.dir_sectors(*old(fs)));
            let secs = self.dir_sectors(mid);
            assert(forall|i: int| 0 <= i < secs.len() ==> #[trigger] mid.sectors()[secs[i].0 as int] == old(fs).sectors()[secs[i].0 as int]);
            lemma_same_dir(old(fs).sectors(), mid.sectors(), secs, n, spec_checksum(name.spec_bytes()));
        }
        let range = match self.create(name, short, longs, fs) {
            Ok(range) => range,
            Err(e) => return Err(e),
        };
        proof { fs.cache.lemma_wf_view(); }
        let ghost f1 = *fs;
        sync_all(&mut fs.cache);
        proof {
            fs.cache.lemma_wf_view();
            assert(fs.sectors() == f1.sectors());
        }
        Ok(Inode { start_id, range, ty: DirEntryType::Directory })
    }
}

/// Scans of two views that agree on the directory's sectors agree.
proof fn lemma_scan_same(d1: Seq<Seq<u8>>, d2: Seq<Seq<u8>>, secs: Seq<SectorId>, n: int, i: int)
    requires
        forall|j: int| 0 <= j < secs.len() ==> #[trigger] d2[secs[j].0 as int] == d1[secs[j].0 as int],
        i <= 16 * secs.len(),
    ensures
        scan(d2, secs, n, i) == scan(d1, secs, n, i),
    decreases i,
{
    if i > 0 {
        lemma_scan_same(d1, d2, secs, n, i - 1);
        let k = i - 1;
        assert(d2[secs[k / 16].0 as int] == d1[secs[k / 16].0 as int]);
    }
}

/// A directory reads the same from two views that agree on its sectors:
/// the same room for an item, and long entries for its items alike.
proof fn lemma_same_dir(d1: Seq<Seq<u8>>, d2: Seq<Seq<u8>>, secs: Seq<SectorId>, n: int, c: u8)
    requires
        forall|j: int| 0 <= j < secs.len() ==> #[trigger] d2[secs[j].0 as int] == d1[secs[j].0 as int],
    ensures
        room_of(d2, secs, n) == room_of(d1, secs, n),
        crate::fat::inode::longs_found(d1, secs, c) ==> crate::fat::inode::longs_found(d2, secs, c),
{
    lemma_scan_same(d1, d2, secs, n, 16 * (secs.len() as int));
    if crate::fat::inode::longs_found(d1, secs, c) {
        assert forall|p: int, q: int| #[trigger] crate::fat::inode::candidate(d2, secs, p, q, c)
            implies crate::fat::inode::slot_longs(d2, secs, p, q, c) is Some by {
            assert(d2[secs[p].0 as int] == d1[secs[p].0 as int]);
            if p > 0 {
                assert(d2[secs[p - 1].0 as int] == d1[secs[p - 1].0 as int]);
            }
            assert(crate::fat::inode::candidate(d1, secs, p, q, c));
        }
    }
}

} // verus!
