//! Taking an item out of a directory: its slots become free, and where the
//! free tail begins right after them, the tail grows back over them.

use vstd::prelude::*;

use crate::block_dev::{blocks_wf, BlockDevice};
use crate::fat::control::FatFileSystem;
use crate::fat::create::{pos_of, status_at};
use crate::fat::dir_entry::{cwd_name, parent_name, DirEntryStatus, ShortDirEntry};
use crate::fat::inode::{inode_at, named, slot, slot_before, DirEntryPos, DirEntryRange, DirEntryType, Error, Inode, SECTOR_SLOTS};
use crate::fat::dir_entry::spec_checksum;
use crate::fat::table::{chain_of, fat_entry, is_chain, released};
use vstd::string::StringSliceAdditionalSpecFns;
use crate::fat::range::{lemma_slot_splice, slot_at};
use crate::fat::sector::SectorId;

verus! {

/// The 32 bytes of a slot marked free with the first byte `mark`.
pub open spec fn free_slot(mark: u8) -> Seq<u8> {
    seq![mark] + Seq::new(31, |i: int| 0u8)
}

/// Slot `i` of the directory holds its `.` or `..` entry.
pub open spec fn relative_at(disk: Seq<Seq<u8>>, secs: Seq<SectorId>, i: int) -> bool {
    let name = slot(disk[secs[i / 16].0 as int], i % 16).subrange(0, 11);
    name == cwd_name() || name == parent_name()
}

/// The last slot before slot `i` that holds an item other than `.` and `..`.
pub open spec fn kept_before(disk: Seq<Seq<u8>>, secs: Seq<SectorId>, i: int) -> Option<int>
    decreases i,
{
    if i <= 0 {
        None
    } else if status_at(disk, secs, i - 1) == DirEntryStatus::Occupied && !relative_at(disk, secs, i - 1) {
        Some(i - 1)
    } else {
        kept_before(disk, secs, i - 1)
    }
}

/// The index in `secs` of sector `s`.
pub open spec fn index_in(secs: Seq<SectorId>, s: SectorId, p: int) -> bool {
    0 <= p < secs.len() && secs[p] == s
}

/// The status of the slot after an item whose short entry is slot `s` of
/// a directory of `n` sectors: past the last slot, the free tail.
pub open spec fn tail_status(disk: Seq<Seq<u8>>, secs: Seq<SectorId>, s: int) -> DirEntryStatus {
    if s + 1 < 16 * secs.len() { status_at(disk, secs, s + 1) } else { DirEntryStatus::TailFree }
}

/// The status of the slot before an item whose last long entry is slot `l`,
/// slot `nth` of its sector: a `.` or `..` entry there counts as the free
/// tail; before the directory's first slot, the status after the item decides.
pub open spec fn head_status(disk: Seq<Seq<u8>>, secs: Seq<SectorId>, l: int, nth: int, tail: DirEntryStatus) -> DirEntryStatus {
    if nth == 0 {
        if l >= 16 {
            status_at(disk, secs, l - 1)
        } else if tail == DirEntryStatus::TailFree {
            DirEntryStatus::TailFree
        } else {
            DirEntryStatus::Free
        }
    } else if relative_at(disk, secs, l - 1) {
        DirEntryStatus::TailFree
    } else {
        status_at(disk, secs, l - 1)
    }
}

/// What removing the item whose slots run from slot `l` (slot `nth` of its
/// sector) to slot `s` clears:
/// the first slot cleared and the mark it and the rest take. Between items
/// the item's slots become free; where the free tail follows it, the tail
/// grows back to the last item before, or to the directory's first slot
/// after `.` and `..` (`first`) where none is left, the slots then marked
/// free, or the free tail where nothing is left.
pub open spec fn remove_plan(disk: Seq<Seq<u8>>, secs: Seq<SectorId>, l: int, nth: int, s: int, first: int) -> (int, u8) {
    let tail = tail_status(disk, secs, s);
    let head = head_status(disk, secs, l, nth, tail);
    if head == DirEntryStatus::Occupied && tail == DirEntryStatus::TailFree {
        (l, 0u8)
    } else if tail != DirEntryStatus::TailFree {
        (l, 0xE5u8)
    } else {
        match kept_before(disk, secs, l) {
            Some(j) => (j + 1, 0xE5u8),
            None => (first, 0u8),
        }
    }
}

/// No slot between the last item before slot `i` (or the directory's
/// start, where none is) and slot `i` holds an item other than `.` and `..`.
proof fn lemma_kept_before_gap(disk: Seq<Seq<u8>>, secs: Seq<SectorId>, i: int, x: int)
    requires
        match kept_before(disk, secs, i) {
            Some(j) => j < x < i,
            None => 0 <= x < i,
        },
    ensures
        !(status_at(disk, secs, x) == DirEntryStatus::Occupied && !relative_at(disk, secs, x)),
    decreases i,
{
    if i > 0 && !(status_at(disk, secs, i - 1) == DirEntryStatus::Occupied && !relative_at(disk, secs, i - 1)) {
        if x < i - 1 {
            lemma_kept_before_gap(disk, secs, i - 1, x);
        }
    }
}

/// Taking an item out clears no slot of another item: the slots it clears
/// before its own first slot `l` hold nothing but free slots and `.` and
/// `..` entries, so every other item keeps its slots as they were.
pub proof fn lemma_remove_spares_others(disk: Seq<Seq<u8>>, secs: Seq<SectorId>, l: int, nth: int, s: int, first: int, x: int)
    requires
        0 <= first,
        remove_plan(disk, secs, l, nth, s, first).0 <= x < l,
    ensures
        !(status_at(disk, secs, x) == DirEntryStatus::Occupied && !relative_at(disk, secs, x)),
{
    match kept_before(disk, secs, l) {
        Some(j) => {
            lemma_kept_before_gap(disk, secs, l, x);
        },
        None => {
            lemma_kept_before_gap(disk, secs, l, x);
        },
    }
}

/// Marks slots `a` to `b` of the directory whose sectors are `secs` with
/// `mark`.
fn fill_slots<D: BlockDevice>(fs: &mut FatFileSystem<D>, secs: &Vec<SectorId>, a: usize, b: usize, mark: u8)
    requires
        old(fs).wf(),
        forall|i: int| 0 <= i < secs@.len() ==> (#[trigger] secs@[i]).0 < old(fs).sectors().len(),
        forall|i: int, j: int| 0 <= i < j < secs@.len() ==> #[trigger] secs@[i] != #[trigger] secs@[j],
        a <= b + 1,
        b < 16 * secs@.len(),
        16 * secs@.len() <= usize::MAX,
    ensures
        final(fs).wf(),
        final(fs).bpb == old(fs).bpb,
        final(fs).fat == old(fs).fat,
        final(fs).data_area == old(fs).data_area,
        final(fs).sectors().len() == old(fs).sectors().len(),
        forall|i: int| 0 <= i < 16 * secs@.len() ==> #[trigger] slot_at(final(fs).sectors(), pos_of(secs@, i))
            == if a <= i <= b { free_slot(mark) } else { slot_at(old(fs).sectors(), pos_of(secs@, i)) },
        forall|t: int| 0 <= t < old(fs).sectors().len() && (forall|p: int| 0 <= p < secs@.len() ==> (#[trigger] secs@[p]).0 != t)
            ==> #[trigger] final(fs).sectors()[t] == old(fs).sectors()[t],
{
    let ghost d0 = fs.sectors();
    let mut bytes: Vec<u8> = Vec::new();
    bytes.push(mark);
    let mut k: usize = 1;
    while k < 32
        invariant
            1 <= k <= 32,
            bytes@.len() == k,
            bytes@[0] == mark,
            forall|t: int| 1 <= t < k ==> bytes@[t] == 0u8,
        decreases 32 - k,
    {
        bytes.push(0u8);
        k = k + 1;
    }
    assert(bytes@ =~= free_slot(mark));
    proof { fs.cache.lemma_wf_view(); }
    let mut i: usize = a;
    while i <= b
        invariant
            fs.wf(),
            fs.bpb == old(fs).bpb,
            fs.fat == old(fs).fat,
            fs.data_area == old(fs).data_area,
            fs.sectors().len() == d0.len(),
            d0 == old(fs).sectors(),
            blocks_wf(fs.sectors()),
            bytes@ == free_slot(mark),
            forall|j: int| 0 <= j < secs@.len() ==> (#[trigger] secs@[j]).0 < d0.len(),
            forall|x: int, y: int| 0 <= x < y < secs@.len() ==> #[trigger] secs@[x] != #[trigger] secs@[y],
            a <= i <= b + 1,
            b < 16 * secs@.len(),
            16 * secs@.len() <= usize::MAX,
            forall|j: int| 0 <= j < 16 * secs@.len() ==> #[trigger] slot_at(fs.sectors(), pos_of(secs@, j))
                == if a <= j < i { free_slot(mark) } else { slot_at(d0, pos_of(secs@, j)) },
            forall|t: int| 0 <= t < d0.len() && (forall|p: int| 0 <= p < secs@.len() ==> (#[trigger] secs@[p]).0 != t)
                ==> #[trigger] fs.sectors()[t] == d0[t],
        decreases b + 1 - i,
    {
        let sector = secs[i / 16];
        let nth = i % 16;
        let ghost before = fs.sectors();
        proof { fs.cache.lemma_wf_view(); }
        fs.cache.write(sector.0, 32 * nth, bytes.as_slice());
        proof {
            fs.cache.lemma_wf_view();
            let s = sector.0 as int;
            assert forall|q: int| 0 <= q < 16 implies #[trigger] slot(fs.sectors()[s], q) == if q == nth { free_slot(mark) } else { slot(before[s], q) } by {
                lemma_slot_splice(before[s], nth as int, free_slot(mark), q);
            }
            assert forall|j: int| 0 <= j < 16 * secs@.len() implies #[trigger] slot_at(fs.sectors(), pos_of(secs@, j))
                == if a <= j < i + 1 { free_slot(mark) } else { slot_at(d0, pos_of(secs@, j)) } by {
                let pj = pos_of(secs@, j);
                assert(slot_at(before, pj) == if a <= j < i { free_slot(mark) } else { slot_at(d0, pj) });
                if j / 16 == i / 16 {
                    assert(slot(fs.sectors()[s], (j % 16) as int) == if j % 16 == nth { free_slot(mark) } else { slot(before[s], j % 16) });
                } else {
                    assert(secs@[j / 16] != secs@[(i / 16) as int]);
                    assert(fs.sectors()[pj.sector.0 as int] == before[pj.sector.0 as int]);
                }
            }
            assert forall|t: int| 0 <= t < d0.len() && (forall|p: int| 0 <= p < secs@.len() ==> (#[trigger] secs@[p]).0 != t)
                implies #[trigger] fs.sectors()[t] == d0[t] by {
                assert(secs@[(i / 16) as int].0 != t);
            }
        }
        i = i + 1;
    }
}

/// The range's slots run from slot `l` to slot `s` of the directory whose
/// sectors are `secs`, over one sector or two.
pub open spec fn range_at(secs: Seq<SectorId>, range: DirEntryRange, l: int, s: int) -> bool {
    exists|pl: int, ps: int| {
        &&& #[trigger] index_in(secs, range.last_long.sector, pl)
        &&& #[trigger] index_in(secs, range.short.sector, ps)
        &&& l == 16 * pl + range.last_long.nth
        &&& s == 16 * ps + range.short.nth
        &&& (pl == ps && range.last_long.nth <= range.short.nth) || (pl + 1 == ps && range.last_long.nth <= 16)
        &&& range.short.nth < 16
    }
}

/// The first index of sector `s` in `secs`.
fn index_of(secs: &Vec<SectorId>, s: SectorId) -> (r: Option<usize>)
    ensures
        match r {
            Some(p) => index_in(secs@, s, p as int) && forall|q: int| 0 <= q < p ==> secs@[q] != s,
            None => forall|q: int| 0 <= q < secs@.len() ==> secs@[q] != s,
        },
{
    let mut p: usize = 0;
    while p < secs.len()
        invariant
            p <= secs@.len(),
            forall|q: int| 0 <= q < p ==> secs@[q] != s,
        decreases secs@.len() - p,
    {
        if secs[p].0 == s.0 {
            return Some(p);
        }
        p = p + 1;
    }
    None
}

impl<D: BlockDevice> FatFileSystem<D> {
    /// The short entry in slot `i` of the directory whose sectors are `secs`.
    fn short_in(&mut self, secs: &Vec<SectorId>, i: usize) -> (r: ShortDirEntry)
        requires
            old(self).wf(),
            i < 16 * secs@.len(),
            forall|j: int| 0 <= j < secs@.len() ==> (#[trigger] secs@[j]).0 < old(self).sectors().len(),
        ensures
            final(self).same_volume(*old(self)),
            r.spec_to_bytes() == slot_at(old(self).sectors(), pos_of(secs@, i as int)),
            r.name@ == slot_at(old(self).sectors(), pos_of(secs@, i as int)).subrange(0, 11),
    {
        let pos = DirEntryPos { sector: secs[i / 16], nth: i % 16 };
        let r = pos.access(&mut self.cache);
        proof {
            let b = r.spec_to_bytes();
            assert(b.subrange(0, 11) =~= r.name@);
        }
        r
    }

    /// The last slot before slot `i` that holds an item other than `.` and `..`.
    fn find_kept(&mut self, secs: &Vec<SectorId>, i: usize) -> (r: Option<usize>)
        requires
            old(self).wf(),
            i <= 16 * secs@.len(),
            forall|j: int| 0 <= j < secs@.len() ==> (#[trigger] secs@[j]).0 < old(self).sectors().len(),
        ensures
            final(self).same_volume(*old(self)),
            match r {
                Some(j) => kept_before(old(self).sectors(), secs@, i as int) == Some(j as int),
                None => kept_before(old(self).sectors(), secs@, i as int) is None,
            },
    {
        let ghost disk = self.sectors();
        let ghost f0 = *self;
        let mut k: usize = i;
        while k > 0
            invariant
                self.wf(),
                self.same_volume(f0),
                f0 == *old(self),
                disk == self.sectors(),
                k <= i,
                i <= 16 * secs@.len(),
                forall|j: int| 0 <= j < secs@.len() ==> (#[trigger] secs@[j]).0 < disk.len(),
                kept_before(disk, secs@, i as int) == kept_before(disk, secs@, k as int),
            decreases k,
        {
            let e = self.short_in(secs, k - 1);
            proof {
                let b = e.spec_to_bytes();
                assert(b[0] == e.name@[0]);
            }
            if e.status() == DirEntryStatus::Occupied && !e.is_relative() {
                return Some(k - 1);
            }
            k = k - 1;
        }
        None
    }
}

impl Inode {
    /// [`Inode::remove`] can take the item whose slots `range` gives out of
    /// this directory on `fs`: the range lies in the directory, and the
    /// first slot that the removal clears comes no later than the slot after it.
    pub open spec fn removable<D: BlockDevice>(&self, fs: FatFileSystem<D>, range: DirEntryRange) -> bool {
        &&& fs.good_chain(self.start_id)
        &&& 16 * self.dir_sectors(fs).len() <= usize::MAX
        &&& exists|l: int, s: int| #[trigger] range_at(self.dir_sectors(fs), range, l, s)
        &&& forall|l: int, s: int| #[trigger] range_at(self.dir_sectors(fs), range, l, s) ==> {
            let disk = fs.sectors();
            let secs = self.dir_sectors(fs);
            let first = if self.start_id.0 == 2 { 0int } else { 2int };
            remove_plan(disk, secs, l, range.last_long.nth as int, s, first).0 <= s + 1
        }
    }

    /// What [`Inode::remove`] did, from `before` to `after`, taking the item
    /// whose slots `range` gives out of this directory: the slots
    /// [`remove_plan`] names took its mark, and nothing outside the
    /// directory's sectors changed.
    pub open spec fn removed<D: BlockDevice>(&self, before: FatFileSystem<D>, after: FatFileSystem<D>, range: DirEntryRange) -> bool {
        let disk = before.sectors();
        let secs = self.dir_sectors(before);
        &&& after.sectors().len() == disk.len()
        &&& forall|l: int, s: int| #[trigger] range_at(secs, range, l, s) ==> {
            let first = if self.start_id.0 == 2 { 0int } else { 2int };
            let plan = remove_plan(disk, secs, l, range.last_long.nth as int, s, first);
            forall|i: int| 0 <= i < 16 * secs.len() ==> #[trigger] slot_at(after.sectors(), pos_of(secs, i))
                == if plan.0 <= i <= s { free_slot(plan.1) } else { slot_at(disk, pos_of(secs, i)) }
        }
        &&& forall|t: int| 0 <= t < disk.len() && (forall|p: int| 0 <= p < secs.len() ==> (#[trigger] secs[p]).0 != t)
            ==> #[trigger] after.sectors()[t] == disk[t]
    }
}

impl Inode {
    /// Takes the item whose slots `range` gives out of this directory. Where
    /// the slots before and after the item hold items, or one is free, its
    /// slots are marked free; where an item precedes it and the free tail
    /// follows, they are marked as the free tail; where a free slot precedes
    /// it and the free tail follows, every slot from the one after the last
    /// item before (or after `.` and `..` where none is left, then marked as
    /// the free tail) through the item's short entry is marked free.
    #[verifier::rlimit(60)]
    #[verifier::spinoff_prover]
    pub fn remove<D: BlockDevice>(&self, range: DirEntryRange, fs: &mut FatFileSystem<D>)
        requires
            old(fs).wf(),
            self.removable(*old(fs), range),
        ensures
            final(fs).wf(),
            final(fs).bpb == old(fs).bpb,
            final(fs).fat == old(fs).fat,
            final(fs).data_area == old(fs).data_area,
            self.removed(*old(fs), *final(fs), range),
    {
        let ghost disk = fs.sectors();
        let secs = fs.data_sectors(self.start_id);
        let ghost f1 = *fs;
        proof {
            crate::fat::control::lemma_chain_sectors_in_area(fs.data_area, fs.chain(self.start_id));
            let c = fs.chain(self.start_id);
            assert(crate::fat::table::is_chain(fs.sectors(), fs.fat, self.start_id, c));
            crate::fat::control::lemma_chain_sectors_len(fs.data_area, c);
            assert forall|i: int, j: int| 0 <= i < j < secs@.len() implies #[trigger] secs@[i] != #[trigger] secs@[j] by {
                crate::fat::control::lemma_chain_sectors_distinct(fs.data_area, c, i, j);
            }
        }
        let ghost (l0, s0) = choose|l: int, s: int| #[trigger] range_at(secs@, range, l, s);
        let ps = match index_of(&secs, range.short.sector) {
            Some(p) => p,
            None => {
                proof {
                    let (pl, ps) = choose|pl: int, ps: int| {
                        &&& #[trigger] index_in(secs@, range.last_long.sector, pl)
                        &&& #[trigger] index_in(secs@, range.short.sector, ps)
                        &&& l0 == 16 * pl + range.last_long.nth
                        &&& s0 == 16 * ps + range.short.nth
                        &&& (pl == ps && range.last_long.nth <= range.short.nth) || (pl + 1 == ps && range.last_long.nth <= 16)
                        &&& range.short.nth < 16
                    };
                    assert(secs@[ps] == range.short.sector);
                }
                return;
            },
        };
        let pl = match index_of(&secs, range.last_long.sector) {
            Some(p) => p,
            None => {
                proof {
                    let (pl, ps) = choose|pl: int, ps: int| {
                        &&& #[trigger] index_in(secs@, range.last_long.sector, pl)
                        &&& #[trigger] index_in(secs@, range.short.sector, ps)
                        &&& l0 == 16 * pl + range.last_long.nth
                        &&& s0 == 16 * ps + range.short.nth
                        &&& (pl == ps && range.last_long.nth <= range.short.nth) || (pl + 1 == ps && range.last_long.nth <= 16)
                        &&& range.short.nth < 16
                    };
                    assert(secs@[pl] == range.last_long.sector);
                }
                return;
            },
        };
        proof {
            let (pl2, ps2) = choose|pl: int, ps: int| {
                &&& #[trigger] index_in(secs@, range.last_long.sector, pl)
                &&& #[trigger] index_in(secs@, range.short.sector, ps)
                &&& l0 == 16 * pl + range.last_long.nth
                &&& s0 == 16 * ps + range.short.nth
                &&& (pl == ps && range.last_long.nth <= range.short.nth) || (pl + 1 == ps && range.last_long.nth <= 16)
                &&& range.short.nth < 16
            };
            if pl2 != pl as int {
                if pl2 < pl { assert(secs@[pl2] != range.last_long.sector); } else { assert(secs@[pl as int] != secs@[pl2]); }
            }
            if ps2 != ps as int {
                if ps2 < ps { assert(secs@[ps2] != range.short.sector); } else { assert(secs@[ps as int] != secs@[ps2]); }
            }
            assert forall|l: int, s: int| #[trigger] range_at(secs@, range, l, s) implies l == l0 && s == s0 by {
                let (pl3, ps3) = choose|pl: int, ps: int| {
                    &&& #[trigger] index_in(secs@, range.last_long.sector, pl)
                    &&& #[trigger] index_in(secs@, range.short.sector, ps)
                    &&& l == 16 * pl + range.last_long.nth
                    &&& s == 16 * ps + range.short.nth
                    &&& (pl == ps && range.last_long.nth <= range.short.nth) || (pl + 1 == ps && range.last_long.nth <= 16)
                    &&& range.short.nth < 16
                };
                if pl3 != pl2 { if pl3 < pl2 { assert(secs@[pl3] != secs@[pl2]); } else { assert(secs@[pl2] != secs@[pl3]); } }
                if ps3 != ps2 { if ps3 < ps2 { assert(secs@[ps3] != secs@[ps2]); } else { assert(secs@[ps2] != secs@[ps3]); } }
            }
        }
        let l = 16 * pl + range.last_long.nth;
        let s = 16 * ps + range.short.nth;
        let n = 16 * secs.len();
        let tail = if s + 1 < n {
            let e = fs.short_in(&secs, s + 1);
            proof { assert(e.spec_to_bytes()[0] == e.name@[0]); }
            e.status()
        } else {
            DirEntryStatus::TailFree
        };
        let head = if range.last_long.nth == 0 {
            if pl > 0 {
                let e = fs.short_in(&secs, l - 1);
                proof { assert(e.spec_to_bytes()[0] == e.name@[0]); }
                e.status()
            } else if tail == DirEntryStatus::TailFree {
                DirEntryStatus::TailFree
            } else {
                DirEntryStatus::Free
            }
        } else {
            let e = fs.short_in(&secs, l - 1);
            proof { assert(e.spec_to_bytes()[0] == e.name@[0]); }
            if e.is_relative() {
                DirEntryStatus::TailFree
            } else {
                e.status()
            }
        };
        proof {
            assert(tail == tail_status(disk, secs@, s as int));
            assert(head == head_status(disk, secs@, l as int, range.last_long.nth as int, tail));
        }
        let first: usize = if self.start_id.0 == 2 { 0 } else { 2 };
        if head == DirEntryStatus::Occupied && tail == DirEntryStatus::TailFree {
            fill_slots(fs, &secs, l, s, 0);
        } else if tail != DirEntryStatus::TailFree {
            fill_slots(fs, &secs, l, s, 0xE5);
        } else {
            match fs.find_kept(&secs, l) {
                Some(j) => fill_slots(fs, &secs, j + 1, s, 0xE5),
                None => fill_slots(fs, &secs, first, s, 0),
            }
        }
    }
}

/// Views that agree on the directory's sectors find the same last item.
proof fn lemma_kept_same(d1: Seq<Seq<u8>>, d2: Seq<Seq<u8>>, secs: Seq<SectorId>, i: int)
    requires
        forall|j: int| 0 <= j < secs.len() ==> #[trigger] d2[secs[j].0 as int] == d1[secs[j].0 as int],
        i <= 16 * secs.len(),
    ensures
        kept_before(d2, secs, i) == kept_before(d1, secs, i),
    decreases i,
{
    if i > 0 {
        assert(d2[secs[(i - 1) / 16].0 as int] == d1[secs[(i - 1) / 16].0 as int]);
        lemma_kept_same(d1, d2, secs, i - 1);
    }
}

impl Inode {
    /// Whether an item can be taken out of this directory depends only on
    /// its chain and its sectors.
    pub proof fn lemma_removable_frame<D: BlockDevice>(&self, f1: FatFileSystem<D>, f2: FatFileSystem<D>, range: DirEntryRange)
        requires
            self.removable(f1, range),
            f2.good_chain(self.start_id),
            f2.data_area == f1.data_area,
            f2.chain(self.start_id) == f1.chain(self.start_id),
            forall|j: int| 0 <= j < self.dir_sectors(f1).len()
                ==> #[trigger] f2.sectors()[self.dir_sectors(f1)[j].0 as int] == f1.sectors()[self.dir_sectors(f1)[j].0 as int],
        ensures
            self.removable(f2, range),
            self.dir_sectors(f2) == self.dir_sectors(f1),
    {
        let secs = self.dir_sectors(f1);
        let d1 = f1.sectors();
        let d2 = f2.sectors();
        assert forall|l: int, s: int| #[trigger] range_at(secs, range, l, s) implies {
            let first = if self.start_id.0 == 2 { 0int } else { 2int };
            remove_plan(d2, secs, l, range.last_long.nth as int, s, first).0 <= s + 1
        } by {
            let (pl, ps) = choose|pl: int, ps: int| {
                &&& #[trigger] index_in(secs, range.last_long.sector, pl)
                &&& #[trigger] index_in(secs, range.short.sector, ps)
                &&& l == 16 * pl + range.last_long.nth
                &&& s == 16 * ps + range.short.nth
                &&& (pl == ps && range.last_long.nth <= range.short.nth) || (pl + 1 == ps && range.last_long.nth <= 16)
                &&& range.short.nth < 16
            };
            assert(d2[secs[s / 16].0 as int] == d1[secs[s / 16].0 as int]);
            if s + 1 < 16 * secs.len() {
                assert(d2[secs[(s + 1) / 16].0 as int] == d1[secs[(s + 1) / 16].0 as int]);
            }
            if l >= 1 {
                assert(d2[secs[(l - 1) / 16].0 as int] == d1[secs[(l - 1) / 16].0 as int]);
            }
            lemma_kept_same(d1, d2, secs, l);
            let first = if self.start_id.0 == 2 { 0int } else { 2int };
            let nth = range.last_long.nth as int;
            assert(tail_status(d2, secs, s) == tail_status(d1, secs, s));
            assert(head_status(d2, secs, l, nth, tail_status(d2, secs, s)) == head_status(d1, secs, l, nth, tail_status(d1, secs, s)));
            assert(remove_plan(d2, secs, l, nth, s, first) == remove_plan(d1, secs, l, nth, s, first));
        }
        assert(self.dir_sectors(f2) == secs);
        let (l0, s0) = choose|l: int, s: int| #[trigger] range_at(secs, range, l, s);
        assert(range_at(self.dir_sectors(f2), range, l0, s0));
    }
}

/// The item at slot `q` of sector `p` is the first named `name`.
pub open spec fn first_named(disk: Seq<Seq<u8>>, secs: Seq<SectorId>, name: Seq<u8>, p: int, q: int) -> bool {
    &&& named(disk, secs, p, q, name)
    &&& forall|p2: int, q2: int| slot_before(p2, q2, p, q) ==> !#[trigger] named(disk, secs, p2, q2, name)
}

impl Inode {
    /// What taking the item `x` out of this directory on `fs` needs: where
    /// it has a chain, the chain exists, shares no cluster with this
    /// directory's, and its release can be counted; the item's slots can
    /// be taken out.
    pub open spec fn can_drop<D: BlockDevice>(&self, fs: FatFileSystem<D>, x: Inode) -> bool {
        &&& x.start_id.0 != 0 ==> {
            &&& fs.fat.spec_validate_id(x.start_id) is Ok
            &&& exists|c: Seq<u32>| is_chain(fs.sectors(), fs.fat, x.start_id, c)
            &&& forall|i: int, j: int| 0 <= i < chain_of(fs.sectors(), fs.fat, x.start_id).len() && 0 <= j < fs.chain(self.start_id).len()
                ==> #[trigger] chain_of(fs.sectors(), fs.fat, x.start_id)[i] != #[trigger] fs.chain(self.start_id)[j]
        }
        &&& self.removable(fs, x.range)
    }

    /// What taking the item `x` out of this directory did, from `before`
    /// to `after`: its chain, where it had one, was freed, then its slots
    /// taken out.
    pub open spec fn dropped<D: BlockDevice>(&self, before: FatFileSystem<D>, after: FatFileSystem<D>, x: Inode) -> bool {
        exists|mid: FatFileSystem<D>| {
            &&& #[trigger] mid.sectors() == if x.start_id.0 != 0 {
                released(before.sectors(), before.fat.start(), chain_of(before.sectors(), before.fat, x.start_id))
            } else {
                before.sectors()
            }
            &&& mid.fat == before.fat
            &&& mid.data_area == before.data_area
            &&& self.removed(mid, after, x.range)
            &&& self.dir_sectors(mid) == self.dir_sectors(before)
        }
    }

    /// Frees the chain of the item `x`, where it has one, and takes its
    /// slots out of this directory.
    #[verifier::rlimit(60)]
    #[verifier::spinoff_prover]
    fn drop_item<D: BlockDevice>(&self, x: &Inode, fs: &mut FatFileSystem<D>)
        requires
            old(fs).wf(),
            old(fs).fat.end() <= old(fs).data_area.start(),
            self.can_drop(*old(fs), *x),
        ensures
            final(fs).wf(),
            final(fs).bpb == old(fs).bpb,
            final(fs).fat == old(fs).fat,
            final(fs).data_area == old(fs).data_area,
            self.dropped(*old(fs), *final(fs), *x),
    {
        let ghost f0 = *fs;
        let ghost dc = fs.chain(self.start_id);
        if x.start_id.0 != 0 {
            let _ = fs.fat.dealloc(&mut fs.cache, x.start_id);
            proof {
                let xc = chain_of(f0.sectors(), f0.fat, x.start_id);
                let d1 = fs.sectors();
                fs.cache.lemma_wf_view();
                f0.cache.lemma_wf_view();
                assert forall|i: int| 0 <= i < xc.len() implies fs.fat.start() + (#[trigger] xc[i]) / 128 < fs.fat.end() by {
                    assert(crate::fat::table::is_chain(f0.sectors(), f0.fat, x.start_id, xc));
                    assert(fs.fat.spec_validate_id(crate::fat::cluster::ClusterId(xc[i])) is Ok);
                }
                crate::fat::table::lemma_released_frame(f0.sectors(), fs.fat, xc);
                assert(is_chain(f0.sectors(), fs.fat, self.start_id, dc));
                assert forall|i: int| 0 <= i < dc.len() implies #[trigger] fat_entry(d1, fs.fat.start(), dc[i] as int)
                    == fat_entry(f0.sectors(), fs.fat.start(), dc[i] as int) by {
                    assert(fs.fat.spec_validate_id(crate::fat::cluster::ClusterId(dc[i])) is Ok);
                    assert forall|k: int| 0 <= k < xc.len() implies #[trigger] xc[k] != dc[i] by {
                        assert(xc[k] != dc[i]);
                    }
                }
                assert(fs.fat.spec_validate_id(crate::fat::cluster::ClusterId(dc[dc.len() - 1])) is Ok);
                assert(is_chain(d1, fs.fat, self.start_id, dc));
                crate::fat::grow::lemma_chain_unique(d1, fs.fat, self.start_id, fs.chain(self.start_id), dc);
                crate::fat::control::lemma_chain_sectors_in_area(fs.data_area, dc);
                let secs = self.dir_sectors(f0);
                assert forall|j: int| 0 <= j < secs.len() implies #[trigger] d1[secs[j].0 as int] == f0.sectors()[secs[j].0 as int] by {
                    assert(fs.data_area.start() <= secs[j].0);
                }
                self.lemma_removable_frame(f0, *fs, x.range);
            }
        }
        let ghost mid = *fs;
        self.remove(x.range, fs);
        proof {
            assert(self.dir_sectors(mid) == self.dir_sectors(f0));
            assert(self.dropped(f0, *fs, *x));
        }
    }

    /// Takes the file named `name` out of this directory, freeing its chain;
    /// answers [`Error::NotFound`] where nothing has the name and
    /// [`Error::IsADirectory`] where a directory has it.
    pub fn unlink<D: BlockDevice>(&mut self, name: &str, fs: &mut FatFileSystem<D>) -> (r: Result<(), Error>)
        requires
            old(fs).wf(),
            old(fs).good_chain(old(self).start_id),
            old(fs).fat.end() <= old(fs).data_area.start(),
            crate::fat::inode::longs_found(old(fs).sectors(), old(self).dir_sectors(*old(fs)), spec_checksum(name.spec_bytes())),
            forall|p: int, q: int| #[trigger] first_named(old(fs).sectors(), old(self).dir_sectors(*old(fs)), name.spec_bytes(), p, q) ==> {
                let x = inode_at(old(fs).sectors(), old(self).dir_sectors(*old(fs)), p, q, spec_checksum(name.spec_bytes()));
                x.ty == DirEntryType::Regular ==> old(self).can_drop(*old(fs), x)
            },
        ensures
            *final(self) == *old(self),
            final(fs).wf(),
            final(fs).bpb == old(fs).bpb,
            final(fs).fat == old(fs).fat,
            final(fs).data_area == old(fs).data_area,
            ({
                let disk = old(fs).sectors();
                let secs = old(self).dir_sectors(*old(fs));
                let nb = name.spec_bytes();
                match r {
                    Err(e) => {
                        &&& final(fs).sectors() == disk
                        &&& e == Error::NotFound <==> forall|p: int, q: int| !#[trigger] named(disk, secs, p, q, nb)
                        &&& e == Error::NotFound || e == Error::IsADirectory
                        &&& e == Error::IsADirectory ==> exists|p: int, q: int| #[trigger] first_named(disk, secs, nb, p, q)
                            && inode_at(disk, secs, p, q, spec_checksum(nb)).ty == DirEntryType::Directory
                    },
                    Ok(_) => exists|p: int, q: int| {
                        &&& #[trigger] first_named(disk, secs, nb, p, q)
                        &&& inode_at(disk, secs, p, q, spec_checksum(nb)).ty == DirEntryType::Regular
                        &&& old(self).dropped(*old(fs), *final(fs), inode_at(disk, secs, p, q, spec_checksum(nb)))
                    },
                }
            }),
    {
        let ghost disk = fs.sectors();
        let ghost secs = self.dir_sectors(*fs);
        let ghost nb = name.spec_bytes();
        let inode = match self.find_cwd(name, fs) {
            None => return Err(Error::NotFound),
            Some(i) => i,
        };
        let ghost (p, q) = choose|p: int, q: int| {
            &&& #[trigger] named(disk, secs, p, q, nb)
            &&& forall|p2: int, q2: int| slot_before(p2, q2, p, q) ==> !#[trigger] named(disk, secs, p2, q2, nb)
            &&& inode == inode_at(disk, secs, p, q, spec_checksum(nb))
        };
        proof { assert(first_named(disk, secs, nb, p, q)); }
        if inode.ty == DirEntryType::Directory {
            return Err(Error::IsADirectory);
        }
        proof {
            fs.cache.lemma_wf_view();
            assert(self.can_drop(*old(fs), inode));
            assert(fs.sectors() == old(fs).sectors());
            assert(self.dir_sectors(*fs) == self.dir_sectors(*old(fs)));
            assert(self.removable(*fs, inode.range));
            assert(self.can_drop(*fs, inode));
        }
        self.drop_item(&inode, fs);
        Ok(())
    }

    /// Takes the empty directory named `name` out of this directory,
    /// freeing its chain; answers [`Error::NotFound`] where nothing has the
    /// name, [`Error::NotADirectory`] where a file has it, and
    /// [`Error::DirectoryNotEmpty`] where the directory holds anything.
    pub fn rmdir<D: BlockDevice>(&mut self, name: &str, fs: &mut FatFileSystem<D>) -> (r: Result<(), Error>)
        requires
            old(fs).wf(),
            old(self).can_rmdir(*old(fs), name.spec_bytes()),
        ensures
            *final(self) == *old(self),
            final(fs).wf(),
            final(fs).bpb == old(fs).bpb,
            final(fs).fat == old(fs).fat,
            final(fs).data_area == old(fs).data_area,
            old(self).rmdir_did(*old(fs), *final(fs), name.spec_bytes(), r),
    {
        let ghost disk = fs.sectors();
        let ghost secs = self.dir_sectors(*fs);
        let ghost nb = name.spec_bytes();
        let inode = match self.find_cwd(name, fs) {
            None => return Err(Error::NotFound),
            Some(i) => i,
        };
        let ghost (p, q) = choose|p: int, q: int| {
            &&& #[trigger] named(disk, secs, p, q, nb)
            &&& forall|p2: int, q2: int| slot_before(p2, q2, p, q) ==> !#[trigger] named(disk, secs, p2, q2, nb)
            &&& inode == inode_at(disk, secs, p, q, spec_checksum(nb))
        };
        proof { assert(first_named(disk, secs, nb, p, q)); }
        if inode.ty != DirEntryType::Directory {
            return Err(Error::NotADirectory);
        }
        if !inode.is_empty_dir(fs) {
            return Err(Error::DirectoryNotEmpty);
        }
        proof {
            fs.cache.lemma_wf_view();
            assert(self.can_drop(*old(fs), inode));
        }
        self.drop_item(&inode, fs);
        Ok(())
    }

    /// What [`Inode::rmdir`] needs of this directory on `fs0` to take the
    /// directory named `name` out of it.
    pub open spec fn can_rmdir<D: BlockDevice>(&self, fs0: FatFileSystem<D>, name: Seq<u8>) -> bool {
        &&& fs0.good_chain(self.start_id)
        &&& fs0.fat.end() <= fs0.data_area.start()
        &&& crate::fat::inode::longs_found(fs0.sectors(), self.dir_sectors(fs0), spec_checksum(name))
        &&& forall|p: int, q: int| #[trigger] first_named(fs0.sectors(), self.dir_sectors(fs0), name, p, q) ==> {
            let x = inode_at(fs0.sectors(), self.dir_sectors(fs0), p, q, spec_checksum(name));
            x.ty == DirEntryType::Directory ==> {
                &&& fs0.good_chain(x.start_id)
                &&& x.start_id.0 != 0
                &&& self.can_drop(fs0, x)
            }
        }
    }

    /// What [`Inode::rmdir`] did, from `fs0` to `fs1`, answering `r`.
    pub open spec fn rmdir_did<D: BlockDevice>(&self, fs0: FatFileSystem<D>, fs1: FatFileSystem<D>, name: Seq<u8>, r: Result<(), Error>) -> bool {
        let disk = fs0.sectors();
        let secs = self.dir_sectors(fs0);
        let nb = name;
        match r {
            Err(e) => {
                &&& fs1.sectors() == disk
                &&& e == Error::NotFound <==> forall|p: int, q: int| !#[trigger] named(disk, secs, p, q, nb)
                &&& e == Error::NotFound || e == Error::NotADirectory || e == Error::DirectoryNotEmpty
                &&& e != Error::NotFound ==> exists|p: int, q: int| {
                    let x = inode_at(disk, secs, p, q, spec_checksum(nb));
                    &&& #[trigger] first_named(disk, secs, nb, p, q)
                    &&& e == Error::NotADirectory <==> x.ty == DirEntryType::Regular
                    &&& e == Error::DirectoryNotEmpty ==> !x.is_empty_on(fs0)
                }
            },
            Ok(_) => exists|p: int, q: int| {
                let x = inode_at(disk, secs, p, q, spec_checksum(nb));
                &&& #[trigger] first_named(disk, secs, nb, p, q)
                &&& x.ty == DirEntryType::Directory
                &&& x.is_empty_on(fs0)
                &&& self.dropped(fs0, fs1, x)
            },
        }
    }

    /// This directory holds nothing on `fs`: the slot after `.` and `..`
    /// (the root has none) in its first sector marks the free tail.
    pub open spec fn is_empty_on<D: BlockDevice>(&self, fs: FatFileSystem<D>) -> bool {
        crate::fat::dir_entry::status_of(slot(
            fs.sectors()[self.dir_sectors(fs)[0].0 as int],
            if self.start_id.0 == 2 { 0 } else { 2 },
        )[0]) == DirEntryStatus::TailFree
    }
}

} // verus!
