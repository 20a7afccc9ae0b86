//! The slots of a directory item: its long entries, then its short entry,
//! over one sector or two.

use vstd::prelude::*;

use crate::block_cache::splice;
use crate::block_dev::{blocks_wf, BlockDevice};
use crate::fat::dir_entry::LongDirEntry;
use crate::fat::inode::{slot, DirEntryPos, DirEntryRange, SECTOR_SLOTS};
use crate::fat::sector::{CacheManager, SectorId};
use crate::BLOCK_SIZE;

verus! {

/// The range lies on a device of `len` sectors: its slots are slots of
/// sectors there, and in one sector its last long entry comes first.
pub open spec fn range_ok(r: DirEntryRange, len: nat) -> bool {
    &&& range_shape(r)
    &&& r.last_long.sector.0 < len
    &&& r.short.sector.0 < len
}

/// The range's slots are slots of a sector, and in one sector its last
/// long entry comes first; in two, the last long entry may lie just past
/// the end of the first, which then holds none of the range.
pub open spec fn range_shape(r: DirEntryRange) -> bool {
    &&& r.last_long.nth <= SECTOR_SLOTS
    &&& r.short.nth < SECTOR_SLOTS
    &&& r.last_long.sector == r.short.sector ==> r.last_long.nth <= r.short.nth
}

/// The positions of a range are distinct slots of its two sectors.
pub proof fn lemma_range_slots(r: DirEntryRange)
    requires
        range_shape(r),
    ensures
        forall|i: int| 0 <= i < range_slots(r).len() ==> {
            &&& (#[trigger] range_slots(r)[i]).nth < SECTOR_SLOTS
            &&& range_slots(r)[i].sector == r.last_long.sector || range_slots(r)[i].sector == r.short.sector
        },
        forall|i: int, j: int| 0 <= i < j < range_slots(r).len() ==> #[trigger] range_slots(r)[i] != #[trigger] range_slots(r)[j],
        range_slots(r).len() >= 1,
        range_slots(r)[range_slots(r).len() - 1] == r.short,
{
    let ps = range_slots(r);
    if r.last_long.sector == r.short.sector {
        assert forall|i: int, j: int| 0 <= i < j < ps.len() implies #[trigger] ps[i] != #[trigger] ps[j] by {
            assert(ps[i].nth != ps[j].nth);
        }
        assert(ps[ps.len() - 1] == r.short);
    } else {
        let a = 16 - r.last_long.nth;
        assert forall|i: int| 0 <= i < ps.len() implies {
            &&& (#[trigger] ps[i]).nth < SECTOR_SLOTS
            &&& ps[i].sector == r.last_long.sector || ps[i].sector == r.short.sector
        } by {}
        assert forall|i: int, j: int| 0 <= i < j < ps.len() implies #[trigger] ps[i] != #[trigger] ps[j] by {
            if j < a {
                assert(ps[i].nth != ps[j].nth);
            } else if i < a {
                assert(ps[i].sector != ps[j].sector);
            } else {
                assert(ps[i].nth != ps[j].nth);
            }
        }
        assert(ps[ps.len() - 1] == r.short);
    }
}

/// The positions of the range's slots in order: from the last long entry
/// to the end of its sector and on from the start of the short entry's
/// sector where the two differ, up to the short entry.
pub open spec fn range_slots(r: DirEntryRange) -> Seq<DirEntryPos> {
    if r.last_long.sector == r.short.sector {
        Seq::new(
            (r.short.nth - r.last_long.nth + 1) as nat,
            |i: int| DirEntryPos { sector: r.short.sector, nth: (r.last_long.nth + i) as usize },
        )
    } else {
        Seq::new((16 - r.last_long.nth) as nat, |i: int| DirEntryPos { sector: r.last_long.sector, nth: (r.last_long.nth + i) as usize })
            + Seq::new((r.short.nth + 1) as nat, |i: int| DirEntryPos { sector: r.short.sector, nth: i as usize })
    }
}

/// Slot `pos` of `disk`.
pub open spec fn slot_at(disk: Seq<Seq<u8>>, pos: DirEntryPos) -> Seq<u8> {
    slot(disk[pos.sector.0 as int], pos.nth as int)
}

/// From `disk` to `disk2`, slot `pos` changed at most where `ps` holds it
/// among its first `n` positions.
pub open spec fn kept_but(disk: Seq<Seq<u8>>, disk2: Seq<Seq<u8>>, ps: Seq<DirEntryPos>, n: int) -> bool {
    &&& disk2.len() == disk.len()
    &&& forall|s: int| 0 <= s < disk.len() && (forall|i: int| 0 <= i < n ==> (#[trigger] ps[i]).sector.0 != s)
        ==> #[trigger] disk2[s] == disk[s]
    &&& forall|pos: DirEntryPos| pos.nth < SECTOR_SLOTS && pos.sector.0 < disk.len()
        && (forall|i: int| 0 <= i < n ==> #[trigger] ps[i] != pos) ==> #[trigger] slot_at(disk2, pos) == slot_at(disk, pos)
}

/// Writing 32 bytes over one slot of a sector changes only that slot.
pub proof fn lemma_slot_splice(sb: Seq<u8>, nth: int, bytes: Seq<u8>, q: int)
    requires
        sb.len() == BLOCK_SIZE,
        bytes.len() == 32,
        0 <= nth < 16,
        0 <= q < 16,
    ensures
        splice(sb, 32 * nth, bytes).len() == BLOCK_SIZE,
        slot(splice(sb, 32 * nth, bytes), q) == if q == nth { bytes } else { slot(sb, q) },
{
    let s2 = splice(sb, 32 * nth, bytes);
    if q == nth {
        assert(slot(s2, q) =~= bytes);
    } else {
        assert(slot(s2, q) =~= slot(sb, q));
    }
}

impl DirEntryPos {
    /// Slot `nth` of sector `sector`.
    pub fn new(sector: SectorId, nth: usize) -> (r: Self)
        ensures
            r.sector == sector,
            r.nth == nth,
    {
        DirEntryPos { sector, nth }
    }
}

impl DirEntryRange {
    /// The range from the last long entry at `end` to the short entry at `start`.
    pub fn new(end: DirEntryPos, start: DirEntryPos) -> (r: Self)
        ensures
            r.last_long == end,
            r.short == start,
    {
        DirEntryRange { last_long: end, short: start }
    }

    /// Whether the range spans two sectors.
    pub fn is_discrete(&self) -> (r: bool)
        ensures
            r == (self.last_long.sector != self.short.sector),
    {
        self.last_long.sector.0 != self.short.sector.0
    }

    /// Position `i` of the range's slots.
    fn pos(&self, i: usize) -> (r: DirEntryPos)
        requires
            range_shape(*self),
            i < range_slots(*self).len(),
        ensures
            r == range_slots(*self)[i as int],
    {
        if self.is_discrete() && i < 16 - self.last_long.nth {
            DirEntryPos { sector: self.last_long.sector, nth: self.last_long.nth + i }
        } else if self.is_discrete() {
            DirEntryPos { sector: self.short.sector, nth: i - (16 - self.last_long.nth) }
        } else {
            DirEntryPos { sector: self.short.sector, nth: self.last_long.nth + i }
        }
    }

    /// Writes `recs[i]` into slot `i` of the range, for each `i`.
    fn write_slots<D: BlockDevice>(&self, recs: &Vec<Vec<u8>>, cache: &mut CacheManager<D>)
        requires
            old(cache).wf(),
            range_ok(*self, old(cache)@.len()),
            recs@.len() <= range_slots(*self).len(),
            forall|i: int| 0 <= i < recs@.len() ==> (#[trigger] recs@[i])@.len() == 32,
        ensures
            final(cache).wf(),
            final(cache).device_blocks().len() == old(cache).device_blocks().len(),
            kept_but(old(cache)@, final(cache)@, range_slots(*self), recs@.len() as int),
            forall|i: int| 0 <= i < recs@.len() ==> #[trigger] slot_at(final(cache)@, range_slots(*self)[i]) == recs@[i]@,
    {
        let ghost d0 = cache@;
        let ghost ps = range_slots(*self);
        proof {
            cache.lemma_wf_view();
            lemma_range_slots(*self);
        }
        let mut i: usize = 0;
        while i < recs.len()
            invariant
                cache.wf(),
                cache.device_blocks().len() == old(cache).device_blocks().len(),
                blocks_wf(cache@),
                d0 == old(cache)@,
                ps == range_slots(*self),
                range_ok(*self, d0.len()),
                forall|j: int| 0 <= j < ps.len() ==> {
                    &&& (#[trigger] ps[j]).nth < SECTOR_SLOTS
                    &&& ps[j].sector == self.last_long.sector || ps[j].sector == self.short.sector
                },
                forall|a: int, b: int| 0 <= a < b < ps.len() ==> #[trigger] ps[a] != #[trigger] ps[b],
                recs@.len() <= ps.len(),
                forall|j: int| 0 <= j < recs@.len() ==> (#[trigger] recs@[j])@.len() == 32,
                i <= recs@.len(),
                kept_but(d0, cache@, ps, i as int),
                forall|j: int| 0 <= j < i ==> #[trigger] slot_at(cache@, ps[j]) == recs@[j]@,
            decreases recs@.len() - i,
        {
            let pos = self.pos(i);
            let ghost before = cache@;
            proof { cache.lemma_wf_view(); }
            cache.write(pos.sector.0, 32 * pos.nth, recs[i].as_slice());
            proof {
                cache.lemma_wf_view();
                let s = pos.sector.0 as int;
                assert forall|q: int| 0 <= q < 16 implies #[trigger] slot(cache@[s], q) == if q == pos.nth { recs@[i as int]@ } else { slot(before[s], q) } by {
                    lemma_slot_splice(before[s], pos.nth as int, recs@[i as int]@, q);
                }
                assert forall|j: int| 0 <= j < i + 1 implies #[trigger] slot_at(cache@, ps[j]) == recs@[j]@ by {
                    if j < i {
                        assert(ps[j] != ps[i as int]);
                        assert(slot_at(before, ps[j]) == recs@[j]@);
                        if ps[j].sector.0 == s {
                            assert(ps[j].nth != pos.nth);
                            assert(slot(cache@[s], ps[j].nth as int) == slot(before[s], ps[j].nth as int));
                        } else {
                            assert(cache@[ps[j].sector.0 as int] == before[ps[j].sector.0 as int]);
                        }
                    }
                }
                assert forall|s2: int| 0 <= s2 < d0.len() && (forall|j: int| 0 <= j < i + 1 ==> (#[trigger] ps[j]).sector.0 != s2)
                    implies #[trigger] cache@[s2] == d0[s2] by {
                    assert(ps[i as int].sector.0 != s2);
                }
                assert forall|p2: DirEntryPos| p2.nth < SECTOR_SLOTS && p2.sector.0 < d0.len()
                    && (forall|j: int| 0 <= j < i + 1 ==> #[trigger] ps[j] != p2) implies #[trigger] slot_at(cache@, p2) == slot_at(d0, p2) by {
                    assert(ps[i as int] != p2);
                    assert(slot_at(before, p2) == slot_at(d0, p2));
                    if p2.sector.0 == s {
                        assert(slot(cache@[s], p2.nth as int) == slot(before[s], p2.nth as int));
                    } else {
                        assert(cache@[p2.sector.0 as int] == before[p2.sector.0 as int]);
                    }
                }
            }
            i = i + 1;
        }
    }

    /// Writes the long entries `longs` into the range, the first into its
    /// last-long slot.
    pub fn write_longs<D: BlockDevice>(&self, longs: &Vec<LongDirEntry>, cache: &mut CacheManager<D>)
        requires
            old(cache).wf(),
            range_ok(*self, old(cache)@.len()),
            longs@.len() + 1 == range_slots(*self).len(),
        ensures
            final(cache).wf(),
            final(cache).device_blocks().len() == old(cache).device_blocks().len(),
            kept_but(old(cache)@, final(cache)@, range_slots(*self), longs@.len() as int),
            forall|i: int| 0 <= i < longs@.len() ==> #[trigger] slot_at(final(cache)@, range_slots(*self)[i]) == longs@[i].spec_to_bytes(),
    {
        let mut recs: Vec<Vec<u8>> = Vec::new();
        let mut i: usize = 0;
        while i < longs.len()
            invariant
                i <= longs@.len(),
                recs@.len() == i,
                forall|j: int| 0 <= j < i ==> (#[trigger] recs@[j])@ == longs@[j].spec_to_bytes() && recs@[j]@.len() == 32,
            decreases longs@.len() - i,
        {
            recs.push(longs[i].to_bytes());
            i = i + 1;
        }
        self.write_slots(&recs, cache);
    }

    /// Marks every slot of the range free with the 32 bytes `free_as`.
    pub fn clear<D: BlockDevice>(&self, free_as: &[u8; 32], cache: &mut CacheManager<D>)
        requires
            old(cache).wf(),
            range_ok(*self, old(cache)@.len()),
        ensures
            final(cache).wf(),
            final(cache).device_blocks().len() == old(cache).device_blocks().len(),
            kept_but(old(cache)@, final(cache)@, range_slots(*self), range_slots(*self).len() as int),
            forall|i: int| 0 <= i < range_slots(*self).len() ==> #[trigger] slot_at(final(cache)@, range_slots(*self)[i]) == free_as@,
    {
        let n = if self.is_discrete() { 16 - self.last_long.nth + self.short.nth + 1 } else { self.short.nth - self.last_long.nth + 1 };
        let mut recs: Vec<Vec<u8>> = Vec::new();
        let mut i: usize = 0;
        while i < n
            invariant
                i <= n,
                recs@.len() == i,
                forall|j: int| 0 <= j < i ==> (#[trigger] recs@[j])@ == free_as@,
            decreases n - i,
        {
            let mut v: Vec<u8> = Vec::new();
            let mut k: usize = 0;
            while k < 32
                invariant
                    k <= 32,
                    v@.len() == k,
                    forall|t: int| 0 <= t < k ==> v@[t] == free_as@[t],
                decreases 32 - k,
            {
                v.push(free_as[k]);
                k = k + 1;
            }
            assert(v@ =~= free_as@);
            recs.push(v);
            i = i + 1;
        }
        self.write_slots(&recs, cache);
    }
}

} // verus!
