//! Files and directories of a FAT volume. A directory is a chain of
//! clusters holding 32-byte slots; an item is its short entry, preceded by
//! the long entries of its name, and the chain its short entry points to.

use vstd::prelude::*;

use crate::block_dev::BlockDevice;
use crate::easy_fs::dir_entry::name_prefix;
use crate::fat::bpb::le16;
use crate::fat::cluster::{join_halves, ClusterId};
use crate::fat::control::{chain_sectors, FatFileSystem};
use crate::fat::dir_entry::{
    long_name_bytes, longs_bytes, spec_checksum, status_of, DirEntryStatus, LongDirEntry, ShortDirEntry,
};
use crate::fat::sector::{CacheManager, SectorId};
use crate::BLOCK_SIZE;
use vstd::string::StringSliceAdditionalSpecFns;

verus! {

/// What a directory entry names.
#[derive(Debug, Clone, Copy, PartialEq, Eq, Structural)]
pub enum DirEntryType {
    Regular,
    Directory,
}

/// Why a directory operation was refused.
#[derive(Debug, Clone, Copy, PartialEq, Eq, Structural)]
pub enum Error {
    NotFound,
    AlreadyExists,
    IsADirectory,
    NotADirectory,
    DirectoryNotEmpty,
}

/// What [`Inode::stat`] tells of a file or directory.
#[derive(Debug, Clone, Copy, PartialEq, Eq, Structural)]
pub struct Stat {
    pub mode: DirEntryType,
    pub block_size: u64,
    pub blocks: u64,
    pub size: u64,
}

/// One item of a directory listing.
#[derive(Debug, Clone)]
pub struct DirEntry {
    pub inode: u64,
    pub ty: DirEntryType,
    pub name: String,
}

/// Where a directory slot lies: a sector and the slot's index in it.
#[derive(Debug, Clone, Copy, PartialEq, Eq, Structural)]
pub struct DirEntryPos {
    pub sector: SectorId,
    pub nth: usize,
}

/// The slots of an item: from its last long entry to its short entry.
#[derive(Debug, Clone, Copy, PartialEq, Eq, Structural)]
pub struct DirEntryRange {
    pub last_long: DirEntryPos,
    pub short: DirEntryPos,
}

/// A file or directory: the first cluster of its chain, where its entries
/// lie, and what it is.
#[derive(Debug, Clone, Copy)]
pub struct Inode {
    pub start_id: ClusterId,
    pub range: DirEntryRange,
    pub ty: DirEntryType,
}

/// Slots a sector holds.
pub const SECTOR_SLOTS: usize = 16;

/// Slot `q` of the sector bytes `sb`.
pub open spec fn slot(sb: Seq<u8>, q: int) -> Seq<u8> {
    sb.subrange(32 * q, 32 * q + 32)
}

/// The slot holds a long entry.
pub open spec fn is_long_slot(r: Seq<u8>) -> bool {
    r[11] == 0x0F
}

/// The slot holds a long entry with checksum `c`.
pub open spec fn long_of(r: Seq<u8>, c: u8) -> bool {
    r[11] == 0x0F && r[13] == c
}

/// The slot holds the last part of a name.
pub open spec fn last_part(r: Seq<u8>) -> bool {
    r[0] & 0x40 == 0x40
}

/// The 26 name bytes of a long slot.
pub open spec fn slot_name(r: Seq<u8>) -> Seq<u8> {
    r.subrange(1, 11) + r.subrange(14, 26) + r.subrange(28, 32)
}

/// The name bytes of the long slots `recs`, in order.
pub open spec fn slots_bytes(recs: Seq<Seq<u8>>) -> Seq<u8>
    decreases recs.len(),
{
    if recs.len() == 0 {
        Seq::empty()
    } else {
        slots_bytes(recs.drop_last()) + slot_name(recs.last())
    }
}

/// Walking back from slot `q` of sector `sb` over long entries with
/// checksum `c`: the slots met, nearest first, and the slot of the name's
/// last part when it was met.
pub open spec fn back_run(sb: Seq<u8>, q: int, c: u8) -> (Seq<Seq<u8>>, Option<int>)
    decreases q,
{
    if q <= 0 || !long_of(slot(sb, q - 1), c) {
        (Seq::empty(), None)
    } else if last_part(slot(sb, q - 1)) {
        (seq![slot(sb, q - 1)], Some(q - 1))
    } else {
        (seq![slot(sb, q - 1)] + back_run(sb, q - 1, c).0, back_run(sb, q - 1, c).1)
    }
}

/// The last of the first `n` slots of `sb` that holds the last part of a
/// name with checksum `c`.
pub open spec fn rlast(sb: Seq<u8>, c: u8, n: int) -> Option<int>
    decreases n,
{
    if n <= 0 {
        None
    } else if long_of(slot(sb, n - 1), c) && last_part(slot(sb, n - 1)) {
        Some(n - 1)
    } else {
        rlast(sb, c, n - 1)
    }
}

/// The slots of `sb` from the last down to slot `e`.
pub open spec fn tail_slots(sb: Seq<u8>, e: int) -> Seq<Seq<u8>> {
    Seq::new((16 - e) as nat, |i: int| slot(sb, 15 - i))
}

/// The long slots of the item whose short entry is slot `q` of sector
/// `secs[p]`, with checksum `c`, nearest first, and where its last long
/// entry lies. When the walk back within the sector does not reach the last
/// part, the name continues at the end of the previous sector, from its
/// last slot holding a last part. `None` when there is no such sector or slot.
pub open spec fn slot_longs(disk: Seq<Seq<u8>>, secs: Seq<SectorId>, p: int, q: int, c: u8) -> Option<(Seq<Seq<u8>>, DirEntryPos)> {
    let run = back_run(disk[secs[p].0 as int], q, c);
    match run.1 {
        Some(e) => Some((run.0, DirEntryPos { sector: secs[p], nth: e as usize })),
        None => if p == 0 {
            None
        } else {
            match rlast(disk[secs[p - 1].0 as int], c, 16) {
                None => None,
                Some(e) => Some((
                    run.0 + tail_slots(disk[secs[p - 1].0 as int], e),
                    DirEntryPos { sector: secs[p - 1], nth: e as usize },
                )),
            }
        },
    }
}

/// The slots of a found run of long entries.
pub open spec fn run_slots(o: Option<(Seq<Seq<u8>>, DirEntryPos)>) -> Seq<Seq<u8>> {
    match o {
        Some((r, _)) => r,
        None => Seq::empty(),
    }
}

/// Where the last long entry of a found run lies.
pub open spec fn run_end(o: Option<(Seq<Seq<u8>>, DirEntryPos)>) -> DirEntryPos {
    match o {
        Some((_, e)) => e,
        None => DirEntryPos { sector: SectorId(0), nth: 0 },
    }
}

/// Slot `q` of sector `secs[p]` is reached by a scan of the directory: no
/// slot before it in its sector marks the free tail.
pub open spec fn visited(disk: Seq<Seq<u8>>, secs: Seq<SectorId>, p: int, q: int) -> bool {
    &&& 0 <= p < secs.len()
    &&& 0 <= q < 16
    &&& forall|k: int| 0 <= k <= q ==> status_of(#[trigger] slot(disk[secs[p].0 as int], k)[0]) != DirEntryStatus::TailFree
}

/// Slot `q` of sector `secs[p]` is reached and holds an item's short entry.
pub open spec fn item_slot(disk: Seq<Seq<u8>>, secs: Seq<SectorId>, p: int, q: int) -> bool {
    let r = slot(disk[secs[p].0 as int], q);
    &&& visited(disk, secs, p, q)
    &&& status_of(r[0]) == DirEntryStatus::Occupied
    &&& !is_long_slot(r)
}

/// The short entry of slot `q` of sector `secs[p]` might be named by a
/// name with checksum `c`.
pub open spec fn candidate(disk: Seq<Seq<u8>>, secs: Seq<SectorId>, p: int, q: int, c: u8) -> bool {
    &&& item_slot(disk, secs, p, q)
    &&& spec_checksum(slot(disk[secs[p].0 as int], q).subrange(0, 11)) == c
}

/// The item at slot `q` of sector `secs[p]` is named `name`.
pub open spec fn named(disk: Seq<Seq<u8>>, secs: Seq<SectorId>, p: int, q: int, name: Seq<u8>) -> bool {
    &&& candidate(disk, secs, p, q, spec_checksum(name))
    &&& slot_longs(disk, secs, p, q, spec_checksum(name)) is Some
    &&& name_prefix(slots_bytes(run_slots(slot_longs(disk, secs, p, q, spec_checksum(name))))) == name
}

/// Every candidate for checksum `c` has its long entries.
pub open spec fn longs_found(disk: Seq<Seq<u8>>, secs: Seq<SectorId>, c: u8) -> bool {
    forall|p: int, q: int| #[trigger] candidate(disk, secs, p, q, c) ==> slot_longs(disk, secs, p, q, c) is Some
}

/// The first cluster a short slot names; a directory's cluster 0 reads as the root's.
pub open spec fn slot_cluster(r: Seq<u8>) -> ClusterId {
    let raw = join_halves((r[26] + 256 * r[27]) as u16, (r[20] + 256 * r[21]) as u16);
    if r[11] & 0x10 != 0 && raw < 2 {
        ClusterId(2)
    } else {
        ClusterId(raw)
    }
}

/// What a short slot names.
pub open spec fn slot_type(r: Seq<u8>) -> DirEntryType {
    if r[11] & 0x10 != 0 {
        DirEntryType::Directory
    } else {
        DirEntryType::Regular
    }
}

/// The inode of the item at slot `q` of sector `secs[p]`, its long entries
/// found with checksum `c`.
pub open spec fn inode_at(disk: Seq<Seq<u8>>, secs: Seq<SectorId>, p: int, q: int, c: u8) -> Inode {
    let r = slot(disk[secs[p].0 as int], q);
    Inode {
        start_id: slot_cluster(r),
        range: DirEntryRange {
            last_long: run_end(slot_longs(disk, secs, p, q, c)),
            short: DirEntryPos { sector: secs[p], nth: q as usize },
        },
        ty: slot_type(r),
    }
}

/// `(p, q)` comes before `(p2, q2)` in a scan.
pub open spec fn slot_before(p: int, q: int, p2: int, q2: int) -> bool {
    p < p2 || (p == p2 && q < q2)
}

/// Slot `q` of sector `secs[p]` is an item a listing shows: reached,
/// a short entry, and neither `.` nor `..`.
pub open spec fn listed(disk: Seq<Seq<u8>>, secs: Seq<SectorId>, p: int, q: int) -> bool {
    &&& item_slot(disk, secs, p, q)
    &&& slot(disk[secs[p].0 as int], q).subrange(0, 11) != crate::fat::dir_entry::cwd_name()
    &&& slot(disk[secs[p].0 as int], q).subrange(0, 11) != crate::fat::dir_entry::parent_name()
}

/// How many of the first `i` slots, in scan order, a listing shows.
pub open spec fn count_listed(disk: Seq<Seq<u8>>, secs: Seq<SectorId>, i: int) -> nat
    decreases i,
{
    if i <= 0 {
        0
    } else {
        count_listed(disk, secs, i - 1) + if listed(disk, secs, (i - 1) / 16, (i - 1) % 16) { 1nat } else { 0nat }
    }
}

/// The name bytes of the item at slot `q` of sector `secs[p]`, its long
/// entries found with its own checksum.
pub open spec fn own_name(disk: Seq<Seq<u8>>, secs: Seq<SectorId>, p: int, q: int) -> Seq<u8> {
    let c = spec_checksum(slot(disk[secs[p].0 as int], q).subrange(0, 11));
    name_prefix(slots_bytes(run_slots(slot_longs(disk, secs, p, q, c))))
}

/// The item at slot `q` of sector `secs[p]` has its long entries, and
/// they spell a valid UTF-8 name.
pub open spec fn own_name_ok(disk: Seq<Seq<u8>>, secs: Seq<SectorId>, p: int, q: int) -> bool {
    let c = spec_checksum(slot(disk[secs[p].0 as int], q).subrange(0, 11));
    &&& slot_longs(disk, secs, p, q, c) is Some
    &&& vstd::utf8::valid_utf8(own_name(disk, secs, p, q))
}

/// `e` lists the item at slot `q` of sector `secs[p]`.
pub open spec fn lists(e: DirEntry, disk: Seq<Seq<u8>>, secs: Seq<SectorId>, p: int, q: int) -> bool {
    let r = slot(disk[secs[p].0 as int], q);
    &&& e.inode == slot_cluster(r).0
    &&& e.ty == slot_type(r)
    &&& vstd::utf8::encode_utf8(e.name@) == own_name(disk, secs, p, q)
}

/// The long entries `longs` are stored as the slots `recs`.
pub open spec fn longs_are(longs: Seq<LongDirEntry>, recs: Seq<Seq<u8>>) -> bool {
    &&& longs.len() == recs.len()
    &&& forall|i: int| 0 <= i < longs.len() ==> (#[trigger] longs[i]).spec_to_bytes() == recs[i]
}

/// Long entries stored as slots spell what the slots spell.
pub(crate) proof fn lemma_longs_bytes(longs: Seq<LongDirEntry>, recs: Seq<Seq<u8>>)
    requires
        longs_are(longs, recs),
    ensures
        longs_bytes(longs) == slots_bytes(recs),
    decreases longs.len(),
{
    if longs.len() > 0 {
        lemma_longs_bytes(longs.drop_last(), recs.drop_last());
        let l = longs.last();
        let b = l.spec_to_bytes();
        assert(b == recs.last());
        assert(b.subrange(1, 11) =~= l.name1@);
        assert(b.subrange(14, 26) =~= l.name2@);
        assert(b.subrange(28, 32) =~= l.name3@);
    }
}


/// The short entry in slot `q` of the sector bytes `sb`.
fn short_at(sb: &Vec<u8>, q: usize) -> (r: ShortDirEntry)
    requires
        sb@.len() == BLOCK_SIZE,
        q < SECTOR_SLOTS,
    ensures
        r.spec_to_bytes() == slot(sb@, q as int),
        r.name@ == slot(sb@, q as int).subrange(0, 11),
        r.attr == slot(sb@, q as int)[11],
        r.spec_cluster_id() == slot_cluster(slot(sb@, q as int)),
{
    let r = ShortDirEntry::from_bytes(&sb.as_slice()[32 * q..32 * q + 32]);
    proof {
        let b = r.spec_to_bytes();
        assert(b.subrange(0, 11) =~= r.name@);
        assert(b[11] == r.attr);
        assert(b.subrange(20, 22) == le16(r.fst_clus_hi));
        assert(b.subrange(26, 28) == le16(r.fst_clus_lo));
        assert(b[20] == le16(r.fst_clus_hi)[0]);
        assert(b[21] == le16(r.fst_clus_hi)[1]);
        assert(b[26] == le16(r.fst_clus_lo)[0]);
        assert(b[27] == le16(r.fst_clus_lo)[1]);
        assert(r.has(crate::fat::dir_entry::AttrFlag::Directory) == (r.attr & 0x10 != 0));
    }
    r
}

/// The long entry in slot `q` of the sector bytes `sb`.
fn long_at(sb: &Vec<u8>, q: usize) -> (r: LongDirEntry)
    requires
        sb@.len() == BLOCK_SIZE,
        q < SECTOR_SLOTS,
    ensures
        r.spec_to_bytes() == slot(sb@, q as int),
        r.attr == slot(sb@, q as int)[11],
        r.chksum == slot(sb@, q as int)[13],
        r.ord == slot(sb@, q as int)[0],
{
    let r = LongDirEntry::from_bytes(&sb.as_slice()[32 * q..32 * q + 32]);
    proof {
        let b = r.spec_to_bytes();
        assert(b[0] == r.ord);
        assert(b[11] == r.attr);
        assert(b[13] == r.chksum);
    }
    r
}

/// [`back_run`], computed.
fn back_run_exec(sb: &Vec<u8>, q: usize, c: u8) -> (r: (Vec<LongDirEntry>, Option<usize>))
    requires
        sb@.len() == BLOCK_SIZE,
        q <= SECTOR_SLOTS,
    ensures
        longs_are(r.0@, back_run(sb@, q as int, c).0),
        match r.1 {
            Some(e) => back_run(sb@, q as int, c).1 == Some(e as int) && e < q,
            None => back_run(sb@, q as int, c).1 is None,
        },
    decreases q,
{
    if q == 0 {
        return (Vec::new(), None);
    }
    let long = long_at(sb, q - 1);
    if !(long.attr == 0x0F && long.chksum == c) {
        return (Vec::new(), None);
    }
    if long.ord & LongDirEntry::LAST_MASK == LongDirEntry::LAST_MASK {
        let mut v: Vec<LongDirEntry> = Vec::new();
        v.push(long);
        return (v, Some(q - 1));
    }
    let (mut rest, e) = back_run_exec(sb, q - 1, c);
    let ghost before = rest@;
    rest.insert(0, long);
    proof {
        let spec = back_run(sb@, q as int, c);
        assert(spec.0 =~= seq![slot(sb@, q - 1)] + back_run(sb@, q - 1, c).0);
        assert forall|i: int| 0 <= i < rest@.len() implies (#[trigger] rest@[i]).spec_to_bytes() == spec.0[i] by {
            if i > 0 {
                assert(rest@[i] == before[i - 1]);
            }
        }
    }
    (rest, e)
}

/// [`rlast`] over all slots of a sector, computed.
fn rlast_exec(sb: &Vec<u8>, c: u8) -> (r: Option<usize>)
    requires
        sb@.len() == BLOCK_SIZE,
    ensures
        match r {
            Some(e) => rlast(sb@, c, 16) == Some(e as int) && e < SECTOR_SLOTS,
            None => rlast(sb@, c, 16) is None,
        },
{
    let mut n: usize = SECTOR_SLOTS;
    while n > 0
        invariant
            sb@.len() == BLOCK_SIZE,
            n <= SECTOR_SLOTS,
            rlast(sb@, c, 16) == rlast(sb@, c, n as int),
        decreases n,
    {
        let long = long_at(sb, n - 1);
        if long.attr == 0x0F && long.chksum == c && long.ord & LongDirEntry::LAST_MASK == LongDirEntry::LAST_MASK {
            return Some(n - 1);
        }
        n = n - 1;
    }
    None
}

impl DirEntryPos {
    /// The short entry stored here.
    pub fn access<D: BlockDevice>(&self, cache: &mut CacheManager<D>) -> (r: ShortDirEntry)
        requires
            old(cache).wf(),
            self.sector.0 < old(cache)@.len(),
            self.nth < SECTOR_SLOTS,
        ensures
            final(cache).wf(),
            final(cache)@ == old(cache)@,
            final(cache).device_blocks().len() == old(cache).device_blocks().len(),
            r.spec_to_bytes() == slot(old(cache)@[self.sector.0 as int], self.nth as int),
    {
        proof { cache.lemma_wf_view(); }
        let bytes = cache.read(self.sector.0, 32 * self.nth, 32);
        ShortDirEntry::from_bytes(bytes.as_slice())
    }

    /// Stores `dirent` here.
    pub fn access_mut<D: BlockDevice>(&self, cache: &mut CacheManager<D>, dirent: &ShortDirEntry)
        requires
            old(cache).wf(),
            self.sector.0 < old(cache)@.len(),
            self.nth < SECTOR_SLOTS,
        ensures
            final(cache).wf(),
            final(cache)@ == old(cache)@.update(
                self.sector.0 as int,
                crate::block_cache::splice(old(cache)@[self.sector.0 as int], 32 * self.nth, dirent.spec_to_bytes()),
            ),
            final(cache).device_blocks().len() == old(cache).device_blocks().len(),
    {
        let bytes = dirent.to_bytes();
        cache.write(self.sector.0, 32 * self.nth, bytes.as_slice());
    }
}

impl<D: BlockDevice> FatFileSystem<D> {
    /// The long entries of the item in slot `q` of sector `secs[p]`, and
    /// where the last of them lies; `None` where [`slot_longs`] has none.
    fn collect_longs(&mut self, secs: &Vec<SectorId>, p: usize, q: usize, c: u8) -> (r: Option<(Vec<LongDirEntry>, DirEntryPos)>)
        requires
            old(self).wf(),
            p < secs@.len(),
            q < SECTOR_SLOTS,
            forall|i: int| 0 <= i < secs@.len() ==> (#[trigger] secs@[i]).0 < old(self).sectors().len(),
        ensures
            final(self).same_volume(*old(self)),
            match r {
                Some((longs, pos)) => {
                    &&& slot_longs(old(self).sectors(), secs@, p as int, q as int, c) is Some
                    &&& longs_are(longs@, run_slots(slot_longs(old(self).sectors(), secs@, p as int, q as int, c)))
                    &&& pos == run_end(slot_longs(old(self).sectors(), secs@, p as int, q as int, c))
                },
                None => slot_longs(old(self).sectors(), secs@, p as int, q as int, c) is None,
            },
    {
        proof { self.cache.lemma_wf_view(); }
        let sb = self.cache.read(secs[p].0, 0, BLOCK_SIZE);
        proof { assert(sb@ =~= self.sectors()[secs@[p as int].0 as int]); }
        let (mut longs, e) = back_run_exec(&sb, q, c);
        match e {
            Some(e) => Some((longs, DirEntryPos { sector: secs[p], nth: e })),
            None => {
                if p == 0 {
                    return None;
                }
                let prev = secs[p - 1];
                let pb = self.cache.read(prev.0, 0, BLOCK_SIZE);
                proof { assert(pb@ =~= self.sectors()[prev.0 as int]); }
                match rlast_exec(&pb, c) {
                    None => None,
                    Some(end) => {
                        let ghost base = longs@;
                        let ghost tail = tail_slots(pb@, end as int);
                        let mut k: usize = SECTOR_SLOTS;
                        while k > end
                            invariant
                                pb@.len() == BLOCK_SIZE,
                                end <= k <= SECTOR_SLOTS,
                                end < SECTOR_SLOTS,
                                longs@.len() == base.len() + (16 - k),
                                forall|i: int| 0 <= i < base.len() ==> longs@[i] == base[i],
                                forall|i: int| 0 <= i < 16 - k ==> (#[trigger] longs@[base.len() + i]).spec_to_bytes() == tail[i],
                                tail == tail_slots(pb@, end as int),
                            decreases k,
                        {
                            let l = long_at(&pb, k - 1);
                            longs.push(l);
                            k = k - 1;
                        }
                        proof {
                            let spec = slot_longs(old(self).sectors(), secs@, p as int, q as int, c);
                            let run = back_run(sb@, q as int, c);
                            assert(run_slots(spec) =~= run.0 + tail);
                            assert forall|i: int| 0 <= i < longs@.len() implies (#[trigger] longs@[i]).spec_to_bytes() == run_slots(spec)[i] by {
                                if i >= base.len() {
                                    assert(longs@[base.len() + (i - base.len())] == longs@[i]);
                                } else {
                                    assert(longs@[i] == base[i]);
                                    assert(base[i].spec_to_bytes() == run.0[i]);
                                }
                            }
                        }
                        Some((longs, DirEntryPos { sector: prev, nth: end }))
                    },
                }
            },
        }
    }
}

impl<D: BlockDevice> FatFileSystem<D> {
    /// The first item of sector `secs[p]` named `nb`, its name's checksum `c`.
    fn find_in_sector(&mut self, secs: &Vec<SectorId>, p: usize, nb: &[u8], c: u8) -> (r: Option<Inode>)
        requires
            old(self).wf(),
            p < secs@.len(),
            forall|i: int| 0 <= i < secs@.len() ==> (#[trigger] secs@[i]).0 < old(self).sectors().len(),
            c == spec_checksum(nb@),
            longs_found(old(self).sectors(), secs@, c),
        ensures
            final(self).same_volume(*old(self)),
            ({
                let disk = old(self).sectors();
                match r {
                    None => forall|q: int| !#[trigger] named(disk, secs@, p as int, q, nb@),
                    Some(found) => exists|q: int| {
                        &&& #[trigger] named(disk, secs@, p as int, q, nb@)
                        &&& forall|q2: int| q2 < q ==> !#[trigger] named(disk, secs@, p as int, q2, nb@)
                        &&& found == inode_at(disk, secs@, p as int, q, c)
                    },
                }
            }),
    {
        let ghost disk = self.sectors();
        let ghost f0 = *self;
        proof { self.cache.lemma_wf_view(); }
        let sb = self.cache.read(secs[p].0, 0, BLOCK_SIZE);
        proof { assert(sb@ =~= disk[secs@[p as int].0 as int]); }
        let mut q: usize = 0;
        while q < SECTOR_SLOTS
            invariant_except_break
                q <= SECTOR_SLOTS,
                forall|k: int| 0 <= k < q ==> status_of(#[trigger] slot(sb@, k)[0]) != DirEntryStatus::TailFree,
                forall|q2: int| q2 < q ==> !#[trigger] named(disk, secs@, p as int, q2, nb@),
            invariant
                self.wf(),
                self.same_volume(f0),
                f0.same_volume(*old(self)),
                disk == self.sectors(),
                forall|i: int| 0 <= i < secs@.len() ==> (#[trigger] secs@[i]).0 < disk.len(),
                c == spec_checksum(nb@),
                longs_found(disk, secs@, c),
                p < secs@.len(),
                sb@ == disk[secs@[p as int].0 as int],
                sb@.len() == BLOCK_SIZE,
            ensures
                forall|q2: int| !#[trigger] named(disk, secs@, p as int, q2, nb@),
            decreases SECTOR_SLOTS - q,
        {
            let short = short_at(&sb, q);
            let st = short.status();
            if st == DirEntryStatus::TailFree {
                proof {
                    assert forall|q2: int| !#[trigger] named(disk, secs@, p as int, q2, nb@) by {
                        if q2 >= q && named(disk, secs@, p as int, q2, nb@) {
                            assert(status_of(slot(sb@, q as int)[0]) != DirEntryStatus::TailFree);
                        }
                    }
                }
                break;
            }
            if st == DirEntryStatus::Occupied && short.attr != 0x0F && short.checksum() == c {
                proof {
                    assert(candidate(disk, secs@, p as int, q as int, c));
                }
                match self.collect_longs(secs, p, q, c) {
                    None => {
                        proof { assert(false); }
                    },
                    Some((longs, end)) => {
                        let dname = long_name_bytes(longs.as_slice());
                        proof {
                            lemma_longs_bytes(longs@, run_slots(slot_longs(disk, secs@, p as int, q as int, c)));
                        }
                        if crate::layout::same_bytes(dname.as_slice(), nb) {
                            let ty = if short.attr & 0x10 != 0 { DirEntryType::Directory } else { DirEntryType::Regular };
                            let found = Inode {
                                start_id: short.cluster_id(),
                                range: DirEntryRange { last_long: end, short: DirEntryPos { sector: secs[p], nth: q } },
                                ty,
                            };
                            proof {
                                assert(named(disk, secs@, p as int, q as int, nb@));
                                assert(found == inode_at(disk, secs@, p as int, q as int, c));
                            }
                            return Some(found);
                        }
                    },
                }
            }
            proof {
                assert(status_of(slot(sb@, q as int)[0]) != DirEntryStatus::TailFree);
                if named(disk, secs@, p as int, q as int, nb@) {
                    assert(candidate(disk, secs@, p as int, q as int, c));
                }
            }
            q = q + 1;
        }
        None
    }
}

/// Slot `16 * p + q` of the scan is slot `q` of sector `p`.
proof fn lemma_div16(p: int, q: int)
    requires
        0 <= p,
        0 <= q < 16,
    ensures
        (16 * p + q) / 16 == p,
        (16 * p + q) % 16 == q,
{
    vstd::arithmetic::div_mod::lemma_fundamental_div_mod_converse(16 * p + q, 16, p, q);
}

/// Slots a listing does not show add nothing to the count.
proof fn lemma_count_flat(disk: Seq<Seq<u8>>, secs: Seq<SectorId>, p: int, q: int)
    requires
        0 <= p,
        0 <= q <= 16,
        forall|j: int| q <= j < 16 ==> !#[trigger] listed(disk, secs, p, j),
    ensures
        count_listed(disk, secs, 16 * p + 16) == count_listed(disk, secs, 16 * p + q),
    decreases 16 - q,
{
    if q < 16 {
        lemma_count_flat(disk, secs, p, q + 1);
        lemma_div16(p, q);
        assert(count_listed(disk, secs, 16 * p + q + 1) == count_listed(disk, secs, 16 * p + q)
            + if listed(disk, secs, p, q) { 1nat } else { 0nat });
    }
}

/// Counts grow with the number of slots.
proof fn lemma_count_mono(disk: Seq<Seq<u8>>, secs: Seq<SectorId>, i: int, j: int)
    requires
        i <= j,
    ensures
        count_listed(disk, secs, i) <= count_listed(disk, secs, j),
    decreases j - i,
{
    if i < j {
        lemma_count_mono(disk, secs, i, j - 1);
    }
}

/// Two listed slots with the same rank are the same slot.
proof fn lemma_rank_unique(disk: Seq<Seq<u8>>, secs: Seq<SectorId>, p: int, q: int, p2: int, q2: int)
    requires
        listed(disk, secs, p, q),
        listed(disk, secs, p2, q2),
        0 <= q < 16,
        0 <= q2 < 16,
        0 <= p,
        0 <= p2,
        count_listed(disk, secs, 16 * p + q) == count_listed(disk, secs, 16 * p2 + q2),
    ensures
        p == p2 && q == q2,
{
    let i = 16 * p + q;
    let j = 16 * p2 + q2;
    lemma_div16(p, q);
    lemma_div16(p2, q2);
    if i < j {
        lemma_count_mono(disk, secs, i + 1, j);
        assert(count_listed(disk, secs, i + 1) == count_listed(disk, secs, i) + 1);
    } else if j < i {
        lemma_count_mono(disk, secs, j + 1, i);
        assert(count_listed(disk, secs, j + 1) == count_listed(disk, secs, j) + 1);
    } else {
        assert(p == p2) by (nonlinear_arith)
            requires
                16 * p + q == 16 * p2 + q2,
                0 <= q < 16,
                0 <= q2 < 16,
        ;
    }
}

/// The items of ranks `at` to `at + count` have their long entries, and
/// their names are valid UTF-8.
#[verifier::opaque]
pub open spec fn names_ok(disk: Seq<Seq<u8>>, secs: Seq<SectorId>, at: int, count: int) -> bool {
    forall|p: int, q: int|
        #[trigger] listed(disk, secs, p, q) && 0 <= q < 16 && at <= count_listed(disk, secs, 16 * p + q) < at + count
            ==> own_name_ok(disk, secs, p, q)
}

/// The entries of `buf` list the items of ranks `at` to `at + buf.len()`.
#[verifier::opaque]
pub open spec fn lists_ranks(buf: Seq<DirEntry>, disk: Seq<Seq<u8>>, secs: Seq<SectorId>, at: int) -> bool {
    forall|p: int, q: int|
        #[trigger] listed(disk, secs, p, q) && 0 <= q < 16 && at <= count_listed(disk, secs, 16 * p + q) < at + buf.len()
            ==> lists(buf[count_listed(disk, secs, 16 * p + q) - at], disk, secs, p, q)
}

impl<D: BlockDevice> FatFileSystem<D> {
    /// Lists the items of sector `secs[p]` after the first `at` of the
    /// directory, into `buf`, until it holds `count`; answers whether it does.
    #[verifier::rlimit(50)]
    fn ls_sector(&mut self, secs: &Vec<SectorId>, p: usize, at: usize, count: usize, buf: &mut Vec<DirEntry>, skipped: &mut usize) -> (done: bool)
        requires
            old(self).wf(),
            p < secs@.len(),
            forall|i: int| 0 <= i < secs@.len() ==> (#[trigger] secs@[i]).0 < old(self).sectors().len(),
            names_ok(old(self).sectors(), secs@, at as int, count as int),
            *old(skipped) == if count_listed(old(self).sectors(), secs@, 16 * p) < at { count_listed(old(self).sectors(), secs@, 16 * p) } else { at as nat },
            old(buf)@.len() == count_listed(old(self).sectors(), secs@, 16 * p) - *old(skipped),
            old(buf)@.len() <= count,
            lists_ranks(old(buf)@, old(self).sectors(), secs@, at as int),
        ensures
            final(self).same_volume(*old(self)),
            lists_ranks(final(buf)@, old(self).sectors(), secs@, at as int),
            done ==> final(buf)@.len() == count,
            done ==> count == 0 || at + count <= count_listed(old(self).sectors(), secs@, 16 * p + 16),
            !done ==> {
                &&& *final(skipped) == if count_listed(old(self).sectors(), secs@, 16 * p + 16) < at { count_listed(old(self).sectors(), secs@, 16 * p + 16) } else { at as nat }
                &&& final(buf)@.len() == count_listed(old(self).sectors(), secs@, 16 * p + 16) - *final(skipped)
                &&& final(buf)@.len() <= count
            },
    {
        let ghost disk = self.sectors();
        let ghost f0 = *self;
        proof {
            self.cache.lemma_wf_view();
            reveal(names_ok);
            reveal(lists_ranks);
        }
        let sb = self.cache.read(secs[p].0, 0, BLOCK_SIZE);
        proof { assert(sb@ =~= disk[secs@[p as int].0 as int]); }
        let mut q: usize = 0;
        while q < SECTOR_SLOTS
            invariant
                self.wf(),
                self.same_volume(f0),
                f0.same_volume(*old(self)),
                disk == self.sectors(),
                disk == old(self).sectors(),
                p < secs@.len(),
                forall|i: int| 0 <= i < secs@.len() ==> (#[trigger] secs@[i]).0 < disk.len(),
                forall|p2: int, q2: int|
                    #[trigger] listed(disk, secs@, p2, q2) && 0 <= q2 < 16 && at <= count_listed(disk, secs@, 16 * p2 + q2) < at + count
                        ==> own_name_ok(disk, secs@, p2, q2),
                sb@ == disk[secs@[p as int].0 as int],
                sb@.len() == BLOCK_SIZE,
                q <= SECTOR_SLOTS,
                forall|k: int| 0 <= k < q ==> status_of(#[trigger] slot(sb@, k)[0]) != DirEntryStatus::TailFree,
                *skipped == if count_listed(disk, secs@, 16 * p + q) < at { count_listed(disk, secs@, 16 * p + q) } else { at as nat },
                buf@.len() == count_listed(disk, secs@, 16 * p + q) - *skipped,
                buf@.len() <= count,
                lists_ranks(buf@, disk, secs@, at as int),
            decreases SECTOR_SLOTS - q,
        {
            proof {
                reveal(names_ok);
                reveal(lists_ranks);
            }
            let short = short_at(&sb, q);
            let st = short.status();
            if st == DirEntryStatus::TailFree {
                proof {
                    assert forall|j: int| q <= j < 16 implies !#[trigger] listed(disk, secs@, p as int, j) by {
                        if listed(disk, secs@, p as int, j) {
                            assert(status_of(slot(sb@, q as int)[0]) != DirEntryStatus::TailFree);
                        }
                    }
                    lemma_count_flat(disk, secs@, p as int, q as int);
                }
                return false;
            }
            if buf.len() == count {
                proof {
                    lemma_count_mono(disk, secs@, 16 * p + q, 16 * p + 16);
                }
                return true;
            }
            proof { lemma_div16(p as int, q as int); }
            let ghost k = count_listed(disk, secs@, 16 * p + q);
            if st == DirEntryStatus::Occupied && short.attr != 0x0F && !short.is_relative() {
                proof {
                    assert(listed(disk, secs@, p as int, q as int));
                    assert(count_listed(disk, secs@, 16 * p + q + 1) == k + 1);
                }
                if *skipped < at {
                    *skipped = *skipped + 1;
                } else {
                    let c = short.checksum();
                    proof {
                        assert(own_name_ok(disk, secs@, p as int, q as int));
                    }
                    match self.collect_longs(secs, p, q, c) {
                        None => {
                            proof { assert(false); }
                        },
                        Some((longs, _end)) => {
                            proof {
                                lemma_longs_bytes(longs@, run_slots(slot_longs(disk, secs@, p as int, q as int, c)));
                            }
                            let name = crate::fat::dir_entry::dirents2name(longs.as_slice());
                            let ty = if short.attr & 0x10 != 0 { DirEntryType::Directory } else { DirEntryType::Regular };
                            let ghost before = buf@;
                            buf.push(DirEntry { inode: short.cluster_id().0 as u64, ty, name });
                            proof {
                                assert forall|p2: int, q2: int|
                                    #[trigger] listed(disk, secs@, p2, q2) && 0 <= q2 < 16 && at <= count_listed(disk, secs@, 16 * p2 + q2) < at + buf@.len()
                                        implies lists(buf@[count_listed(disk, secs@, 16 * p2 + q2) - at], disk, secs@, p2, q2) by {
                                    if count_listed(disk, secs@, 16 * p2 + q2) == k {
                                        lemma_rank_unique(disk, secs@, p2, q2, p as int, q as int);
                                    } else {
                                        assert(buf@[count_listed(disk, secs@, 16 * p2 + q2) - at] == before[count_listed(disk, secs@, 16 * p2 + q2) - at]);
                                    }
                                }
                            }
                        },
                    }
                }
            } else {
                proof {
                    assert(!listed(disk, secs@, p as int, q as int));
                    assert(count_listed(disk, secs@, 16 * p + q + 1) == k);
                }
            }
            q = q + 1;
        }
        false
    }
}

impl Inode {
    /// The root directory: its chain starts at [`ClusterId::min`]; its entry
    /// position is a placeholder.
    pub fn root() -> (r: Self)
        ensures
            r.start_id.0 == 2,
            r.ty == DirEntryType::Directory,
    {
        let pos = DirEntryPos { sector: SectorId::new(0), nth: 0 };
        Inode { start_id: ClusterId::min(), range: DirEntryRange { last_long: pos, short: pos }, ty: DirEntryType::Directory }
    }

    /// The inode's number: the first cluster of its chain.
    pub fn id(&self) -> (r: u64)
        ensures
            r == self.start_id.0,
    {
        self.start_id.0 as u64
    }

    /// What the inode is.
    pub fn kind(&self) -> (r: DirEntryType)
        ensures
            r == self.ty,
    {
        self.ty
    }

    /// The sectors of this directory, where its chain is good.
    pub open spec fn dir_sectors<D: BlockDevice>(&self, fs: FatFileSystem<D>) -> Seq<SectorId> {
        chain_sectors(fs.data_area, fs.chain(self.start_id))
    }

    /// The item of this directory named by the bytes `name`: the first in
    /// scan order.
    pub fn find_name<D: BlockDevice>(&self, name: &[u8], fs: &mut FatFileSystem<D>) -> (r: Option<Inode>)
        requires
            old(fs).wf(),
            old(fs).good_chain(self.start_id),
            longs_found(old(fs).sectors(), self.dir_sectors(*old(fs)), spec_checksum(name@)),
        ensures
            final(fs).same_volume(*old(fs)),
            ({
                let disk = old(fs).sectors();
                let secs = self.dir_sectors(*old(fs));
                let nb = name@;
                match r {
                    None => forall|p: int, q: int| !#[trigger] named(disk, secs, p, q, nb),
                    Some(inode) => exists|p: int, q: int| {
                        &&& #[trigger] named(disk, secs, p, q, nb)
                        &&& forall|p2: int, q2: int| slot_before(p2, q2, p, q) ==> !#[trigger] named(disk, secs, p2, q2, nb)
                        &&& inode == inode_at(disk, secs, p, q, spec_checksum(nb))
                    },
                }
            }),
    {
        let nb = name;
        let c = ShortDirEntry::checksum_from(nb);
        let ghost disk = fs.sectors();
        let ghost f0 = *fs;
        let secs = fs.data_sectors(self.start_id);
        proof {
            crate::fat::control::lemma_chain_sectors_in_area(fs.data_area, fs.chain(self.start_id));
            fs.cache.lemma_wf_view();
        }
        let mut p: usize = 0;
        while p < secs.len()
            invariant
                fs.wf(),
                fs.same_volume(f0),
                f0.same_volume(*old(fs)),
                disk == fs.sectors(),
                secs@ == self.dir_sectors(*old(fs)),
                forall|i: int| 0 <= i < secs@.len() ==> (#[trigger] secs@[i]).0 < disk.len(),
                crate::block_dev::blocks_wf(disk),
                nb@ == name@,
                c == spec_checksum(nb@),
                longs_found(disk, secs@, c),
                p <= secs@.len(),
                forall|p2: int, q2: int| p2 < p ==> !#[trigger] named(disk, secs@, p2, q2, nb@),
            decreases secs@.len() - p,
        {
            match fs.find_in_sector(&secs, p, nb, c) {
                Some(found) => {
                    proof {
                        let q = choose|q: int| {
                            &&& #[trigger] named(disk, secs@, p as int, q, nb@)
                            &&& forall|q2: int| q2 < q ==> !#[trigger] named(disk, secs@, p as int, q2, nb@)
                            &&& found == inode_at(disk, secs@, p as int, q, c)
                        };
                        assert forall|p2: int, q2: int| slot_before(p2, q2, p as int, q) implies !#[trigger] named(disk, secs@, p2, q2, nb@) by {
                        }
                        assert(named(disk, secs@, p as int, q, nb@));
                    }
                    return Some(found);
                },
                None => {},
            }
            p = p + 1;
        }
        None
    }
    /// The item of this directory named `name`: the first in scan order.
    pub fn find_cwd<D: BlockDevice>(&self, name: &str, fs: &mut FatFileSystem<D>) -> (r: Option<Inode>)
        requires
            old(fs).wf(),
            old(fs).good_chain(self.start_id),
            longs_found(old(fs).sectors(), self.dir_sectors(*old(fs)), spec_checksum(name.spec_bytes())),
        ensures
            final(fs).same_volume(*old(fs)),
            ({
                let disk = old(fs).sectors();
                let secs = self.dir_sectors(*old(fs));
                let nb = name.spec_bytes();
                match r {
                    None => forall|p: int, q: int| !#[trigger] named(disk, secs, p, q, nb),
                    Some(inode) => exists|p: int, q: int| {
                        &&& #[trigger] named(disk, secs, p, q, nb)
                        &&& forall|p2: int, q2: int| slot_before(p2, q2, p, q) ==> !#[trigger] named(disk, secs, p2, q2, nb)
                        &&& inode == inode_at(disk, secs, p, q, spec_checksum(nb))
                    },
                }
            }),
    {
        self.find_name(name.as_bytes(), fs)
    }

}

impl Inode {
    /// Lists the items of this directory after the first `at`, at most
    /// `count` of them, in scan order; `.` and `..` are not listed.
    #[verifier::rlimit(60)]
    #[verifier::spinoff_prover]
    pub fn ls_at<D: BlockDevice>(&self, at: usize, count: usize, fs: &mut FatFileSystem<D>) -> (r: Vec<DirEntry>)
        requires
            old(fs).wf(),
            old(fs).good_chain(self.start_id),
            names_ok(old(fs).sectors(), self.dir_sectors(*old(fs)), at as int, count as int),
        ensures
            final(fs).same_volume(*old(fs)),
            ({
                let disk = old(fs).sectors();
                let secs = self.dir_sectors(*old(fs));
                let total = count_listed(disk, secs, 16 * (secs.len() as int));
                &&& r@.len() == if total <= at { 0 } else if total - at < count { (total - at) as int } else { count as int }
                &&& lists_ranks(r@, disk, secs, at as int)
            }),
    {
        let ghost disk = fs.sectors();
        let ghost f0 = *fs;
        let secs = fs.data_sectors(self.start_id);
        proof {
            crate::fat::control::lemma_chain_sectors_in_area(fs.data_area, fs.chain(self.start_id));
        }
        let mut buf: Vec<DirEntry> = Vec::new();
        let mut skipped: usize = 0;
        let mut p: usize = 0;
        proof { reveal(lists_ranks); }
        while p < secs.len()
            invariant
                fs.wf(),
                fs.same_volume(f0),
                f0.same_volume(*old(fs)),
                disk == fs.sectors(),
                disk == old(fs).sectors(),
                secs@ == self.dir_sectors(*old(fs)),
                forall|i: int| 0 <= i < secs@.len() ==> (#[trigger] secs@[i]).0 < disk.len(),
                names_ok(disk, secs@, at as int, count as int),
                p <= secs@.len(),
                skipped == if count_listed(disk, secs@, 16 * p) < at { count_listed(disk, secs@, 16 * p) } else { at as nat },
                buf@.len() == count_listed(disk, secs@, 16 * p) - skipped,
                buf@.len() <= count,
                lists_ranks(buf@, disk, secs@, at as int),
            decreases secs@.len() - p,
        {
            let done = fs.ls_sector(&secs, p, at, count, &mut buf, &mut skipped);
            if done {
                proof {
                    lemma_count_mono(disk, secs@, 16 * p + 16, 16 * (secs@.len() as int));
                }
                return buf;
            }
            p = p + 1;
        }
        buf
    }
}

/// The size recorded in the short entry at `pos`.
pub open spec fn size_at(disk: Seq<Seq<u8>>, pos: DirEntryPos) -> int {
    vstd::bytes::spec_u32_from_le_bytes(slot(disk[pos.sector.0 as int], pos.nth as int).subrange(28, 32)) as int
}

/// The end of an access of `len` bytes from `offset` to a file of `size` bytes.
pub open spec fn io_end(size: int, offset: int, len: int) -> int {
    if offset + len < size { offset + len } else { size }
}

/// `len` divided by 512, rounded up.
pub open spec fn sectors_for(len: int) -> int {
    (len + 511) / 512
}

/// Byte `p` of the file whose chain has the sectors `secs`.
pub open spec fn chain_byte(disk: Seq<Seq<u8>>, secs: Seq<SectorId>, p: int) -> u8 {
    disk[secs[p / 512].0 as int][p % 512]
}

/// Bytes an access from byte `offset` up to byte `end` moves over a chain
/// of `nsecs` sectors: none past the chain's last sector.
pub open spec fn io_count(offset: int, end: int, nsecs: int) -> int {
    let stop = if end < 512 * nsecs { end } else { 512 * nsecs };
    if offset < stop { stop - offset } else { 0 }
}

/// Where an access from byte `offset` up to byte `end` over a chain of
/// `nsecs` sectors stops.
pub fn io_stop(end: usize, nsecs: usize) -> (r: usize)
    ensures
        r == if end < 512 * nsecs { end as int } else { 512 * nsecs },
{
    if end / 512 < nsecs {
        end
    } else {
        512 * nsecs
    }
}

/// Byte `offset + j` of a file lies at byte `a + j` of sector `i` of its
/// chain when byte `offset` lies at byte `a` of it and `a + j` stays in it.
pub proof fn lemma_chunk_pos(offset: int, i: int, a: int, j: int)
    requires
        0 <= a,
        0 <= j,
        a + j < 512,
        offset == 512 * i + a,
    ensures
        (offset + j) / 512 == i,
        (offset + j) % 512 == a + j,
{
    vstd::arithmetic::div_mod::lemma_fundamental_div_mod_converse(offset + j, 512, i, a + j);
}

impl Inode {
    /// What [`Inode::read_at`] did, reading the file on `fs` from byte
    /// `offset` into a buffer that held `buf` and now holds `buf2`: it read
    /// the bytes from `offset` up to the file's end, at most as many as the
    /// buffer holds (none past the chain's last sector), `r` of them, into
    /// the buffer's front and left the rest.
    pub open spec fn reads<D: BlockDevice>(&self, fs: FatFileSystem<D>, offset: int, buf: Seq<u8>, buf2: Seq<u8>, r: int) -> bool {
        let disk = fs.sectors();
        let end = io_end(size_at(disk, self.range.short), offset, buf.len() as int);
        let secs = self.dir_sectors(fs);
        &&& r == io_count(offset, end, secs.len() as int)
        &&& forall|k: int| 0 <= k < r ==> #[trigger] buf2[k] == chain_byte(disk, secs, offset + k)
        &&& forall|k: int| r <= k < buf.len() ==> #[trigger] buf2[k] == buf[k]
    }

    /// The short entry's slot lies on the device.
    pub open spec fn entry_fits<D: BlockDevice>(&self, fs: FatFileSystem<D>) -> bool {
        &&& self.range.short.sector.0 < fs.sectors().len()
        &&& self.range.short.nth < SECTOR_SLOTS
    }

    /// Reads the file from byte `offset` into `buf`, up to the file's end;
    /// answers the bytes read.
    pub fn read_at<D: BlockDevice>(&self, offset: usize, buf: &mut [u8], fs: &mut FatFileSystem<D>) -> (r: usize)
        requires
            old(fs).wf(),
            self.entry_fits(*old(fs)),
            offset + old(buf)@.len() <= usize::MAX,
            offset < io_end(size_at(old(fs).sectors(), self.range.short), offset as int, old(buf)@.len() as int)
                ==> old(fs).good_chain(self.start_id),
        ensures
            final(fs).same_volume(*old(fs)),
            final(buf)@.len() == old(buf)@.len(),
            self.reads(*old(fs), offset as int, old(buf)@, final(buf)@, r as int),
    {
        let ghost disk = fs.sectors();
        let short = self.range.short.access(&mut fs.cache);
        proof {
            vstd::bytes::lemma_auto_spec_u32_to_from_le_bytes();
            let b = short.spec_to_bytes();
            assert(b.subrange(28, 32) =~= vstd::bytes::spec_u32_to_le_bytes(short.file_size));
        }
        let file_size = short.size();
        let start = offset;
        let end = if start + buf.len() < file_size { start + buf.len() } else { file_size };
        if start >= end {
            return 0;
        }
        let ghost f0 = *fs;
        let secs = fs.data_sectors(self.start_id);
        proof {
            crate::fat::control::lemma_chain_sectors_in_area(fs.data_area, fs.chain(self.start_id));
            fs.cache.lemma_wf_view();
        }
        let stop = io_stop(end, secs.len());
        let ghost old_buf = buf@;
        let mut pos: usize = start;
        let mut done: usize = 0;
        while pos < stop
            invariant
                fs.wf(),
                fs.same_volume(f0),
                f0.same_volume(*old(fs)),
                disk == fs.sectors(),
                secs@ == self.dir_sectors(*old(fs)),
                forall|j: int| 0 <= j < secs@.len() ==> (#[trigger] secs@[j]).0 < disk.len(),
                crate::block_dev::blocks_wf(disk),
                end == io_end(size_at(disk, self.range.short), offset as int, old_buf.len() as int),
                stop == if end < 512 * secs@.len() { end as int } else { 512 * secs@.len() as int },
                start == offset,
                stop <= end,
                end <= start + old_buf.len(),
                start + old_buf.len() <= usize::MAX,
                pos == start + done,
                pos <= stop || done == 0,
                buf@.len() == old_buf.len(),
                forall|k: int| 0 <= k < done ==> #[trigger] buf@[k] == chain_byte(disk, secs@, start + k),
                forall|k: int| done <= k < old_buf.len() ==> #[trigger] buf@[k] == old_buf[k],
            decreases stop - pos,
        {
            let i = pos / 512;
            let a = pos % 512;
            let b = if stop - 512 * i < 512 { stop - 512 * i } else { 512 };
            let n = b - a;
            assert(i < secs@.len());
            let data = fs.cache.read(secs[i].0, a, n);
            let mut k: usize = 0;
            while k < n
                invariant
                    k <= n,
                    n <= 512,
                    data@.len() == n,
                    data@ == disk[secs@[i as int].0 as int].subrange(a as int, a + n),
                    done + n <= old_buf.len(),
                    old_buf.len() <= usize::MAX,
                    buf@.len() == old_buf.len(),
                    forall|j: int| 0 <= j < done ==> #[trigger] buf@[j] == chain_byte(disk, secs@, start + j),
                    forall|j: int| done <= j < done + k ==> #[trigger] buf@[j] == data@[j - done],
                    forall|j: int| done + k <= j < old_buf.len() ==> #[trigger] buf@[j] == old_buf[j],
                decreases n - k,
            {
                buf[done + k] = data[k];
                k = k + 1;
            }
            proof {
                assert forall|j: int| done <= j < done + n implies #[trigger] buf@[j] == chain_byte(disk, secs@, start + j) by {
                    lemma_chunk_pos(pos as int, i as int, a as int, j - done);
                    assert(buf@[j] == data@[j - done]);
                }
            }
            done = done + n;
            pos = pos + n;
        }
        done
    }
}

/// `disk` with the size in the short entry at `pos` set to `n`.
pub open spec fn with_size(disk: Seq<Seq<u8>>, pos: DirEntryPos, n: u32) -> Seq<Seq<u8>> {
    disk.update(
        pos.sector.0 as int,
        crate::block_cache::splice(disk[pos.sector.0 as int], 32 * pos.nth + 28, vstd::bytes::spec_u32_to_le_bytes(n)),
    )
}

impl Inode {
    /// Sets the size in this item's short entry to `n`.
    pub(crate) fn set_size<D: BlockDevice>(&self, fs: &mut FatFileSystem<D>, n: usize)
        requires
            old(fs).wf(),
            self.entry_fits(*old(fs)),
        ensures
            final(fs).wf(),
            final(fs).bpb == old(fs).bpb,
            final(fs).fat == old(fs).fat,
            final(fs).data_area == old(fs).data_area,
            final(fs).cache.device_blocks().len() == old(fs).cache.device_blocks().len(),
            final(fs).sectors() == with_size(old(fs).sectors(), self.range.short, n as u32),
    {
        proof { fs.cache.lemma_wf_view(); }
        let mut short = self.range.short.access(&mut fs.cache);
        let ghost before = short;
        short.resize(n);
        self.range.short.access_mut(&mut fs.cache, &short);
        proof {
            vstd::bytes::lemma_auto_spec_u32_to_from_le_bytes();
            let disk = old(fs).sectors();
            let s = self.range.short.sector.0 as int;
            let off = 32 * self.range.short.nth;
            let a = crate::block_cache::splice(disk[s], off as int, short.spec_to_bytes());
            let b = crate::block_cache::splice(disk[s], off + 28, vstd::bytes::spec_u32_to_le_bytes(n as u32));
            assert(before.spec_to_bytes() == slot(disk[s], self.range.short.nth as int));
            assert(short.spec_to_bytes() =~= before.spec_to_bytes().subrange(0, 28) + vstd::bytes::spec_u32_to_le_bytes(n as u32));
            assert(a =~= b);
        }
    }

    /// Empties the file: frees its chain and records size 0. An empty file
    /// has no chain and is left alone.
    pub fn clear<D: BlockDevice>(&mut self, fs: &mut FatFileSystem<D>)
        requires
            old(fs).wf(),
            old(self).entry_fits(*old(fs)),
            old(self).start_id.0 != 0 ==> {
                &&& old(fs).fat.spec_validate_id(old(self).start_id) is Ok
                &&& exists|c: Seq<u32>| crate::fat::table::is_chain(old(fs).sectors(), old(fs).fat, old(self).start_id, c)
            },
        ensures
            final(fs).wf(),
            final(fs).bpb == old(fs).bpb,
            final(fs).fat == old(fs).fat,
            final(fs).data_area == old(fs).data_area,
            final(self).range == old(self).range,
            final(self).ty == old(self).ty,
            old(self).start_id.0 == 0 ==> *final(self) == *old(self) && final(fs).sectors() == old(fs).sectors(),
            old(self).start_id.0 != 0 ==> {
                &&& final(self).start_id.0 == 0
                &&& final(fs).sectors() == with_size(
                    crate::fat::table::released(
                        old(fs).sectors(),
                        old(fs).fat.start(),
                        crate::fat::table::chain_of(old(fs).sectors(), old(fs).fat, old(self).start_id),
                    ),
                    old(self).range.short,
                    0,
                )
            },
    {
        if self.start_id.0 != ClusterId::free().0 {
            let _ = fs.fat.dealloc(&mut fs.cache, self.start_id);
            self.start_id = ClusterId::free();
            self.set_size(fs, 0);
        }
    }

    /// What this item is, its sector size, its number of sectors and its size.
    pub fn stat<D: BlockDevice>(&self, fs: &mut FatFileSystem<D>) -> (r: Stat)
        requires
            old(fs).wf(),
            self.entry_fits(*old(fs)),
            old(fs).good_chain(self.start_id),
        ensures
            final(fs).same_volume(*old(fs)),
            r == (Stat {
                mode: self.ty,
                block_size: old(fs).bpb.byts_per_sec.spec_value() as u64,
                blocks: self.dir_sectors(*old(fs)).len() as u64,
                size: size_at(old(fs).sectors(), self.range.short) as u64,
            }),
    {
        let ghost f0 = *fs;
        let secs = fs.data_sectors(self.start_id);
        let short = self.range.short.access(&mut fs.cache);
        proof {
            vstd::bytes::lemma_auto_spec_u32_to_from_le_bytes();
            let b = short.spec_to_bytes();
            assert(b.subrange(28, 32) =~= vstd::bytes::spec_u32_to_le_bytes(short.file_size));
        }
        Stat {
            mode: self.ty,
            block_size: fs.bpb.sector_bytes() as u64,
            blocks: secs.len() as u64,
            size: short.size() as u64,
        }
    }

    /// Whether this directory holds nothing: its first slot after `.` and
    /// `..` (the root has none) marks the free tail.
    pub fn is_empty_dir<D: BlockDevice>(&self, fs: &mut FatFileSystem<D>) -> (r: bool)
        requires
            old(fs).wf(),
            old(fs).good_chain(self.start_id),
        ensures
            final(fs).same_volume(*old(fs)),
            r == (status_of(slot(
                old(fs).sectors()[self.dir_sectors(*old(fs))[0].0 as int],
                if self.start_id.0 == 2 { 0 } else { 2 },
            )[0]) == DirEntryStatus::TailFree),
    {
        let ghost f0 = *fs;
        let secs = fs.data_sectors(self.start_id);
        proof {
            crate::fat::control::lemma_chain_sectors_in_area(fs.data_area, fs.chain(self.start_id));
            let c = fs.chain(self.start_id);
            crate::fat::control::lemma_chain_sectors_len(fs.data_area, c);
        }
        let i: usize = if self.start_id.0 == ClusterId::min().0 { 0 } else { 2 };
        let pos = DirEntryPos { sector: secs[0], nth: i };
        let short = pos.access(&mut fs.cache);
        proof {
            let b = short.spec_to_bytes();
            assert(b[0] == short.name@[0]);
        }
        short.status() == DirEntryStatus::TailFree
    }
}

} // verus!
