//! What recording an item leaves in its directory: the item is the first
//! one a lookup of its name meets.

use vstd::prelude::*;

use crate::block_dev::BlockDevice;
use crate::fat::control::FatFileSystem;
use crate::fat::create::{
    kept_slots, lemma_room_in_dir, lemma_secs_distinct, placed_at, pos_of, room_fits, room_of, room_start, scan, status_at, Room,
};
use crate::fat::dir_entry::{
    ascii_upper, long_count, name_part, short_name_of, spec_checksum, status_of, DirEntryStatus, LongDirEntry,
    ShortDirEntry,
};
use crate::fat::inode::{
    back_run, candidate, inode_at, is_long_slot, item_slot, last_part, long_of, named, rlast, run_end,
    run_slots, slot, slot_before, slot_longs, slots_bytes, tail_slots, visited, DirEntryRange, Inode,
};
use crate::fat::range::{range_slots, slot_at};
use crate::fat::remove::first_named;
use crate::fat::sector::SectorId;

verus! {

/// `short` and `longs` carry the name `name`: the short entry holds the
/// name's short form and is no long entry; the long entries hold the
/// name's parts, last part first, each with the name's checksum.
pub open spec fn carries_name(name: Seq<u8>, short: ShortDirEntry, longs: Seq<LongDirEntry>) -> bool {
    &&& short.name@ == short_name_of(name)
    &&& short.attr != 0x0F
    &&& longs.len() == long_count(name.len() as int)
    &&& forall|j: int| 0 <= j < longs.len() ==> {
        let i = longs.len() - 1 - j;
        &&& (#[trigger] longs[j]).ord == (if j == 0 { ((i + 1) as u8) | 0x40 } else { (i + 1) as u8 })
        &&& longs[j].chksum == spec_checksum(name)
        &&& longs[j].attr == 0x0F
        &&& longs[j].spec_name() == name_part(name, i)
    }
}

/// Where the fields of a long entry lie in its bytes.
proof fn lemma_long_bytes(l: LongDirEntry)
    ensures
        l.spec_to_bytes().len() == 32,
        l.spec_to_bytes()[0] == l.ord,
        l.spec_to_bytes()[11] == l.attr,
        l.spec_to_bytes()[13] == l.chksum,
{
}

/// Where the fields of a short entry lie in its bytes.
proof fn lemma_short_bytes(s: ShortDirEntry)
    ensures
        s.spec_to_bytes().len() == 32,
        s.spec_to_bytes().subrange(0, 11) == s.name@,
        s.spec_to_bytes()[0] == s.name@[0],
        s.spec_to_bytes()[11] == s.attr,
{
    crate::fat::dir_entry::lemma_short_len(s);
    assert(s.spec_to_bytes().subrange(0, 11) =~= s.name@);
}

/// Walking back from slot `q` over `m` long entries with checksum `c`, the
/// farthest the last part of a name, meets those slots and stops there.
proof fn lemma_back_run_stop(sb: Seq<u8>, q: int, c: u8, m: int)
    requires
        1 <= m <= q,
        forall|k: int| 1 <= k <= m ==> long_of(#[trigger] slot(sb, q - k), c),
        forall|k: int| 1 <= k < m ==> !last_part(#[trigger] slot(sb, q - k)),
        last_part(slot(sb, q - m)),
    ensures
        back_run(sb, q, c) == (Seq::new(m as nat, |k: int| slot(sb, q - 1 - k)), Some(q - m)),
    decreases m,
{
    assert(long_of(slot(sb, q - 1), c));
    if m == 1 {
        assert(seq![slot(sb, q - 1)] =~= Seq::new(1, |k: int| slot(sb, q - 1 - k)));
    } else {
        assert(!last_part(slot(sb, q - 1)));
        assert forall|k: int| 1 <= k <= m - 1 implies long_of(#[trigger] slot(sb, q - 1 - k), c) by {
            assert(long_of(slot(sb, q - (k + 1)), c));
        }
        assert forall|k: int| 1 <= k < m - 1 implies !last_part(#[trigger] slot(sb, q - 1 - k)) by {
            assert(!last_part(slot(sb, q - (k + 1))));
        }
        lemma_back_run_stop(sb, q - 1, c, m - 1);
        assert(seq![slot(sb, q - 1)] + Seq::new((m - 1) as nat, |k: int| slot(sb, q - 1 - 1 - k))
            =~= Seq::new(m as nat, |k: int| slot(sb, q - 1 - k)));
    }
}

/// Walking back from slot `q` over long entries with checksum `c` none of
/// which is the last part of a name reaches the sector's start.
proof fn lemma_back_run_none(sb: Seq<u8>, q: int, c: u8)
    requires
        0 <= q,
        forall|k: int| 0 <= k < q ==> long_of(#[trigger] slot(sb, k), c) && !last_part(slot(sb, k)),
    ensures
        back_run(sb, q, c) == (Seq::new(q as nat, |k: int| slot(sb, q - 1 - k)), None::<int>),
    decreases q,
{
    if q == 0 {
        assert(Seq::new(0, |k: int| slot(sb, q - 1 - k)) =~= Seq::<Seq<u8>>::empty());
    } else {
        assert(long_of(slot(sb, q - 1), c) && !last_part(slot(sb, q - 1)));
        lemma_back_run_none(sb, q - 1, c);
        assert(seq![slot(sb, q - 1)] + Seq::new((q - 1) as nat, |k: int| slot(sb, q - 1 - 1 - k))
            =~= Seq::new(q as nat, |k: int| slot(sb, q - 1 - k)));
    }
}

/// The last of the first `m` slots that holds the last part of a name with
/// checksum `c` is `e`, when none after it does.
proof fn lemma_rlast(sb: Seq<u8>, c: u8, e: int, m: int)
    requires
        0 <= e < m,
        long_of(slot(sb, e), c) && last_part(slot(sb, e)),
        forall|k: int| e < k < m ==> !(long_of(#[trigger] slot(sb, k), c) && last_part(slot(sb, k))),
    ensures
        rlast(sb, c, m) == Some(e),
    decreases m,
{
    if m - 1 > e {
        assert(!(long_of(slot(sb, m - 1), c) && last_part(slot(sb, m - 1))));
        lemma_rlast(sb, c, e, m - 1);
    }
}

/// Walking back from slot `q` reads only the slots before it.
proof fn lemma_back_run_same(sb1: Seq<u8>, sb2: Seq<u8>, q: int, c: u8)
    requires
        forall|k: int| 0 <= k < q ==> #[trigger] slot(sb1, k) == slot(sb2, k),
    ensures
        back_run(sb1, q, c) == back_run(sb2, q, c),
    decreases q,
{
    if q > 0 {
        assert(slot(sb1, q - 1) == slot(sb2, q - 1));
        lemma_back_run_same(sb1, sb2, q - 1, c);
    }
}

/// Two sectors whose sixteen slots agree are the same.
proof fn lemma_sector_eq(s1: Seq<u8>, s2: Seq<u8>)
    requires
        s1.len() == 512,
        s2.len() == 512,
        forall|k: int| 0 <= k < 16 ==> #[trigger] slot(s1, k) == slot(s2, k),
    ensures
        s1 == s2,
{
    assert forall|i: int| 0 <= i < 512 implies s1[i] == s2[i] by {
        let k = i / 32;
        assert(slot(s1, k) == slot(s2, k));
        assert(slot(s1, k)[i - 32 * k] == s1[i]);
        assert(slot(s2, k)[i - 32 * k] == s2[i]);
    }
    assert(s1 =~= s2);
}

/// Whether slot `q2` of sector `secs[p2]` is named `name` reads only the
/// directory's slots up to it: where those kept their bytes, it is named
/// alike, also over a longer list of sectors that begins with `secs`.
proof fn lemma_named_kept(
    d1: Seq<Seq<u8>>,
    d2: Seq<Seq<u8>>,
    secs: Seq<SectorId>,
    secs2: Seq<SectorId>,
    bound: int,
    p2: int,
    q2: int,
    name: Seq<u8>,
)
    requires
        secs.len() <= secs2.len(),
        secs2.subrange(0, secs.len() as int) == secs,
        bound <= 16 * secs.len(),
        0 <= p2,
        0 <= q2 < 16,
        16 * p2 + q2 < bound,
        forall|j: int| 0 <= j < bound ==> #[trigger] slot_at(d2, pos_of(secs, j)) == slot_at(d1, pos_of(secs, j)),
        forall|i: int| 0 <= i < secs.len() ==> (#[trigger] d1[secs[i].0 as int]).len() == 512,
        forall|i: int| 0 <= i < secs.len() ==> (#[trigger] d2[secs[i].0 as int]).len() == 512,
    ensures
        named(d2, secs2, p2, q2, name) == named(d1, secs, p2, q2, name),
{
    let c = spec_checksum(name);
    assert(p2 < secs.len());
    assert(secs2[p2] == secs[p2]);
    let sb1 = d1[secs[p2].0 as int];
    let sb2 = d2[secs2[p2].0 as int];
    assert forall|k: int| 0 <= k <= q2 implies #[trigger] slot(sb2, k) == slot(sb1, k) by {
        let j = 16 * p2 + k;
        assert(j / 16 == p2 && j % 16 == k);
        assert(slot_at(d2, pos_of(secs, j)) == slot_at(d1, pos_of(secs, j)));
    }
    if visited(d1, secs, p2, q2) {
        assert forall|k: int| 0 <= k <= q2 implies status_of(#[trigger] slot(sb2, k)[0]) != DirEntryStatus::TailFree by {
            assert(slot(sb2, k) == slot(sb1, k));
        }
    }
    if visited(d2, secs2, p2, q2) {
        assert forall|k: int| 0 <= k <= q2 implies status_of(#[trigger] slot(sb1, k)[0]) != DirEntryStatus::TailFree by {
            assert(slot(sb2, k) == slot(sb1, k));
        }
    }
    assert(visited(d2, secs2, p2, q2) == visited(d1, secs, p2, q2));
    assert(candidate(d2, secs2, p2, q2, c) == candidate(d1, secs, p2, q2, c));
    lemma_back_run_same(sb1, sb2, q2, c);
    if p2 > 0 {
        assert(secs2[p2 - 1] == secs[p2 - 1]);
        let pb1 = d1[secs[p2 - 1].0 as int];
        let pb2 = d2[secs[p2 - 1].0 as int];
        assert forall|k: int| 0 <= k < 16 implies #[trigger] slot(pb1, k) == slot(pb2, k) by {
            let j = 16 * (p2 - 1) + k;
            assert(j / 16 == p2 - 1 && j % 16 == k);
            assert(slot_at(d2, pos_of(secs, j)) == slot_at(d1, pos_of(secs, j)));
        }
        lemma_sector_eq(pb1, pb2);
    }
    assert(slot_longs(d2, secs2, p2, q2, c) == slot_longs(d1, secs, p2, q2, c));
}


/// A scan meets no slot of the free tail before where it found room, and
/// none at all where it found none.
proof fn lemma_scan_no_tail(disk: Seq<Seq<u8>>, secs: Seq<SectorId>, n: int, i: int)
    ensures
        match scan(disk, secs, n, i).0 {
            None => forall|j: int| 0 <= j < i ==> #[trigger] status_at(disk, secs, j) != DirEntryStatus::TailFree,
            Some(Room::Run(at, _)) => forall|j: int| 0 <= j <= at ==> #[trigger] status_at(disk, secs, j) != DirEntryStatus::TailFree,
            Some(Room::Tail(at)) => forall|j: int| 0 <= j < at ==> #[trigger] status_at(disk, secs, j) != DirEntryStatus::TailFree,
            Some(Room::Full) => false,
        },
    decreases i,
{
    if i > 0 {
        lemma_scan_no_tail(disk, secs, n, i - 1);
    }
}

/// Where a scan found room, no slot before the room's first one marks the
/// free tail.
proof fn lemma_room_no_tail(disk: Seq<Seq<u8>>, secs: Seq<SectorId>, n: int)
    requires
        0 <= n,
    ensures
        forall|j: int| 0 <= j < room_start(room_of(disk, secs, n), n, secs.len() as int)
            ==> #[trigger] status_at(disk, secs, j) != DirEntryStatus::TailFree,
{
    lemma_scan_no_tail(disk, secs, n, 16 * (secs.len() as int));
}

/// A name's first byte, in upper case, neither ends a directory nor marks
/// a free slot, where the name's first byte does neither.
proof fn lemma_upper_occupied(b: u8)
    requires
        b != 0,
        b != 0xE5,
    ensures
        ascii_upper(b) != 0,
        ascii_upper(b) != 0xE5,
{
}

/// An ordinal of a long entry: never zero, and it marks the last part only
/// where the mark was set.
proof fn lemma_ord_bits(x: u8)
    requires
        1 <= x <= 31,
    ensures
        x & 0x40 == 0,
        (x | 0x40) & 0x40 == 0x40,
        x | 0x40 != 0,
{
    assert(x & 0x40 == 0) by (bit_vector)
        requires
            1 <= x <= 31;
    assert((x | 0x40) & 0x40 == 0x40) by (bit_vector);
    assert(x | 0x40 != 0) by (bit_vector);
}

/// The short form of a short form is itself.
proof fn lemma_short_name_idem(name: Seq<u8>)
    ensures
        short_name_of(short_name_of(name)) == short_name_of(name),
{
    let sn = short_name_of(name);
    assert(short_name_of(sn) =~= sn) by {
        assert forall|i: int| 0 <= i < 11 implies ascii_upper(sn[i]) == sn[i] by {}
    }
}

/// The bytes of the long entry `longs[i]` of an item carrying `name`:
/// a long entry with the name's checksum, the last part of the name only
/// for the first, and never a zero first byte.
proof fn lemma_carried_long(name: Seq<u8>, short: ShortDirEntry, longs: Seq<LongDirEntry>, i: int)
    requires
        carries_name(name, short, longs),
        longs.len() <= 31,
        0 <= i < longs.len(),
    ensures
        long_of(longs[i].spec_to_bytes(), spec_checksum(name)),
        is_long_slot(longs[i].spec_to_bytes()),
        last_part(longs[i].spec_to_bytes()) <==> i == 0,
        longs[i].spec_to_bytes()[0] != 0,
{
    lemma_long_bytes(longs[i]);
    let n = longs.len() as int;
    let k = n - 1 - i;
    if i == 0 {
        lemma_ord_bits(n as u8);
        assert(longs[i].ord == (n as u8) | 0x40);
    } else {
        lemma_ord_bits((k + 1) as u8);
        assert(longs[i].ord == (k + 1) as u8);
    }
}


/// Where recording put an item carrying `name` in a directory whose
/// sectors were `secs` on `d1` and are `secs2` on `d2`: its slots run from
/// directory slot `start` to its short entry at `start + n`, in that slot's
/// sector or from the one before; the slots before `start` kept their bytes
/// and none of them marks the free tail; no item had the name before.
spec fn laid_out(
    d1: Seq<Seq<u8>>,
    d2: Seq<Seq<u8>>,
    secs: Seq<SectorId>,
    secs2: Seq<SectorId>,
    name: Seq<u8>,
    short: ShortDirEntry,
    longs: Seq<LongDirEntry>,
    range: DirEntryRange,
    start: int,
) -> bool {
    let n = longs.len() as int;
    &&& 1 <= n <= 31
    &&& 0 <= start <= 16 * secs.len()
    &&& start + n < 16 * secs2.len()
    &&& start / 16 == (start + n) / 16 || start / 16 == (start + n) / 16 - 1
    &&& secs.len() <= secs2.len()
    &&& secs2.subrange(0, secs.len() as int) == secs
    &&& forall|a: int, b: int| 0 <= a < b < secs2.len() ==> secs2[a] != secs2[b]
    &&& forall|i: int| 0 <= i < secs.len() ==> (#[trigger] d1[secs[i].0 as int]).len() == 512
    &&& forall|i: int| 0 <= i < secs.len() ==> (#[trigger] d2[secs[i].0 as int]).len() == 512
    &&& forall|i: int| 0 <= i < secs2.len() ==> (#[trigger] d2[secs2[i].0 as int]).len() == 512
    &&& forall|j: int| start <= j < start + n ==> #[trigger] slot_at(d2, pos_of(secs2, j)) == longs[j - start].spec_to_bytes()
    &&& slot_at(d2, pos_of(secs2, start + n)) == short.spec_to_bytes()
    &&& pos_of(secs2, start + n) == range.short
    &&& range_slots(range).len() == n + 1
    &&& forall|i: int| 0 <= i <= n ==> #[trigger] range_slots(range)[i] == pos_of(secs2, start + i)
    &&& forall|j: int| 0 <= j < start ==> #[trigger] slot_at(d2, pos_of(secs2, j)) == slot_at(d1, pos_of(secs, j))
    &&& forall|j: int| 0 <= j < start ==> #[trigger] slot_at(d2, pos_of(secs, j)) == slot_at(d1, pos_of(secs, j))
    &&& forall|j: int| 0 <= j < start ==> #[trigger] status_at(d1, secs, j) != DirEntryStatus::TailFree
    &&& forall|p: int, q: int| !#[trigger] named(d1, secs, p, q, name)
}

/// Recording an item lays it out as [`laid_out`] says, from the slot where
/// the scan found room.
#[verifier::rlimit(100)]
#[verifier::spinoff_prover]
proof fn lemma_record_layout<D: BlockDevice>(
    dir: Inode,
    before: FatFileSystem<D>,
    after: FatFileSystem<D>,
    name: Seq<u8>,
    short: ShortDirEntry,
    longs: Seq<LongDirEntry>,
    range: DirEntryRange,
) -> (start: int)
    requires
        before.wf(),
        after.wf(),
        after.data_area == before.data_area,
        dir.can_record(before, name, longs.len() as int),
        dir.recorded(before, after, name, short, longs, Ok(range)),
        name.len() > 0,
        longs.len() == long_count(name.len() as int),
    ensures
        laid_out(before.sectors(), after.sectors(), dir.dir_sectors(before), dir.dir_sectors(after), name, short, longs, range, start),
{
    let d1 = before.sectors();
    let d2 = after.sectors();
    let secs = dir.dir_sectors(before);
    let secs2 = dir.dir_sectors(after);
    let n = longs.len() as int;
    let room = room_of(d1, secs, n);
    let start = room_start(room, n, secs.len() as int);
    reveal(placed_at);
    reveal(kept_slots);
    before.cache.lemma_wf_view();
    after.cache.lemma_wf_view();
    crate::fat::range::lemma_range_slots(range);
    lemma_room_in_dir(d1, secs, n);
    lemma_room_no_tail(d1, secs, n);
    assert(n >= 1);
    assert(room_fits(room, n));
    crate::fat::control::lemma_chain_sectors_in_area(before.data_area, before.chain(dir.start_id));
    crate::fat::control::lemma_chain_sectors_in_area(after.data_area, after.chain(dir.start_id));
    assert(after.good_chain(dir.start_id));
    assert forall|a: int, b: int| 0 <= a < b < secs2.len() implies secs2[a] != secs2[b] by {
        lemma_secs_distinct(after, dir.start_id, a, b);
    }
    assert(secs.len() <= secs2.len()) by {
        let c1 = before.chain(dir.start_id);
        let c2 = after.chain(dir.start_id);
        crate::fat::control::lemma_chain_sectors_len(before.data_area, c1);
        crate::fat::control::lemma_chain_sectors_len(after.data_area, c2);
        if crate::fat::create::room_grows(room, n, secs.len() as int) {
            assert(c2.len() == c1.len() + 1);
            assert(c1.len() * before.data_area.cluster_sectors <= c2.len() * before.data_area.cluster_sectors) by (nonlinear_arith)
                requires
                    c2.len() == c1.len() + 1,
                    before.data_area.cluster_sectors > 0,
            ;
        }
    }
    assert forall|i: int| 0 <= i < secs.len() implies secs2[i] == secs[i] by {
        assert(secs2.subrange(0, secs.len() as int)[i] == secs2[i]);
    }
    assert forall|i: int| 0 <= i < secs.len() implies (#[trigger] d2[secs[i].0 as int]).len() == 512 by {
        assert(secs2[i] == secs[i]);
    }
    assert(range_slots(range)[n] == range.short);
    assert forall|j: int| start <= j < start + n implies #[trigger] slot_at(d2, pos_of(secs2, j)) == longs[j - start].spec_to_bytes() by {
        let i = j - start;
        assert(range_slots(range)[i] == pos_of(secs2, start + i));
        assert(slot_at(d2, range_slots(range)[i]) == longs[i].spec_to_bytes());
    }
    assert forall|j: int| 0 <= j < start implies #[trigger] slot_at(d2, pos_of(secs2, j)) == slot_at(d1, pos_of(secs, j)) by {
        assert(secs2[j / 16] == secs[j / 16]);
        assert(slot_at(d2, pos_of(secs, j)) == slot_at(d1, pos_of(secs, j)));
    }
    start
}

/// The slots of the sector of directory slot `16 * p`, by directory slot.
proof fn lemma_sector_slots(d: Seq<Seq<u8>>, secs: Seq<SectorId>, p: int)
    ensures
        forall|k: int| 0 <= k < 16 ==> #[trigger] slot(d[secs[p].0 as int], k) == slot_at(d, pos_of(secs, 16 * p + k)),
{
    assert forall|k: int| 0 <= k < 16 implies #[trigger] slot(d[secs[p].0 as int], k) == slot_at(d, pos_of(secs, 16 * p + k)) by {
        assert((16 * p + k) / 16 == p && (16 * p + k) % 16 == k);
    }
}

/// The item laid out from `start` is a candidate for its name's checksum
/// at its short entry: reached, in use, a short entry, with that checksum.
proof fn lemma_found_candidate(
    d1: Seq<Seq<u8>>,
    d2: Seq<Seq<u8>>,
    secs: Seq<SectorId>,
    secs2: Seq<SectorId>,
    name: Seq<u8>,
    short: ShortDirEntry,
    longs: Seq<LongDirEntry>,
    range: DirEntryRange,
    start: int,
)
    requires
        laid_out(d1, d2, secs, secs2, name, short, longs, range, start),
        carries_name(name, short, longs),
        name.len() > 0,
        name[0] != 0,
        name[0] != 0xE5,
    ensures
        candidate(d2, secs2, (start + longs.len()) / 16, (start + longs.len()) % 16, spec_checksum(name)),
{
    let n = longs.len() as int;
    let sl = start + n;
    let p = sl / 16;
    let q = sl % 16;
    let sb = d2[secs2[p].0 as int];
    lemma_sector_slots(d2, secs2, p);
    lemma_short_bytes(short);
    lemma_short_name_idem(name);
    lemma_upper_occupied(name[0]);
    assert(16 * p + q == sl);
    assert(slot(sb, q) == short.spec_to_bytes());
    assert(short.spec_to_bytes()[0] == ascii_upper(name[0]));
    assert forall|k: int| 0 <= k <= q implies status_of(#[trigger] slot(sb, k)[0]) != DirEntryStatus::TailFree by {
        let j = 16 * p + k;
        assert(slot(sb, k) == slot_at(d2, pos_of(secs2, j)));
        if j >= start {
            if j < sl {
                lemma_carried_long(name, short, longs, j - start);
            }
        } else {
            assert(slot_at(d2, pos_of(secs2, j)) == slot_at(d1, pos_of(secs, j)));
            assert(status_at(d1, secs, j) != DirEntryStatus::TailFree);
            assert(j / 16 == p && j % 16 == k);
        }
    }
    assert(visited(d2, secs2, p, q));
}

/// Where a lookup finds the last long entry of an item laid out from
/// directory slot `start` with `n` long entries.
spec fn found_end(secs2: Seq<SectorId>, start: int, n: int) -> crate::fat::inode::DirEntryPos {
    if start / 16 == (start + n) / 16 {
        crate::fat::inode::DirEntryPos { sector: secs2[(start + n) / 16], nth: (start % 16) as usize }
    } else {
        crate::fat::inode::DirEntryPos { sector: secs2[(start + n) / 16 - 1], nth: (start % 16) as usize }
    }
}

/// Walking back from the short entry of an item laid out from `start`
/// meets its long entries, nearest first, and stops at its first slot.
#[verifier::rlimit(60)]
proof fn lemma_found_longs(
    d1: Seq<Seq<u8>>,
    d2: Seq<Seq<u8>>,
    secs: Seq<SectorId>,
    secs2: Seq<SectorId>,
    name: Seq<u8>,
    short: ShortDirEntry,
    longs: Seq<LongDirEntry>,
    range: DirEntryRange,
    start: int,
)
    requires
        laid_out(d1, d2, secs, secs2, name, short, longs, range, start),
        carries_name(name, short, longs),
    ensures
        slot_longs(d2, secs2, (start + longs.len()) / 16, (start + longs.len()) % 16, spec_checksum(name)) == Some((
            Seq::new(longs.len() as nat, |k: int| longs[longs.len() - 1 - k].spec_to_bytes()),
            found_end(secs2, start, longs.len() as int),
        )),
{
    let n = longs.len() as int;
    let c = spec_checksum(name);
    let sl = start + n;
    let p = sl / 16;
    let q = sl % 16;
    let sb = d2[secs2[p].0 as int];
    let run = Seq::new(n as nat, |k: int| longs[n - 1 - k].spec_to_bytes());
    lemma_sector_slots(d2, secs2, p);
    assert forall|i: int| 0 <= i < n implies long_of(#[trigger] longs[i].spec_to_bytes(), c)
        && (last_part(longs[i].spec_to_bytes()) <==> i == 0) by {
        lemma_carried_long(name, short, longs, i);
    }
    if start / 16 == p {
        assert forall|k: int| 1 <= k <= n implies #[trigger] slot(sb, q - k) == longs[n - k].spec_to_bytes() by {
            assert(slot(sb, q - k) == slot_at(d2, pos_of(secs2, 16 * p + (q - k))));
            assert(16 * p + (q - k) == start + (n - k));
        }
        assert forall|k: int| 1 <= k <= n implies long_of(#[trigger] slot(sb, q - k), c) by {
            assert(slot(sb, q - k) == longs[n - k].spec_to_bytes());
        }
        assert forall|k: int| 1 <= k < n implies !last_part(#[trigger] slot(sb, q - k)) by {
            assert(slot(sb, q - k) == longs[n - k].spec_to_bytes());
        }
        assert(slot(sb, q - n) == longs[0].spec_to_bytes());
        lemma_back_run_stop(sb, q, c, n);
        assert(Seq::new(n as nat, |k: int| slot(sb, q - 1 - k)) =~= run) by {
            assert forall|k: int| 0 <= k < n implies slot(sb, q - 1 - k) == run[k] by {
                assert(slot(sb, q - (k + 1)) == longs[n - (k + 1)].spec_to_bytes());
            }
        }
        assert(q - n == start % 16);
    } else {
        assert forall|k: int| 0 <= k < q implies #[trigger] slot(sb, k) == longs[16 * p + k - start].spec_to_bytes() by {
            assert(slot(sb, k) == slot_at(d2, pos_of(secs2, 16 * p + k)));
        }
        assert forall|k: int| 0 <= k < q implies long_of(#[trigger] slot(sb, k), c) && !last_part(slot(sb, k)) by {
            assert(slot(sb, k) == longs[16 * p + k - start].spec_to_bytes());
        }
        lemma_back_run_none(sb, q, c);
        let e = start % 16;
        let sbp = d2[secs2[p - 1].0 as int];
        lemma_sector_slots(d2, secs2, p - 1);
        assert forall|k: int| e <= k < 16 implies #[trigger] slot(sbp, k) == longs[k - e].spec_to_bytes() by {
            assert(slot(sbp, k) == slot_at(d2, pos_of(secs2, 16 * (p - 1) + k)));
            assert(16 * (p - 1) + k == start + (k - e));
        }
        assert(long_of(slot(sbp, e), c) && last_part(slot(sbp, e)));
        assert forall|k: int| e < k < 16 implies !(long_of(#[trigger] slot(sbp, k), c) && last_part(slot(sbp, k))) by {
            assert(slot(sbp, k) == longs[k - e].spec_to_bytes());
        }
        lemma_rlast(sbp, c, e, 16);
        let back = Seq::new(q as nat, |k: int| slot(sb, q - 1 - k));
        assert(back + crate::fat::inode::tail_slots(sbp, e) =~= run) by {
            assert forall|k: int| 0 <= k < n implies (back + crate::fat::inode::tail_slots(sbp, e))[k] == run[k] by {
                if k < q {
                    assert(slot(sb, q - 1 - k) == longs[16 * p + (q - 1 - k) - start].spec_to_bytes());
                } else {
                    assert(slot(sbp, 15 - (k - q)) == longs[15 - (k - q) - e].spec_to_bytes());
                }
            }
        }
    }
}

/// No slot before the short entry of an item laid out from `start` holds
/// an item named `name`: its own slots hold long entries, and the earlier
/// ones read as before, when no item had the name.
proof fn lemma_found_first(
    d1: Seq<Seq<u8>>,
    d2: Seq<Seq<u8>>,
    secs: Seq<SectorId>,
    secs2: Seq<SectorId>,
    name: Seq<u8>,
    short: ShortDirEntry,
    longs: Seq<LongDirEntry>,
    range: DirEntryRange,
    start: int,
)
    requires
        laid_out(d1, d2, secs, secs2, name, short, longs, range, start),
        carries_name(name, short, longs),
    ensures
        forall|p2: int, q2: int| slot_before(p2, q2, (start + longs.len()) / 16, (start + longs.len()) % 16)
            ==> !#[trigger] named(d2, secs2, p2, q2, name),
{
    let n = longs.len() as int;
    let sl = start + n;
    assert forall|p2: int, q2: int| slot_before(p2, q2, sl / 16, sl % 16) implies !#[trigger] named(d2, secs2, p2, q2, name) by {
        if 0 <= p2 < secs2.len() && 0 <= q2 < 16 {
            let j2 = 16 * p2 + q2;
            if j2 >= start {
                lemma_sector_slots(d2, secs2, p2);
                assert(slot(d2[secs2[p2].0 as int], q2) == slot_at(d2, pos_of(secs2, j2)));
                lemma_carried_long(name, short, longs, j2 - start);
                assert(slot(d2[secs2[p2].0 as int], q2) == longs[j2 - start].spec_to_bytes());
            } else {
                lemma_named_kept(d1, d2, secs, secs2, start, p2, q2, name);
            }
        }
    }
}

/// An item that [`Inode::create`] recorded under `name` is the first item of
/// the directory with that name: a lookup of the name right after meets it
/// at its short entry, over the slots it was recorded in.
pub proof fn lemma_created_found<D: BlockDevice>(
    dir: Inode,
    before: FatFileSystem<D>,
    after: FatFileSystem<D>,
    name: Seq<u8>,
    short: ShortDirEntry,
    longs: Seq<LongDirEntry>,
    range: DirEntryRange,
)
    requires
        before.wf(),
        after.wf(),
        after.data_area == before.data_area,
        dir.can_record(before, name, longs.len() as int),
        dir.recorded(before, after, name, short, longs, Ok(range)),
        carries_name(name, short, longs),
        forall|k: int| 0 <= k < name.len() ==> name[k] != 0,
        name.len() > 0,
        name[0] != 0xE5,
    ensures
        exists|p: int| {
            &&& 0 <= p < dir.dir_sectors(after).len()
            &&& dir.dir_sectors(after)[p] == range.short.sector
            &&& #[trigger] first_named(after.sectors(), dir.dir_sectors(after), name, p, range.short.nth as int)
            &&& inode_at(after.sectors(), dir.dir_sectors(after), p, range.short.nth as int, spec_checksum(name)).range.short
                == range.short
            &&& range_slots(inode_at(after.sectors(), dir.dir_sectors(after), p, range.short.nth as int, spec_checksum(name)).range)
                == range_slots(range)
        },
{
    let start = lemma_record_layout(dir, before, after, name, short, longs, range);
    let d1 = before.sectors();
    let d2 = after.sectors();
    let secs = dir.dir_sectors(before);
    let secs2 = dir.dir_sectors(after);
    let n = longs.len() as int;
    let sl = start + n;
    let p = sl / 16;
    let q = sl % 16;
    let c = spec_checksum(name);
    let run = Seq::new(n as nat, |k: int| longs[n - 1 - k].spec_to_bytes());
    lemma_found_candidate(d1, d2, secs, secs2, name, short, longs, range, start);
    lemma_found_longs(d1, d2, secs, secs2, name, short, longs, range, start);
    assert(crate::fat::inode::longs_are(longs.reverse(), run));
    crate::fat::inode::lemma_longs_bytes(longs.reverse(), run);
    crate::fat::dir_entry::lemma_long_name_roundtrip(name, longs);
    assert(named(d2, secs2, p, q, name));
    lemma_found_first(d1, d2, secs, secs2, name, short, longs, range, start);
    assert(first_named(d2, secs2, name, p, q));
    assert(secs2[p] == range.short.sector && q == range.short.nth);
    let found = inode_at(d2, secs2, p, q, c);
    assert(found.range.last_long == found_end(secs2, start, n));
    assert(range_slots(found.range) =~= range_slots(range)) by {
        if start / 16 != p {
            assert(secs2[p - 1] != secs2[p]);
        }
        assert forall|i: int| 0 <= i <= n implies range_slots(found.range)[i] == range_slots(range)[i] by {
            assert(range_slots(range)[i] == pos_of(secs2, start + i));
        }
    }
}

} // verus!
