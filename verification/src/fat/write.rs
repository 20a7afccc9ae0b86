//! Writing a file of a FAT volume: growing its chain by whole clusters,
//! then writing its sectors.

use vstd::prelude::*;

use crate::block_dev::BlockDevice;
use crate::fat::cluster::ClusterId;
use crate::fat::control::{chain_in_area, chain_sectors, FatFileSystem};
use crate::fat::fs_info::FS_INFO_SECTOR;
use crate::fat::grow::{lemma_chain_last, lemma_chain_same, lemma_chain_unique, lemma_entries_kept, lemma_outside_pushed, lemma_room_frame};
use crate::fat::inode::{chain_byte, io_count, io_stop, lemma_chunk_pos, sectors_for, size_at, slot, with_size, Inode, SECTOR_SLOTS};
use crate::fat::sector::{sync_all, SectorId};
use crate::fat::table::is_chain;

verus! {

/// Clusters a write ending at byte `end` adds to a file of `size` bytes,
/// with `cs` sectors a cluster: the sectors past the size, in whole clusters.
pub open spec fn clusters_added(size: int, end: int, cs: int) -> int {
    if end > size {
        let s = sectors_for(end - size);
        s / cs + if s % cs == 0 { 0int } else { 1int }
    } else {
        0
    }
}

/// `disk` holds the first `r` bytes of `data` as the bytes of the file
/// whose chain has the sectors `secs`, from byte `offset` on.
pub open spec fn holds_bytes(disk: Seq<Seq<u8>>, secs: Seq<SectorId>, offset: int, data: Seq<u8>, r: int) -> bool {
    forall|k: int| 0 <= k < r ==> #[trigger] chain_byte(disk, secs, offset + k) == data[k]
}

/// Writes `buf` as the bytes of the file whose chain has the sectors
/// `secs` from byte `offset` on, none past the chain's last sector;
/// answers the bytes written.
fn write_sectors<D: BlockDevice>(fs: &mut FatFileSystem<D>, secs: &Vec<SectorId>, buf: &[u8], offset: usize) -> (r: usize)
    requires
        old(fs).wf(),
        forall|i: int| 0 <= i < secs@.len() ==> old(fs).fat.end() <= (#[trigger] secs@[i]).0 < old(fs).sectors().len(),
        forall|i: int, j: int| 0 <= i < j < secs@.len() ==> #[trigger] secs@[i] != #[trigger] secs@[j],
        offset + buf@.len() <= usize::MAX,
    ensures
        final(fs).wf(),
        final(fs).bpb == old(fs).bpb,
        final(fs).fat == old(fs).fat,
        final(fs).data_area == old(fs).data_area,
        final(fs).sectors().len() == old(fs).sectors().len(),
        r == io_count(offset as int, offset + buf@.len(), secs@.len() as int),
        holds_bytes(final(fs).sectors(), secs@, offset as int, buf@, r as int),
        forall|s: int| 0 <= s < old(fs).fat.end() ==> #[trigger] final(fs).sectors()[s] == old(fs).sectors()[s],
        forall|t: int| 0 <= t < old(fs).sectors().len() && (forall|j: int| 0 <= j < secs@.len() ==> (#[trigger] secs@[j]).0 != t)
            ==> #[trigger] final(fs).sectors()[t] == old(fs).sectors()[t],
{
    let ghost d0 = fs.sectors();
    proof { fs.cache.lemma_wf_view(); }
    let end = offset + buf.len();
    let stop = io_stop(end, secs.len());
    let mut pos: usize = offset;
    let mut done: usize = 0;
    while pos < stop
        invariant
            fs.wf(),
            fs.bpb == old(fs).bpb,
            fs.fat == old(fs).fat,
            fs.data_area == old(fs).data_area,
            fs.sectors().len() == d0.len(),
            d0 == old(fs).sectors(),
            crate::block_dev::blocks_wf(fs.sectors()),
            forall|j: int| 0 <= j < secs@.len() ==> old(fs).fat.end() <= (#[trigger] secs@[j]).0 < d0.len(),
            forall|a: int, b: int| 0 <= a < b < secs@.len() ==> #[trigger] secs@[a] != #[trigger] secs@[b],
            end == offset + buf@.len(),
            stop == if end < 512 * secs@.len() { end as int } else { 512 * secs@.len() as int },
            stop <= end,
            pos == offset + done,
            pos <= stop || done == 0,
            forall|k: int| 0 <= k < done ==> #[trigger] chain_byte(fs.sectors(), secs@, offset + k) == buf@[k],
            forall|s: int| 0 <= s < old(fs).fat.end() ==> #[trigger] fs.sectors()[s] == d0[s],
            forall|t: int| 0 <= t < d0.len() && (forall|j: int| 0 <= j < secs@.len() ==> (#[trigger] secs@[j]).0 != t)
                ==> #[trigger] fs.sectors()[t] == d0[t],
        decreases stop - pos,
    {
        let i = pos / 512;
        let a = pos % 512;
        let b = if stop - 512 * i < 512 { stop - 512 * i } else { 512 };
        let n = b - a;
        assert(i < secs@.len());
        let mut chunk: Vec<u8> = Vec::new();
        let mut k: usize = 0;
        while k < n
            invariant
                k <= n,
                done + n <= buf@.len(),
                buf@.len() == buf.len(),
                chunk@.len() == k,
                forall|j: int| 0 <= j < k ==> #[trigger] chunk@[j] == buf@[done + j],
            decreases n - k,
        {
            chunk.push(buf[done + k]);
            k = k + 1;
        }
        let ghost before = fs.sectors();
        let sid = secs[i].0;
        proof { fs.cache.lemma_wf_view(); }
        fs.cache.write(sid, a, chunk.as_slice());
        proof {
            fs.cache.lemma_wf_view();
            let s = sid as int;
            assert(before[s].len() == 512);
            assert(fs.sectors()[s] == crate::block_cache::splice(before[s], a as int, chunk@));
            assert forall|kk: int| 0 <= kk < done + n implies #[trigger] chain_byte(fs.sectors(), secs@, offset + kk) == buf@[kk] by {
                let q = offset + kk;
                if kk < done {
                    assert(chain_byte(before, secs@, q) == buf@[kk]);
                    vstd::arithmetic::div_mod::lemma_fundamental_div_mod(q, 512);
                    vstd::arithmetic::div_mod::lemma_fundamental_div_mod(pos as int, 512);
                    let sq = secs@[q / 512];
                    if sq == secs@[i as int] {
                        assert(q / 512 == i) by {
                            if q / 512 != i as int {
                                if q / 512 < i { assert(secs@[q / 512] != secs@[i as int]); } else { assert(secs@[i as int] != secs@[q / 512]); }
                            }
                        }
                        assert(q % 512 < a);
                        assert(fs.sectors()[s][q % 512] == before[s][q % 512]);
                    } else {
                        assert(sq.0 != sid);
                        assert(fs.sectors()[sq.0 as int] == before[sq.0 as int]);
                    }
                } else {
                    lemma_chunk_pos(pos as int, i as int, a as int, kk - done);
                    assert(chunk@[kk - done] == buf@[kk]);
                    assert(fs.sectors()[s][a + (kk - done)] == chunk@[kk - done]);
                }
            }
            assert forall|t: int| 0 <= t < d0.len() && (forall|j: int| 0 <= j < secs@.len() ==> (#[trigger] secs@[j]).0 != t)
                implies #[trigger] fs.sectors()[t] == d0[t] by {
                assert(secs@[i as int].0 != t);
            }
        }
        done = done + n;
        pos = pos + n;
    }
    done
}

impl Inode {
    /// Sectors the file's chain has; none where it has no chain.
    pub open spec fn file_sectors<D: BlockDevice>(&self, fs: FatFileSystem<D>) -> int {
        if self.start_id.0 != 0 { self.dir_sectors(fs).len() as int } else { 0 }
    }

    /// Clusters the chain of the file has; none where it has no chain.
    pub open spec fn file_clusters<D: BlockDevice>(&self, fs: FatFileSystem<D>) -> int {
        if self.start_id.0 != 0 { fs.chain(self.start_id).len() as int } else { 0 }
    }
}

impl Inode {
    /// Grows the file's chain by the clusters a write ending at `end` needs
    /// past `size` bytes; an empty file takes its first cluster, recorded
    /// in its short entry.
    #[verifier::rlimit(100)]
    #[verifier::spinoff_prover]
    fn expand<D: BlockDevice>(&mut self, fs: &mut FatFileSystem<D>, size: usize, end: usize)
        requires
            old(fs).wf(),
            old(self).entry_fits(*old(fs)),
            old(fs).fat.end() <= old(fs).data_area.start() <= old(self).range.short.sector.0,
            old(self).start_id.0 != 0 ==> old(fs).good_chain(old(self).start_id),
            size < end,
            old(fs).room(clusters_added(size as int, end as int, old(fs).data_area.cluster_sectors as int)),
        ensures
            final(fs).wf(),
            final(fs).bpb == old(fs).bpb,
            final(fs).fat == old(fs).fat,
            final(fs).data_area == old(fs).data_area,
            final(fs).sectors().len() == old(fs).sectors().len(),
            final(self).range == old(self).range,
            final(self).ty == old(self).ty,
            old(self).start_id.0 != 0 ==> final(self).start_id == old(self).start_id,
            final(self).start_id.0 != 0,
            final(fs).good_chain(final(self).start_id),
            final(self).file_clusters(*final(fs)) == old(self).file_clusters(*old(fs))
                + clusters_added(size as int, end as int, old(fs).data_area.cluster_sectors as int),
            old(self).start_id.0 != 0 ==> final(fs).chain(final(self).start_id).subrange(0, old(fs).chain(old(self).start_id).len() as int)
                == old(fs).chain(old(self).start_id),
            forall|t: int| 0 <= t < old(fs).sectors().len() && t != FS_INFO_SECTOR && !(old(fs).fat.start() <= t < old(fs).fat.end())
                && t != old(self).range.short.sector.0
                && (forall|j: int| 0 <= j < final(self).dir_sectors(*final(fs)).len() ==> (#[trigger] final(self).dir_sectors(*final(fs))[j]).0 != t)
                ==> #[trigger] final(fs).sectors()[t] == old(fs).sectors()[t],
    {
        let x = end - size;
        let added_sectors = x / 512 + if x % 512 == 0 { 0 } else { 1 };
        let cs = fs.data_area.cluster_sectors;
        let mut added = added_sectors / cs + if added_sectors % cs == 0 { 0 } else { 1 };
        let ghost total = added as int;
        proof {
            assert(added_sectors == sectors_for(x as int));
            assert(total == clusters_added(size as int, end as int, cs as int));
            assert(added >= 1) by {
                let a = added_sectors as int;
                let d = cs as int;
                vstd::arithmetic::div_mod::lemma_fundamental_div_mod(a, d);
                if a / d == 0 {
                    assert(a % d == a) by (nonlinear_arith)
                        requires
                            a == d * (a / d) + a % d,
                            a / d == 0,
                    ;
                }
            }
            fs.cache.lemma_wf_view();
        }
        let ghost old_c: Seq<u32> = if self.start_id.0 != 0 { fs.chain(self.start_id) } else { Seq::empty() };
        let ghost mut c: Seq<u32> = old_c;
        let mut current = if self.start_id.0 == 0 {
            added = added - 1;
            let (id, _sectors) = fs.take_cluster(Ghost(total));
            let ghost f1 = *fs;
            self.start_id = id;
            proof { fs.cache.lemma_wf_view(); }
            let mut short = self.range.short.access(&mut fs.cache);
            short.set_cluster_id(id);
            self.range.short.access_mut(&mut fs.cache, &short);
            proof {
                fs.cache.lemma_wf_view();
                let d1 = f1.sectors();
                assert(fat_entry_eof(d1, fs.fat, id.0));
                assert(is_chain(d1, fs.fat, id, seq![id.0]));
                lemma_entries_kept(d1, fs.sectors(), fs.fat);
                lemma_chain_same(d1, fs.sectors(), fs.fat, id, seq![id.0]);
                lemma_room_frame(f1, *fs, total - 1);
                c = seq![id.0];
                let data = fs.data_area;
                assert(Seq::<u32>::empty().push(id.0) =~= c);
                assert(fs.fat.start() + id.0 / 128 < fs.fat.end());
                assert forall|t: int| 0 <= t < old(fs).sectors().len() && t != FS_INFO_SECTOR && !(old(fs).fat.start() <= t < old(fs).fat.end())
                    && t != old(self).range.short.sector.0
                    && (forall|j: int| 0 <= j < chain_sectors(data, c).len() ==> (#[trigger] chain_sectors(data, c)[j]).0 != t)
                    implies #[trigger] fs.sectors()[t] == old(fs).sectors()[t] by {
                    lemma_outside_pushed(data, Seq::<u32>::empty(), id.0, t);
                    assert(d1[t] == old(fs).sectors()[t]);
                }
            }
            id
        } else {
            proof {
                assert(is_chain(fs.sectors(), fs.fat, self.start_id, c));
                lemma_chain_last(fs.sectors(), fs.fat, self.start_id, c);
            }
            let ghost f0 = *fs;
            let l = match fs.fat.last(&mut fs.cache, self.start_id) {
                Ok(l) => l,
                Err(_) => {
                    proof { assert(false); }
                    return;
                },
            };
            proof {
                lemma_entries_kept(f0.sectors(), fs.sectors(), fs.fat);
                lemma_room_frame(f0, *fs, total);
                assert(c.subrange(0, old_c.len() as int) =~= old_c);
            }
            l
        };
        let mut i: usize = 0;
        while i < added
            invariant
                fs.wf(),
                fs.bpb == old(fs).bpb,
                fs.fat == old(fs).fat,
                fs.data_area == old(fs).data_area,
                fs.sectors().len() == old(fs).sectors().len(),
                self.range == old(self).range,
                self.ty == old(self).ty,
                old(self).start_id.0 != 0 ==> self.start_id == old(self).start_id,
                self.start_id.0 != 0,
                i <= added,
                added <= total,
                fs.room(added - i),
                is_chain(fs.sectors(), fs.fat, self.start_id, c),
                chain_in_area(fs.data_area, c),
                current.0 == c.last(),
                c.len() == old_c.len() + total - added + i,
                c.subrange(0, old_c.len() as int) == old_c,
                old_c == (if old(self).start_id.0 != 0 { old(fs).chain(old(self).start_id) } else { Seq::empty() }),
                forall|t: int| 0 <= t < old(fs).sectors().len() && t != FS_INFO_SECTOR && !(old(fs).fat.start() <= t < old(fs).fat.end())
                    && t != old(self).range.short.sector.0
                    && (forall|j: int| 0 <= j < chain_sectors(fs.data_area, c).len() ==> (#[trigger] chain_sectors(fs.data_area, c)[j]).0 != t)
                    ==> #[trigger] fs.sectors()[t] == old(fs).sectors()[t],
            decreases added - i,
        {
            let ghost d_prev = fs.sectors();
            let next = fs.append_cluster(current, Ghost(self.start_id), Ghost(c), Ghost((added - i) as int));
            proof {
                let c0 = c;
                c = c.push(next.0);
                assert(c.subrange(0, old_c.len() as int) =~= c0.subrange(0, old_c.len() as int));
                let data = fs.data_area;
                assert(2 <= c[c0.len() as int] && data.cluster_start(c[c0.len() as int]) + data.cluster_sectors <= data.end());
                assert forall|t: int| 0 <= t < old(fs).sectors().len() && t != FS_INFO_SECTOR && !(old(fs).fat.start() <= t < old(fs).fat.end())
                    && t != old(self).range.short.sector.0
                    && (forall|j: int| 0 <= j < chain_sectors(data, c).len() ==> (#[trigger] chain_sectors(data, c)[j]).0 != t)
                    implies #[trigger] fs.sectors()[t] == old(fs).sectors()[t] by {
                    lemma_outside_pushed(data, c0, next.0, t);
                    assert(d_prev[t] == old(fs).sectors()[t]);
                }
            }
            current = next;
            i = i + 1;
        }
        proof {
            let ch = fs.chain(self.start_id);
            lemma_chain_unique(fs.sectors(), fs.fat, self.start_id, ch, c);
            assert(self.dir_sectors(*fs) == chain_sectors(fs.data_area, c));
        }
    }
}

impl Inode {
    /// What [`Inode::write_at`] did, from `before` to `after`, writing
    /// `data` at byte `offset` of the file, once `self` and now `self2`,
    /// and answering `r`: the chain grew by the clusters the bytes past the
    /// size needed, the data lay in its sectors (`mid`) before the size was
    /// recorded.
    pub open spec fn writes<D: BlockDevice>(
        &self,
        self2: Inode,
        before: FatFileSystem<D>,
        after: FatFileSystem<D>,
        offset: int,
        data: Seq<u8>,
        r: int,
    ) -> bool {
        let size = size_at(before.sectors(), self.range.short);
        let end = offset + data.len();
        let cs = before.data_area.cluster_sectors as int;
        let added = clusters_added(size, end, cs);
        let nsecs = self.file_sectors(before) + added * cs;
        &&& (end > size || self.start_id.0 != 0) ==> {
            &&& self2.start_id.0 != 0
            &&& after.good_chain(self2.start_id)
            &&& self2.file_sectors(after) == nsecs
            &&& self2.file_clusters(after) == self.file_clusters(before) + added
        }
        &&& self.start_id.0 != 0 ==> after.chain(self2.start_id).subrange(0, before.chain(self.start_id).len() as int)
            == before.chain(self.start_id)
        &&& r == io_count(offset, end, nsecs)
        &&& (end <= size && forall|i: int| 0 <= i < self2.dir_sectors(after).len()
            ==> #[trigger] self2.dir_sectors(after)[i] != self.range.short.sector) ==> size_at(after.sectors(), self.range.short) == size
        &&& forall|t: int| 0 <= t < before.sectors().len() && t != FS_INFO_SECTOR && !(before.fat.start() <= t < before.fat.end())
            && t != self.range.short.sector.0
            && (forall|j: int| 0 <= j < self2.dir_sectors(after).len() ==> (#[trigger] self2.dir_sectors(after)[j]).0 != t)
            ==> #[trigger] after.sectors()[t] == before.sectors()[t]
        &&& exists|mid: Seq<Seq<u8>>| {
            &&& #[trigger] holds_bytes(mid, self2.dir_sectors(after), offset, data, r)
            &&& crate::block_dev::blocks_wf(mid)
            &&& mid.len() == after.sectors().len()
            &&& after.sectors() == if end > size { with_size(mid, self.range.short, end as u32) } else { mid }
        }
    }
}

impl Inode {
    /// Writes `buf` at byte `offset` of the file: where the write ends past
    /// the file's size, first grows the chain by the clusters the bytes past
    /// the size need (an empty file takes its first cluster). Then writes
    /// the bytes from `offset` to the write's end (none past the chain's
    /// last sector), grows the recorded size to that end where it was
    /// smaller, and writes every cached sector back. Answers the bytes
    /// written.
    #[verifier::rlimit(60)]
    #[verifier::spinoff_prover]
    pub fn write_at<D: BlockDevice>(&mut self, offset: usize, buf: &[u8], fs: &mut FatFileSystem<D>) -> (r: usize)
        requires
            old(fs).wf(),
            old(self).entry_fits(*old(fs)),
            old(fs).fat.end() <= old(fs).data_area.start() <= old(self).range.short.sector.0,
            offset + buf@.len() <= usize::MAX,
            old(self).start_id.0 != 0 ==> old(fs).good_chain(old(self).start_id),
            ({
                let size = size_at(old(fs).sectors(), old(self).range.short);
                let end = offset + buf@.len();
                let cs = old(fs).data_area.cluster_sectors as int;
                let added = clusters_added(size, end, cs);
                &&& end > size ==> old(fs).room(added)
                &&& old(self).start_id.0 == 0 && end <= size ==> end == 0
            }),
        ensures
            final(fs).wf(),
            final(fs).bpb == old(fs).bpb,
            final(fs).fat == old(fs).fat,
            final(fs).data_area == old(fs).data_area,
            final(fs).cache.device_blocks() == final(fs).sectors(),
            final(self).range == old(self).range,
            final(self).ty == old(self).ty,
            old(self).start_id.0 != 0 ==> final(self).start_id == old(self).start_id,
            old(self).writes(*final(self), *old(fs), *final(fs), offset as int, buf@, r as int),
    {
        let ghost f0 = *fs;
        let ghost cs = fs.data_area.cluster_sectors as int;
        let short = self.range.short.access(&mut fs.cache);
        proof {
            vstd::bytes::lemma_auto_spec_u32_to_from_le_bytes();
            let b = short.spec_to_bytes();
            assert(b.subrange(28, 32) =~= vstd::bytes::spec_u32_to_le_bytes(short.file_size));
        }
        let file_size = short.size();
        let end = offset + buf.len();
        let ghost added = clusters_added(file_size as int, end as int, cs);
        let ghost s0 = *self;
        proof {
            if self.start_id.0 != 0 {
                crate::fat::control::lemma_chain_sectors_len(fs.data_area, fs.chain(self.start_id));
            }
            crate::fat::grow::lemma_entries_kept(f0.sectors(), fs.sectors(), fs.fat);
        }
        if end > file_size {
            proof {
                if self.start_id.0 != 0 {
                    crate::fat::grow::lemma_chain_same(f0.sectors(), fs.sectors(), fs.fat, self.start_id, f0.chain(self.start_id));
                    lemma_chain_unique(fs.sectors(), fs.fat, self.start_id, fs.chain(self.start_id), f0.chain(self.start_id));
                }
                lemma_room_frame(f0, *fs, added);
            }
            self.expand(fs, file_size, end);
        } else {
            proof {
                if self.start_id.0 != 0 {
                    crate::fat::grow::lemma_chain_same(f0.sectors(), fs.sectors(), fs.fat, self.start_id, f0.chain(self.start_id));
                    lemma_chain_unique(fs.sectors(), fs.fat, self.start_id, fs.chain(self.start_id), f0.chain(self.start_id));
                }
            }
        }
        let ghost f1 = *fs;
        let ghost c = fs.chain(self.start_id);
        proof {
            if end > file_size || self.start_id.0 != 0 {
                crate::fat::control::lemma_chain_sectors_len(fs.data_area, c);
                assert(c.len() * cs == s0.file_clusters(f0) * cs + added * cs) by (nonlinear_arith)
                    requires
                        c.len() == s0.file_clusters(f0) + added,
                ;
            }
        }
        let mut wrote: usize = 0;
        if end > 0 {
            let secs = fs.data_sectors(self.start_id);
            proof {
                crate::fat::control::lemma_chain_sectors_in_area(fs.data_area, c);
                assert(is_chain(fs.sectors(), fs.fat, self.start_id, c));
                assert forall|a: int, b: int| 0 <= a < b < secs@.len() implies #[trigger] secs@[a] != #[trigger] secs@[b] by {
                    crate::fat::control::lemma_chain_sectors_distinct(fs.data_area, c, a, b);
                }
                fs.cache.lemma_wf_view();
            }
            wrote = write_sectors(fs, &secs, buf, offset);
            proof {
                lemma_entries_kept(f1.sectors(), fs.sectors(), fs.fat);
                lemma_chain_same(f1.sectors(), fs.sectors(), fs.fat, self.start_id, c);
                lemma_chain_unique(fs.sectors(), fs.fat, self.start_id, fs.chain(self.start_id), c);
            }
        }
        let ghost mid = fs.sectors();
        let ghost f2 = *fs;
        proof { fs.cache.lemma_wf_view(); }
        if end > file_size {
            self.set_size(fs, end);
            proof {
                fs.cache.lemma_wf_view();
                assert forall|s: int| 0 <= s < fs.fat.end() implies #[trigger] fs.sectors()[s] == mid[s] by {}
                lemma_entries_kept(mid, fs.sectors(), fs.fat);
                lemma_chain_same(mid, fs.sectors(), fs.fat, self.start_id, c);
                lemma_chain_unique(fs.sectors(), fs.fat, self.start_id, fs.chain(self.start_id), c);
            }
        }
        proof { fs.cache.lemma_wf_view(); }
        sync_all(&mut fs.cache);
        proof {
            if end > file_size || s0.start_id.0 != 0 {
                assert(fs.chain(self.start_id) == c);
                assert(fs.good_chain(self.start_id));
            }
            assert(holds_bytes(mid, self.dir_sectors(*fs), offset as int, buf@, wrote as int));
            assert(crate::block_dev::blocks_wf(mid));
            assert(mid.len() == fs.sectors().len());
            if s0.start_id.0 != 0 && end <= file_size {
                assert(c =~= f0.chain(s0.start_id));
                assert(c.subrange(0, c.len() as int) =~= c);
            }
            assert forall|t: int| 0 <= t < f0.sectors().len() && t != FS_INFO_SECTOR && !(f0.fat.start() <= t < f0.fat.end())
                && t != s0.range.short.sector.0
                && (forall|j: int| 0 <= j < self.dir_sectors(*fs).len() ==> (#[trigger] self.dir_sectors(*fs)[j]).0 != t)
                implies #[trigger] fs.sectors()[t] == f0.sectors()[t] by {
                assert(mid[t] == f1.sectors()[t]);
                assert(f1.sectors()[t] == f0.sectors()[t]);
            }
            assert(s0.writes(*self, f0, *fs, offset as int, buf@, wrote as int));
        }
        wrote
    }
}

/// Reading a file at byte `offset` right after writing `data` there gives
/// back the bytes the write reports written, where the file's short entry
/// lies outside the file's own sectors: what a read gives back of a write.
pub proof fn lemma_write_then_read<D: BlockDevice>(
    file: Inode,
    file2: Inode,
    before: FatFileSystem<D>,
    after: FatFileSystem<D>,
    offset: int,
    data: Seq<u8>,
    r: int,
    buf: Seq<u8>,
    buf2: Seq<u8>,
    r2: int,
)
    requires
        file.writes(file2, before, after, offset, data, r),
        after.wf(),
        file2.range == file.range,
        file.range.short.nth < SECTOR_SLOTS,
        file.range.short.sector.0 < after.sectors().len(),
        file2.reads(after, offset, buf, buf2, r2),
        buf.len() == data.len(),
        0 <= offset,
        offset + data.len() <= u32::MAX,
        file.start_id.0 != 0 || offset + data.len() > size_at(before.sectors(), file.range.short) || data.len() == 0,
        forall|i: int| 0 <= i < file2.dir_sectors(after).len() ==> #[trigger] file2.dir_sectors(after)[i] != file.range.short.sector,
    ensures
        r2 == r,
        forall|k: int| 0 <= k < r ==> #[trigger] buf2[k] == data[k],
{
    let size = size_at(before.sectors(), file.range.short);
    let len = data.len() as int;
    let end = offset + len;
    let secs = file2.dir_sectors(after);
    if len == 0 {
        assert(r == 0);
        assert(r2 == 0);
    } else {
        let mid = choose|mid: Seq<Seq<u8>>| {
            &&& #[trigger] holds_bytes(mid, secs, offset, data, r)
            &&& crate::block_dev::blocks_wf(mid)
            &&& mid.len() == after.sectors().len()
            &&& after.sectors() == if end > size { with_size(mid, file.range.short, end as u32) } else { mid }
        };
        if end > size {
            vstd::bytes::lemma_auto_spec_u32_to_from_le_bytes();
            let sec = file.range.short.sector.0 as int;
            let sb = mid[sec];
            let sb2 = crate::block_cache::splice(sb, 32 * file.range.short.nth + 28, vstd::bytes::spec_u32_to_le_bytes(end as u32));
            assert(sb.len() == crate::BLOCK_SIZE);
            assert(slot(sb2, file.range.short.nth as int).subrange(28, 32) =~= vstd::bytes::spec_u32_to_le_bytes(end as u32));
            assert(size_at(after.sectors(), file.range.short) == end);
        } else {
            assert(size_at(after.sectors(), file.range.short) == size);
        }
        assert(after.good_chain(file2.start_id));
        assert(file2.file_sectors(after) == secs.len());
        crate::fat::control::lemma_chain_sectors_in_area(after.data_area, after.chain(file2.start_id));
        assert forall|k: int| 0 <= k < r implies #[trigger] buf2[k] == data[k] by {
            let q = offset + k;
            vstd::arithmetic::div_mod::lemma_fundamental_div_mod(q, 512);
            assert(0 <= q / 512 < secs.len());
            let s = secs[q / 512];
            assert(buf2[k] == chain_byte(after.sectors(), secs, q));
            assert(chain_byte(mid, secs, q) == data[k]);
            if end > size {
                assert(s != file.range.short.sector);
                assert(after.sectors()[s.0 as int] == mid[s.0 as int]);
            }
        }
    }
}

/// The FAT entry of cluster `k` ends a chain.
spec fn fat_entry_eof(disk: Seq<Seq<u8>>, fat: crate::fat::table::Fat, k: u32) -> bool {
    crate::fat::table::fat_entry(disk, fat.start(), k as int) == 0xFFFF_FFFF
}

} // verus!
