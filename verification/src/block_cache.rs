//! Block cache: blocks are copied into memory before they are read or
//! written, and dirty blocks go back to the device when they are synced or
//! evicted. A manager keeps at most [`BlockCacheManager::CAPACITY`] blocks.

use vstd::prelude::*;

use crate::block_dev::{blocks_wf, BlockDevice};
use crate::BLOCK_SIZE;
use vstd::bytes::{
    spec_u32_from_le_bytes, spec_u32_to_le_bytes, spec_u64_from_le_bytes, spec_u64_to_le_bytes,
    u32_from_le_bytes, u32_to_le_bytes, u64_from_le_bytes, u64_to_le_bytes,
};

verus! {

/// One block held in memory.
pub struct BlockCache {
    /// The cached bytes.
    data: Vec<u8>,
    /// Which block of the device they belong to.
    block_id: usize,
    /// Whether the bytes differ from what the device may hold.
    modified: bool,
}

impl View for BlockCache {
    type V = Seq<u8>;

    closed spec fn view(&self) -> Seq<u8> {
        self.data@
    }
}

impl BlockCache {
    /// The index of the cached block.
    pub closed spec fn id(&self) -> usize {
        self.block_id
    }

    /// Whether the cache holds writes not yet sent to the device.
    pub closed spec fn is_modified(&self) -> bool {
        self.modified
    }

    pub open spec fn wf(&self) -> bool {
        self@.len() == BLOCK_SIZE
    }

    /// Reads block `block_id` of the device into a new, clean cache.
    pub fn new<D: BlockDevice>(block_id: usize, block_device: &D) -> (c: Self)
        requires
            block_id < block_device.blocks().len(),
            blocks_wf(block_device.blocks()),
        ensures
            c.wf(),
            c@ == block_device.blocks()[block_id as int],
            c.id() == block_id,
            !c.is_modified(),
    {
        let mut data = crate::block_dev::zero_block();
        block_device.read_block(block_id, data.as_mut_slice());
        BlockCache { data, block_id, modified: false }
    }

    /// Writes the block back to the device if it was modified.
    pub fn sync<D: BlockDevice>(&mut self, block_device: &mut D)
        requires
            old(self).wf(),
            old(self).id() < old(block_device).blocks().len(),
        ensures
            final(self)@ == old(self)@,
            final(self).id() == old(self).id(),
            !final(self).is_modified(),
            final(block_device).blocks() == if old(self).is_modified() {
                old(block_device).blocks().update(old(self).id() as int, old(self)@)
            } else {
                old(block_device).blocks()
            },
    {
        if self.modified {
            self.modified = false;
            block_device.write_block(self.block_id, self.data.as_slice());
        }
    }

    /// The cached bytes from byte `count` to the end of the block.
    fn offset(&self, count: usize) -> (r: &[u8])
        requires
            self.wf(),
            count <= BLOCK_SIZE,
        ensures
            r@ == self@.subrange(count as int, BLOCK_SIZE as int),
    {
        &self.data.as_slice()[count..BLOCK_SIZE]
    }

    /// Applies `f` to the bytes from `offset` to the end of the block.
    pub fn map<V, F: FnOnce(&[u8]) -> V>(&self, offset: usize, f: F) -> (r: V)
        requires
            self.wf(),
            offset <= BLOCK_SIZE,
            forall|s: &[u8]| s@ == self@.subrange(offset as int, BLOCK_SIZE as int) ==> f.requires((s,)),
        ensures
            exists|s: &[u8]| s@ == self@.subrange(offset as int, BLOCK_SIZE as int) && f.ensures((s,), r),
    {
        let s = self.offset(offset);
        f(s)
    }

    /// Copies `len` bytes from `offset`.
    pub fn read(&self, offset: usize, len: usize) -> (r: Vec<u8>)
        requires
            self.wf(),
            offset + len <= BLOCK_SIZE,
        ensures
            r@ == self@.subrange(offset as int, offset + len),
    {
        let mut r: Vec<u8> = Vec::new();
        let mut i: usize = 0;
        while i < len
            invariant
                self.wf(),
                offset + len <= BLOCK_SIZE,
                i <= len,
                r@ =~= self@.subrange(offset as int, offset + i),
            decreases len - i,
        {
            r.push(self.data[offset + i]);
            i = i + 1;
        }
        r
    }

    /// Overwrites the bytes from `offset` with `bytes` and marks the block dirty.
    pub fn write(&mut self, offset: usize, bytes: &[u8])
        requires
            old(self).wf(),
            offset + bytes@.len() <= BLOCK_SIZE,
        ensures
            final(self).wf(),
            final(self)@ == splice(old(self)@, offset as int, bytes@),
            final(self).id() == old(self).id(),
            final(self).is_modified(),
    {
        self.modified = true;
        let mut i: usize = 0;
        while i < bytes.len()
            invariant
                offset + bytes@.len() <= BLOCK_SIZE,
                self.data@.len() == BLOCK_SIZE,
                i <= bytes@.len(),
                self.block_id == old(self).block_id,
                self.modified,
                forall|k: int| 0 <= k < BLOCK_SIZE ==> #[trigger] self.data@[k] == if offset <= k < offset + i {
                    bytes@[k - offset]
                } else {
                    old(self).data@[k]
                },
            decreases bytes@.len() - i,
        {
            self.data.set(offset + i, bytes[i]);
            i = i + 1;
        }
        assert(self.data@ =~= splice(old(self)@, offset as int, bytes@));
    }

    /// Sets every byte of the block to zero and marks it dirty.
    pub fn zeroize(&mut self)
        requires
            old(self).wf(),
        ensures
            final(self).wf(),
            final(self)@ == Seq::new(BLOCK_SIZE as nat, |i: int| 0u8),
            final(self).id() == old(self).id(),
            final(self).is_modified(),
    {
        let z = crate::block_dev::zero_block();
        self.write(0, z.as_slice());
        assert(self@ =~= Seq::new(BLOCK_SIZE as nat, |i: int| 0u8));
    }
}

/// `s` with `bytes` written over it from position `at`.
pub open spec fn splice(s: Seq<u8>, at: int, bytes: Seq<u8>) -> Seq<u8> {
    s.subrange(0, at) + bytes + s.subrange(at + bytes.len(), s.len() as int)
}


/// A write-back cache over a block device.
///
/// Its view is the contents the device would hold if every cached block
/// were written back: cached blocks take their bytes from the cache, the
/// others from the device.
pub struct BlockCacheManager<D: BlockDevice> {
    device: D,
    queue: Vec<BlockCache>,
    contents: Ghost<Seq<Seq<u8>>>,
}

impl<D: BlockDevice> View for BlockCacheManager<D> {
    type V = Seq<Seq<u8>>;

    closed spec fn view(&self) -> Seq<Seq<u8>> {
        self.contents@
    }
}

impl<D: BlockDevice> BlockCacheManager<D> {
    /// Most blocks cached at once.
    pub const CAPACITY: usize = 16;

    /// What the device itself holds now.
    pub closed spec fn device_blocks(&self) -> Seq<Seq<u8>> {
        self.device.blocks()
    }

    /// The indices of the blocks held in memory, oldest first.
    pub closed spec fn cached_ids(&self) -> Seq<usize> {
        self.queue@.map_values(|c: BlockCache| c.id())
    }

    /// No cached block holds writes that the device lacks.
    pub closed spec fn all_clean(&self) -> bool {
        forall|j: int| 0 <= j < self.queue@.len() ==> !(#[trigger] self.queue@[j]).is_modified()
    }

    pub closed spec fn wf(&self) -> bool {
        let dev = self.device.blocks();
        let q = self.queue@;
        &&& blocks_wf(dev)
        &&& self.contents@.len() == dev.len()
        &&& q.len() <= Self::CAPACITY
        &&& forall|j: int|
            0 <= j < q.len() ==> {
                &&& (#[trigger] q[j]).wf()
                &&& q[j].id() < dev.len()
                &&& self.contents@[q[j].id() as int] == q[j]@
                &&& !q[j].is_modified() ==> q[j]@ == dev[q[j].id() as int]
            }
        &&& forall|j: int, k: int|
            0 <= j < q.len() && 0 <= k < q.len() && j != k ==> (#[trigger] q[j]).id() != (#[trigger] q[k]).id()
        &&& forall|i: int|
            0 <= i < dev.len() && (forall|j: int| 0 <= j < q.len() ==> (#[trigger] q[j]).id() != i)
                ==> self.contents@[i] == #[trigger] dev[i]
    }

    /// An empty cache over `device`.
    pub fn new(device: D) -> (m: Self)
        requires
            blocks_wf(device.blocks()),
        ensures
            m.wf(),
            m@ == device.blocks(),
            m.device_blocks() == device.blocks(),
    {
        BlockCacheManager { device, queue: Vec::new(), contents: Ghost(device.blocks()) }
    }

    /// The device under the cache.
    pub fn device(&self) -> (d: &D)
        ensures
            d.blocks() == self.device_blocks(),
    {
        &self.device
    }

    /// Gives back the device; call [`sync_all`] first so that it holds every write.
    pub fn into_device(self) -> (d: D)
        ensures
            d.blocks() == self.device_blocks(),
    {
        self.device
    }

    /// Every block of the view has [`BLOCK_SIZE`] bytes, and the view has as
    /// many blocks as the device.
    pub proof fn lemma_wf_view(&self)
        requires
            self.wf(),
        ensures
            blocks_wf(self@),
            self@.len() == self.device_blocks().len(),
    {
        let dev = self.device.blocks();
        let q = self.queue@;
        assert forall|i: int| 0 <= i < self@.len() implies (#[trigger] self@[i]).len() == BLOCK_SIZE by {
            if exists|j: int| 0 <= j < q.len() && q[j].id() == i {
                let j = choose|j: int| 0 <= j < q.len() && q[j].id() == i;
                assert(q[j].wf());
            } else {
                assert(self.contents@[i] == dev[i]);
            }
        }
    }

    /// Brings block `block_id` into the cache and returns its place there.
    /// When the cache is full, the oldest block is written back and dropped.
    fn get(&mut self, block_id: usize) -> (idx: usize)
        requires
            old(self).wf(),
            block_id < old(self)@.len(),
        ensures
            final(self).wf(),
            final(self)@ == old(self)@,
            final(self).device_blocks().len() == old(self).device_blocks().len(),
            idx < final(self).queue@.len(),
            final(self).queue@[idx as int].id() == block_id,
    {
        let mut i: usize = 0;
        while i < self.queue.len()
            invariant
                self.wf(),
                self@ == old(self)@,
                self.device.blocks() == old(self).device.blocks(),
                block_id < self@.len(),
                i <= self.queue@.len(),
                forall|j: int| 0 <= j < i ==> (#[trigger] self.queue@[j]).id() != block_id,
            decreases self.queue@.len() - i,
        {
            if self.queue[i].block_id == block_id {
                return i;
            }
            i = i + 1;
        }
        if self.queue.len() == Self::CAPACITY {
            let ghost q0 = self.queue@;
            let ghost dev0 = self.device.blocks();
            let mut evicted = self.queue.remove(0);
            assert(q0[0].wf());
            evicted.sync(&mut self.device);
            let ghost dev1 = self.device.blocks();
            let ghost q1 = self.queue@;
            assert(q1 =~= q0.subrange(1, q0.len() as int));
            assert forall|j: int| 0 <= j < q1.len() implies (#[trigger] q1[j]).id() != evicted.id() by {
                assert(q1[j] == q0[j + 1]);
            }
            assert forall|i: int| 0 <= i < dev1.len() && (forall|j: int| 0 <= j < q1.len() ==> (#[trigger] q1[j]).id() != i)
                implies self.contents@[i] == #[trigger] dev1[i] by {
                if i == evicted.id() {
                } else {
                    assert forall|j: int| 0 <= j < q0.len() implies (#[trigger] q0[j]).id() != i by {
                        if j > 0 {
                            assert(q0[j] == q1[j - 1]);
                        }
                    }
                }
            }
            assert forall|j: int| 0 <= j < q1.len() implies {
                &&& (#[trigger] q1[j]).wf()
                &&& q1[j].id() < dev1.len()
                &&& self.contents@[q1[j].id() as int] == q1[j]@
                &&& !q1[j].is_modified() ==> q1[j]@ == dev1[q1[j].id() as int]
            } by {
                assert(q1[j] == q0[j + 1]);
            }
            assert forall|j: int, k: int| 0 <= j < q1.len() && 0 <= k < q1.len() && j != k
                implies (#[trigger] q1[j]).id() != (#[trigger] q1[k]).id() by {
                assert(q1[j] == q0[j + 1]);
                assert(q1[k] == q0[k + 1]);
            }
            assert forall|j: int| 0 <= j < q1.len() implies (#[trigger] q1[j]).id() != block_id by {
                assert(q1[j] == q0[j + 1]);
            }
        }
        let cache = BlockCache::new(block_id, &self.device);
        let ghost q1 = self.queue@;
        self.queue.push(cache);
        let ghost q2 = self.queue@;
        assert forall|j: int| 0 <= j < q2.len() implies {
            &&& (#[trigger] q2[j]).wf()
            &&& q2[j].id() < self.device.blocks().len()
            &&& self.contents@[q2[j].id() as int] == q2[j]@
            &&& !q2[j].is_modified() ==> q2[j]@ == self.device.blocks()[q2[j].id() as int]
        } by {
            if j < q1.len() {
                assert(q2[j] == q1[j]);
            } else {
                assert(forall|k: int| 0 <= k < q1.len() ==> (#[trigger] q1[k]).id() != block_id);
            }
        }
        assert forall|j: int, k: int| 0 <= j < q2.len() && 0 <= k < q2.len() && j != k
            implies (#[trigger] q2[j]).id() != (#[trigger] q2[k]).id() by {
            if j < q1.len() {
                assert(q2[j] == q1[j]);
            }
            if k < q1.len() {
                assert(q2[k] == q1[k]);
            }
        }
        assert forall|i: int| 0 <= i < self.device.blocks().len() && (forall|j: int| 0 <= j < q2.len() ==> (#[trigger] q2[j]).id() != i)
            implies self.contents@[i] == #[trigger] self.device.blocks()[i] by {
            assert forall|j: int| 0 <= j < q1.len() implies (#[trigger] q1[j]).id() != i by {
                assert(q2[j] == q1[j]);
            }
        }
        self.queue.len() - 1
    }

    /// Copies `len` bytes of block `block_id` from byte `offset`.
    pub fn read(&mut self, block_id: usize, offset: usize, len: usize) -> (r: Vec<u8>)
        requires
            old(self).wf(),
            block_id < old(self)@.len(),
            offset + len <= BLOCK_SIZE,
        ensures
            final(self).wf(),
            final(self)@ == old(self)@,
            final(self).device_blocks().len() == old(self).device_blocks().len(),
            r@ == old(self)@[block_id as int].subrange(offset as int, offset + len),
    {
        proof { self.lemma_wf_view(); }
        let idx = self.get(block_id);
        assert(self.queue@[idx as int].wf());
        self.queue[idx].read(offset, len)
    }

    /// Writes `bytes` into block `block_id` from byte `offset`.
    pub fn write(&mut self, block_id: usize, offset: usize, bytes: &[u8])
        requires
            old(self).wf(),
            block_id < old(self)@.len(),
            offset + bytes@.len() <= BLOCK_SIZE,
        ensures
            final(self).wf(),
            final(self)@ == old(self)@.update(
                block_id as int,
                splice(old(self)@[block_id as int], offset as int, bytes@),
            ),
            final(self).device_blocks().len() == old(self).device_blocks().len(),
    {
        let idx = self.get(block_id);
        let ghost q0 = self.queue@;
        let ghost c0 = self.contents@;
        assert(q0[idx as int].wf());
        let mut c = self.queue.remove(idx);
        c.write(offset, bytes);
        self.queue.insert(idx, c);
        proof {
            let q1 = self.queue@;
            self.contents@ = c0.update(block_id as int, c@);
            assert(q1 =~= q0.update(idx as int, c));
            assert forall|j: int| 0 <= j < q1.len() implies {
                &&& (#[trigger] q1[j]).wf()
                &&& q1[j].id() < self.device.blocks().len()
                &&& self.contents@[q1[j].id() as int] == q1[j]@
                &&& !q1[j].is_modified() ==> q1[j]@ == self.device.blocks()[q1[j].id() as int]
            } by {
                if j != idx {
                    assert(q1[j] == q0[j]);
                    assert(q0[j].id() != q0[idx as int].id());
                }
            }
            assert forall|j: int, k: int| 0 <= j < q1.len() && 0 <= k < q1.len() && j != k
                implies (#[trigger] q1[j]).id() != (#[trigger] q1[k]).id() by {
                assert(q1[j].id() == q0[j].id());
                assert(q1[k].id() == q0[k].id());
            }
            assert forall|i: int| 0 <= i < self.device.blocks().len() && (forall|j: int| 0 <= j < q1.len() ==> (#[trigger] q1[j]).id() != i)
                implies self.contents@[i] == #[trigger] self.device.blocks()[i] by {
                assert(q1[idx as int].id() != i);
                assert forall|j: int| 0 <= j < q0.len() implies (#[trigger] q0[j]).id() != i by {
                    assert(q1[j].id() == q0[j].id());
                }
            }
        }
    }

    /// Reads the little-endian `u32` at byte `offset` of block `block_id`.
    pub fn read_u32(&mut self, block_id: usize, offset: usize) -> (r: u32)
        requires
            old(self).wf(),
            block_id < old(self)@.len(),
            offset + 4 <= BLOCK_SIZE,
        ensures
            final(self).wf(),
            final(self)@ == old(self)@,
            final(self).device_blocks().len() == old(self).device_blocks().len(),
            r == spec_u32_from_le_bytes(old(self)@[block_id as int].subrange(offset as int, offset + 4)),
    {
        proof { self.lemma_wf_view(); }
        let b = self.read(block_id, offset, 4);
        u32_from_le_bytes(b.as_slice())
    }

    /// Writes `value` as a little-endian `u32` at byte `offset` of block `block_id`.
    pub fn write_u32(&mut self, block_id: usize, offset: usize, value: u32)
        requires
            old(self).wf(),
            block_id < old(self)@.len(),
            offset + 4 <= BLOCK_SIZE,
        ensures
            final(self).wf(),
            final(self)@ == old(self)@.update(
                block_id as int,
                splice(old(self)@[block_id as int], offset as int, spec_u32_to_le_bytes(value)),
            ),
            final(self).device_blocks().len() == old(self).device_blocks().len(),
    {
        let b = u32_to_le_bytes(value);
        self.write(block_id, offset, b.as_slice());
    }

    /// Reads the little-endian `u64` at byte `offset` of block `block_id`.
    pub fn read_u64(&mut self, block_id: usize, offset: usize) -> (r: u64)
        requires
            old(self).wf(),
            block_id < old(self)@.len(),
            offset + 8 <= BLOCK_SIZE,
        ensures
            final(self).wf(),
            final(self)@ == old(self)@,
            final(self).device_blocks().len() == old(self).device_blocks().len(),
            r == spec_u64_from_le_bytes(old(self)@[block_id as int].subrange(offset as int, offset + 8)),
    {
        proof { self.lemma_wf_view(); }
        let b = self.read(block_id, offset, 8);
        u64_from_le_bytes(b.as_slice())
    }

    /// Writes `value` as a little-endian `u64` at byte `offset` of block `block_id`.
    pub fn write_u64(&mut self, block_id: usize, offset: usize, value: u64)
        requires
            old(self).wf(),
            block_id < old(self)@.len(),
            offset + 8 <= BLOCK_SIZE,
        ensures
            final(self).wf(),
            final(self)@ == old(self)@.update(
                block_id as int,
                splice(old(self)@[block_id as int], offset as int, spec_u64_to_le_bytes(value)),
            ),
            final(self).device_blocks().len() == old(self).device_blocks().len(),
    {
        let b = u64_to_le_bytes(value);
        self.write(block_id, offset, b.as_slice());
    }

    /// Sets every byte of block `block_id` to zero.
    pub fn zeroize(&mut self, block_id: usize)
        requires
            old(self).wf(),
            block_id < old(self)@.len(),
        ensures
            final(self).wf(),
            final(self)@ == old(self)@.update(block_id as int, Seq::new(BLOCK_SIZE as nat, |i: int| 0u8)),
            final(self).device_blocks().len() == old(self).device_blocks().len(),
    {
        let z = crate::block_dev::zero_block();
        proof { self.lemma_wf_view(); }
        self.write(block_id, 0, z.as_slice());
        assert(splice(old(self)@[block_id as int], 0, z@) =~= Seq::new(BLOCK_SIZE as nat, |i: int| 0u8));
    }
}

/// Writes every modified cached block back to the device. Afterwards the
/// device holds exactly the cache's view, and the same blocks stay cached,
/// none of them modified.
pub fn sync_all<D: BlockDevice>(manager: &mut BlockCacheManager<D>)
    requires
        old(manager).wf(),
    ensures
        final(manager).wf(),
        final(manager)@ == old(manager)@,
        final(manager).device_blocks() == old(manager)@,
        final(manager).cached_ids() == old(manager).cached_ids(),
        final(manager).all_clean(),
{
    manager.sync_all()
}

impl<D: BlockDevice> BlockCacheManager<D> {
    fn sync_all(&mut self)
        requires
            old(self).wf(),
        ensures
            final(self).wf(),
            final(self)@ == old(self)@,
            final(self).device_blocks() == old(self)@,
            final(self).cached_ids() == old(self).cached_ids(),
            final(self).all_clean(),
    {
        let mut i: usize = 0;
        while i < self.queue.len()
            invariant
                self.wf(),
                self@ == old(self)@,
                self.cached_ids() == old(self).cached_ids(),
                i <= self.queue@.len(),
                forall|j: int| 0 <= j < i ==> !(#[trigger] self.queue@[j]).is_modified(),
            decreases self.queue@.len() - i,
        {
            let ghost q0 = self.queue@;
            let ghost dev0 = self.device.blocks();
            assert(q0[i as int].wf());
            let mut c = self.queue.remove(i);
            c.sync(&mut self.device);
            self.queue.insert(i, c);
            proof {
                let q1 = self.queue@;
                let dev1 = self.device.blocks();
                assert(q1 =~= q0.update(i as int, c));
                assert forall|j: int| 0 <= j < q1.len() implies {
                    &&& (#[trigger] q1[j]).wf()
                    &&& q1[j].id() < dev1.len()
                    &&& self.contents@[q1[j].id() as int] == q1[j]@
                    &&& !q1[j].is_modified() ==> q1[j]@ == dev1[q1[j].id() as int]
                } by {
                    if j != i {
                        assert(q1[j] == q0[j]);
                        assert(q0[j].id() != q0[i as int].id());
                    }
                }
                assert forall|j: int, k: int| 0 <= j < q1.len() && 0 <= k < q1.len() && j != k
                    implies (#[trigger] q1[j]).id() != (#[trigger] q1[k]).id() by {
                    assert(q1[j].id() == q0[j].id());
                    assert(q1[k].id() == q0[k].id());
                }
                assert forall|x: int| 0 <= x < dev1.len() && (forall|j: int| 0 <= j < q1.len() ==> (#[trigger] q1[j]).id() != x)
                    implies self.contents@[x] == #[trigger] dev1[x] by {
                    assert(q1[i as int].id() != x);
                    assert forall|j: int| 0 <= j < q0.len() implies (#[trigger] q0[j]).id() != x by {
                        assert(q1[j].id() == q0[j].id());
                    }
                }
                assert forall|j: int| 0 <= j < i + 1 implies !(#[trigger] q1[j]).is_modified() by {
                    if j < i {
                        assert(q1[j] == q0[j]);
                    }
                }
                assert(q1.map_values(|c: BlockCache| c.id()) =~= q0.map_values(|c: BlockCache| c.id()));
            }
            i = i + 1;
        }
        proof {
            let dev = self.device.blocks();
            let q = self.queue@;
            assert forall|x: int| 0 <= x < dev.len() implies self.contents@[x] == dev[x] by {
                if exists|j: int| 0 <= j < q.len() && q[j].id() == x {
                    let j = choose|j: int| 0 <= j < q.len() && q[j].id() == x;
                    assert(!q[j].is_modified());
                }
            }
            assert(self.contents@ =~= dev);
        }
    }
}

} // verus!
