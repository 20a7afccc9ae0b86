//! The easy-fs volume: lays out the areas of a device and allocates inodes
//! and data blocks from their bitmaps.

use vstd::prelude::*;

use crate::block_cache::{splice, sync_all, BlockCacheManager};
use crate::block_dev::{blocks_wf, BlockDevice};
use crate::easy_fs::bitmap::{bitmap_bit, block_word, Bitmap};
use crate::easy_fs::inode::{DiskInode, DiskInodeKind, INODE_SIZE};
use crate::easy_fs::super_block::SuperBlock;
use crate::layout::u32_at;
use crate::{BLOCK_BITS, BLOCK_SIZE};
use vstd::bytes::{spec_u64_from_le_bytes, spec_u64_to_le_bytes, spec_u64_to_le_bytes_to_open, lemma_auto_spec_u64_to_from_le_bytes};

verus! {

/// Inodes stored in one block.
pub const INODES_PER_BLOCK: usize = 3;

/// A block of zero bytes.
pub open spec fn zeros() -> Seq<u8> {
    Seq::new(BLOCK_SIZE as nat, |i: int| 0u8)
}

/// Blocks of the inode area that hold `inode_bitmap_blocks` blocks' worth of inodes.
pub open spec fn spec_inode_area_blocks(inode_bitmap_blocks: u32) -> int {
    (inode_bitmap_blocks as int * (BLOCK_BITS as int) * (INODE_SIZE as int) + (BLOCK_SIZE as int) - 1) / (BLOCK_SIZE as int)
}

/// Blocks of the data bitmap for `data_total` blocks shared by the data
/// bitmap and the data area.
pub open spec fn spec_data_bitmap_blocks(data_total: int) -> int {
    (data_total + (BLOCK_BITS as int)) / ((BLOCK_BITS as int) + 1)
}

/// An easy-fs volume over a cached block device.
pub struct EasyFileSystem<D: BlockDevice> {
    /// The cached device.
    pub cache: BlockCacheManager<D>,
    pub inode_bitmap: Bitmap,
    pub data_bitmap: Bitmap,
    pub inode_area_start_block: u32,
    pub data_area_start_block: u32,
    /// Blocks of the data area: the data bitmap's bits past them stand for no block.
    pub data_area_blocks: u32,
}

impl<D: BlockDevice> EasyFileSystem<D> {
    /// The volume's blocks as the cache presents them.
    pub open spec fn blocks(&self) -> Seq<Seq<u8>> {
        self.cache@
    }

    pub open spec fn wf(&self) -> bool {
        &&& self.cache.wf()
        &&& self.inode_bitmap.fits(self.cache@.len())
        &&& self.data_bitmap.fits(self.cache@.len())
        &&& self.data_area_start_block as int + self.data_bitmap.spec_capacity() <= u32::MAX
        &&& self.data_bitmap.start() + self.data_bitmap.block_count() <= self.data_area_start_block
        &&& self.data_area_blocks <= self.data_bitmap.spec_capacity()
    }

    /// Where inode `inode_id` lies: its block and its offset in the block.
    pub open spec fn spec_inode_pos(&self, inode_id: u32) -> (int, int) {
        (
            self.inode_area_start_block + inode_id as int / (INODES_PER_BLOCK as int),
            (inode_id as int % (INODES_PER_BLOCK as int)) * (INODE_SIZE as int),
        )
    }

    /// Distinct inodes lie at distinct places, each whole inside its block.
    pub proof fn lemma_inode_pos_distinct(&self, a: u32, b: u32)
        requires
            a != b,
        ensures
            self.spec_inode_pos(a) != self.spec_inode_pos(b),
            self.spec_inode_pos(a).1 + INODE_SIZE <= BLOCK_SIZE,
    {
        vstd::arithmetic::div_mod::lemma_fundamental_div_mod(a as int, 3);
        vstd::arithmetic::div_mod::lemma_fundamental_div_mod(b as int, 3);
    }

    /// Allocates a new inode and returns its number: the lowest free one.
    pub fn alloc_inode(&mut self) -> (r: u32)
        requires
            old(self).wf(),
            exists|k: int| 0 <= k < old(self).inode_bitmap.spec_capacity() && !#[trigger] old(self).inode_bitmap.is_set(old(self).blocks(), k),
        ensures
            final(self).wf(),
            final(self).same_layout(*old(self)),
            final(self).inode_bitmap == old(self).inode_bitmap,
            final(self).data_bitmap == old(self).data_bitmap,
            final(self).inode_area_start_block == old(self).inode_area_start_block,
            final(self).data_area_start_block == old(self).data_area_start_block,
            r < old(self).inode_bitmap.spec_capacity(),
            !old(self).inode_bitmap.is_set(old(self).blocks(), r as int),
            forall|j: int| 0 <= j < r ==> #[trigger] old(self).inode_bitmap.is_set(old(self).blocks(), j),
            final(self).blocks() == old(self).inode_bitmap.with_bit_set(old(self).blocks(), r as int),
            final(self).inode_bitmap.is_set(final(self).blocks(), r as int),
            forall|j: int| 0 <= j < old(self).inode_bitmap.spec_capacity() && j != r ==>
                #[trigger] final(self).inode_bitmap.is_set(final(self).blocks(), j) == old(self).inode_bitmap.is_set(old(self).blocks(), j),
    {
        match self.inode_bitmap.allocate(&mut self.cache) {
            Some(id) => id,
            None => {
                let ghost k = choose|k: int| 0 <= k < old(self).inode_bitmap.spec_capacity() && !#[trigger] old(self).inode_bitmap.is_set(old(self).blocks(), k);
                assert(old(self).inode_bitmap.is_set(old(self).blocks(), k));
                0
            },
        }
    }

    /// Allocates a new data block and returns its block number: the data
    /// area's start plus the lowest free entry of the data bitmap, which
    /// lies in the data area where a block of it is free.
    pub fn alloc_data(&mut self) -> (r: u32)
        requires
            old(self).wf(),
            exists|k: int| 0 <= k < old(self).data_bitmap.spec_capacity() && !#[trigger] old(self).data_bitmap.is_set(old(self).blocks(), k),
        ensures
            (exists|k: int| 0 <= k < old(self).data_area_blocks && !#[trigger] old(self).data_bitmap.is_set(old(self).blocks(), k))
                ==> r - old(self).data_area_start_block < old(self).data_area_blocks,
            final(self).wf(),
            final(self).same_layout(*old(self)),
            final(self).inode_bitmap == old(self).inode_bitmap,
            final(self).data_bitmap == old(self).data_bitmap,
            final(self).inode_area_start_block == old(self).inode_area_start_block,
            final(self).data_area_start_block == old(self).data_area_start_block,
            old(self).data_area_start_block <= r,
            r - old(self).data_area_start_block < old(self).data_bitmap.spec_capacity(),
            !old(self).data_bitmap.is_set(old(self).blocks(), r - old(self).data_area_start_block),
            forall|j: int| 0 <= j < r - old(self).data_area_start_block ==> #[trigger] old(self).data_bitmap.is_set(old(self).blocks(), j),
            final(self).blocks() == old(self).data_bitmap.with_bit_set(old(self).blocks(), r - old(self).data_area_start_block),
            final(self).data_bitmap.is_set(final(self).blocks(), r - old(self).data_area_start_block),
            forall|j: int| 0 <= j < old(self).data_bitmap.spec_capacity() && j != r - old(self).data_area_start_block ==>
                #[trigger] final(self).data_bitmap.is_set(final(self).blocks(), j) == old(self).data_bitmap.is_set(old(self).blocks(), j),
    {
        match self.data_bitmap.allocate(&mut self.cache) {
            Some(id) => {
                proof {
                    if exists|k: int| 0 <= k < old(self).data_area_blocks && !#[trigger] old(self).data_bitmap.is_set(old(self).blocks(), k) {
                        let k = choose|k: int| 0 <= k < old(self).data_area_blocks && !#[trigger] old(self).data_bitmap.is_set(old(self).blocks(), k);
                        if id as int > k {
                            assert(old(self).data_bitmap.is_set(old(self).blocks(), k));
                        }
                    }
                }
                self.data_area_start_block + id
            },
            None => {
                let ghost k = choose|k: int| 0 <= k < old(self).data_bitmap.spec_capacity() && !#[trigger] old(self).data_bitmap.is_set(old(self).blocks(), k);
                assert(old(self).data_bitmap.is_set(old(self).blocks(), k));
                0
            },
        }
    }

    /// Zeroes data block `block_id` and marks it free.
    pub fn dealloc_data(&mut self, block_id: u32)
        requires
            old(self).wf(),
            old(self).data_area_start_block <= block_id < old(self).blocks().len(),
            block_id - old(self).data_area_start_block < old(self).data_bitmap.spec_capacity(),
            old(self).data_bitmap.is_set(old(self).blocks(), block_id - old(self).data_area_start_block),
        ensures
            final(self).wf(),
            final(self).same_layout(*old(self)),
            final(self).inode_bitmap == old(self).inode_bitmap,
            final(self).data_bitmap == old(self).data_bitmap,
            final(self).inode_area_start_block == old(self).inode_area_start_block,
            final(self).data_area_start_block == old(self).data_area_start_block,
            final(self).blocks() == old(self).data_bitmap.with_bit_cleared(
                old(self).blocks().update(block_id as int, zeros()),
                block_id - old(self).data_area_start_block,
            ),
            !final(self).data_bitmap.is_set(final(self).blocks(), block_id - old(self).data_area_start_block),
            final(self).blocks()[block_id as int] == zeros(),
            forall|x: int| 0 <= x < old(self).blocks().len() && x != block_id
                && !(old(self).data_bitmap.start() <= x < old(self).data_bitmap.start() + old(self).data_bitmap.block_count())
                ==> #[trigger] final(self).blocks()[x] == old(self).blocks()[x],
            forall|j: int| 0 <= j < old(self).data_bitmap.spec_capacity() && j != block_id - old(self).data_area_start_block ==>
                #[trigger] final(self).data_bitmap.is_set(final(self).blocks(), j) == old(self).data_bitmap.is_set(old(self).blocks(), j),
    {
        let ghost v0 = self.cache@;
        self.cache.zeroize(block_id as usize);
        let ghost v1 = self.cache@;
        proof {
            assert(v1 == v0.update(block_id as int, zeros()));
            let k = block_id - self.data_area_start_block;
            let blk = self.data_bitmap.start() + k / (BLOCK_BITS as int);
            let g = (k % (BLOCK_BITS as int)) / 64;
            vstd::arithmetic::div_mod::lemma_div_is_ordered(k, self.data_bitmap.spec_capacity() as int, BLOCK_BITS as int);
            vstd::arithmetic::div_mod::lemma_div_by_multiple(self.data_bitmap.block_count() as int, BLOCK_BITS as int);
            assert(blk != block_id);
            assert(v1[blk] == v0[blk]);
            lemma_bitmap_frame(v0, v1, self.data_bitmap);
        }
        self.data_bitmap.dealloc(&mut self.cache, block_id - self.data_area_start_block);
        proof {
            let k = block_id - self.data_area_start_block;
            let blk = self.data_bitmap.start() + k / (BLOCK_BITS as int);
            assert(self.blocks()[block_id as int] == v1[block_id as int]);
            assert(self.blocks().len() == v1.len());
            assert forall|x: int| 0 <= x < v0.len() && x != block_id
                && !(self.data_bitmap.start() <= x < self.data_bitmap.start() + self.data_bitmap.block_count())
                implies #[trigger] self.blocks()[x] == v0[x] by {
                assert(x != blk);
            }
        }
    }
}


/// A zero block reads as a zero word in every group.
pub proof fn lemma_zero_word(g: int)
    requires
        0 <= g < 64,
    ensures
        block_word(zeros(), g) == 0,
        forall|j: u64| j < 64 ==> #[trigger] ((0u64 >> j) & 1) == 0,
{
    lemma_auto_spec_u64_to_from_le_bytes();
    spec_u64_to_le_bytes_to_open(0);
    assert(0u64 & 0xff == 0) by (bit_vector);
    assert((0u64 >> 8u64) & 0xff == 0) by (bit_vector);
    assert((0u64 >> 16u64) & 0xff == 0) by (bit_vector);
    assert((0u64 >> 24u64) & 0xff == 0) by (bit_vector);
    assert((0u64 >> 32u64) & 0xff == 0) by (bit_vector);
    assert((0u64 >> 40u64) & 0xff == 0) by (bit_vector);
    assert((0u64 >> 48u64) & 0xff == 0) by (bit_vector);
    assert((0u64 >> 56u64) & 0xff == 0) by (bit_vector);
    assert(zeros().subrange(g * 8, g * 8 + 8) =~= spec_u64_to_le_bytes(0));
    assert forall|j: u64| j < 64 implies #[trigger] ((0u64 >> j) & 1) == 0 by {
        assert((0u64 >> j) & 1 == 0) by (bit_vector);
    }
}

/// Every entry of a bitmap whose blocks are all zero is free.
pub proof fn lemma_zero_bitmap(view: Seq<Seq<u8>>, b: Bitmap)
    requires
        b.fits(view.len()),
        forall|i: int| b.start() <= i < b.start() + b.block_count() ==> #[trigger] view[i] == zeros(),
    ensures
        forall|k: int| 0 <= k < b.spec_capacity() ==> !#[trigger] b.is_set(view, k),
{
    assert forall|k: int| 0 <= k < b.spec_capacity() implies !#[trigger] b.is_set(view, k) by {
        vstd::arithmetic::div_mod::lemma_div_is_ordered(k, b.spec_capacity() as int, BLOCK_BITS as int);
        vstd::arithmetic::div_mod::lemma_div_by_multiple(b.block_count() as int, BLOCK_BITS as int);
        let g = (k % (BLOCK_BITS as int)) / 64;
        lemma_zero_word(g);
        assert(view[b.start() + k / (BLOCK_BITS as int)] == zeros());
        assert(((0u64 >> ((k % 64) as u64)) & 1) == 0);
    }
}

impl<D: BlockDevice> EasyFileSystem<D> {
    /// Where inode `inode_id` lies on disk: its block and the offset within it.
    pub fn disk_inode_pos(&self, inode_id: u32) -> (r: (u32, usize))
        requires
            self.inode_area_start_block + inode_id / 3 <= u32::MAX,
        ensures
            r.0 == self.spec_inode_pos(inode_id).0,
            r.1 == self.spec_inode_pos(inode_id).1,
            r.1 + INODE_SIZE <= BLOCK_SIZE,
    {
        let block_id = self.inode_area_start_block + inode_id / INODES_PER_BLOCK as u32;
        let block_inoffset = inode_id as usize % INODES_PER_BLOCK * INODE_SIZE;
        (block_id, block_inoffset)
    }

    /// Where inode `inode_id` lies on disk, with its block number as a `usize`.
    pub fn disk_inode_pos_any(&self, inode_id: u32) -> (r: (u32, usize))
        ensures
            r.0 == self.spec_inode_pos(inode_id).0 as u32,
            r.1 == self.spec_inode_pos(inode_id).1,
            r.1 + INODE_SIZE <= BLOCK_SIZE,
    {
        let sum: u64 = self.inode_area_start_block as u64 + (inode_id / INODES_PER_BLOCK as u32) as u64;
        let block_id = (sum % 0x1_0000_0000) as u32;
        let block_inoffset = inode_id as usize % INODES_PER_BLOCK * INODE_SIZE;
        proof {
            assert(((sum % 0x1_0000_0000) as u32) == (sum as u32)) by (bit_vector);
        }
        (block_id, block_inoffset)
    }

    /// Inode `inode_id` lies on the device.
    pub open spec fn inode_on_disk(&self, inode_id: u32) -> bool {
        &&& self.spec_inode_pos(inode_id).0 < self.blocks().len()
        &&& self.spec_inode_pos(inode_id).0 <= u32::MAX
    }

    /// The bytes of inode `inode_id` on disk.
    pub open spec fn inode_bytes(&self, inode_id: u32) -> Seq<u8> {
        let (b, off) = self.spec_inode_pos(inode_id);
        self.blocks()[b].subrange(off, off + INODE_SIZE as int)
    }

    /// The blocks after inode `inode_id` is overwritten by `ino`.
    pub open spec fn with_inode(&self, inode_id: u32, ino: DiskInode) -> Seq<Seq<u8>> {
        let (b, off) = self.spec_inode_pos(inode_id);
        self.blocks().update(b, splice(self.blocks()[b], off, ino.spec_to_bytes()))
    }

    /// Reads inode `inode_id` from disk.
    pub fn read_disk_inode(&mut self, inode_id: u32) -> (r: DiskInode)
        requires
            old(self).wf(),
            old(self).inode_on_disk(inode_id),
        ensures
            final(self).wf(),
            final(self).same_layout(*old(self)),
            final(self).blocks() == old(self).blocks(),
            r.decodes_from(old(self).inode_bytes(inode_id)),
    {
        let (block_id, offset) = self.disk_inode_pos(inode_id);
        proof { self.cache.lemma_wf_view(); }
        let bytes = self.cache.read(block_id as usize, offset, INODE_SIZE);
        DiskInode::from_bytes(bytes.as_slice())
    }

    /// Writes `ino` over inode `inode_id` on disk.
    pub fn write_disk_inode(&mut self, inode_id: u32, ino: &DiskInode)
        requires
            old(self).wf(),
            old(self).inode_on_disk(inode_id),
        ensures
            final(self).wf(),
            final(self).same_layout(*old(self)),
            final(self).blocks() == old(self).with_inode(inode_id, *ino),
    {
        let (block_id, offset) = self.disk_inode_pos(inode_id);
        let bytes = ino.to_bytes();
        self.cache.write(block_id as usize, offset, bytes.as_slice());
    }

    /// Both volumes have the same layout.
    pub open spec fn same_layout(&self, other: Self) -> bool {
        &&& self.inode_bitmap == other.inode_bitmap
        &&& self.data_bitmap == other.data_bitmap
        &&& self.inode_area_start_block == other.inode_area_start_block
        &&& self.data_area_start_block == other.data_area_start_block
        &&& self.data_area_blocks == other.data_area_blocks
        &&& self.cache.device_blocks().len() == other.cache.device_blocks().len()
    }
}


/// The sizes the areas take on a device of `total_blocks` blocks with
/// `inode_bitmap_blocks` blocks of inode bitmap: inode area, data bitmap,
/// data area.
pub open spec fn spec_layout(total_blocks: u32, inode_bitmap_blocks: u32) -> (int, int, int) {
    let inode_area_blocks = spec_inode_area_blocks(inode_bitmap_blocks);
    let data_total = total_blocks - 1 - inode_bitmap_blocks - inode_area_blocks;
    let data_bitmap_blocks = spec_data_bitmap_blocks(data_total);
    (inode_area_blocks, data_bitmap_blocks, data_total - data_bitmap_blocks)
}

/// The layout fits the device and its numbers fit their fields.
pub open spec fn layout_ok(len: nat, total_blocks: u32, inode_bitmap_blocks: u32) -> bool {
    let (iab, dbb, dab) = spec_layout(total_blocks, inode_bitmap_blocks);
    &&& 1 <= inode_bitmap_blocks
    &&& total_blocks <= len
    &&& inode_bitmap_blocks as int * BLOCK_BITS as int <= u32::MAX as int + 1
    &&& 1 + inode_bitmap_blocks + iab < total_blocks
    &&& 1 + inode_bitmap_blocks + iab + dbb + dbb * BLOCK_BITS as int <= u32::MAX
}

impl<D: BlockDevice> EasyFileSystem<D> {
    /// Lays out a fresh easy-fs on the first `total_blocks` blocks of the
    /// device: zeroes them, writes the super block and creates the root
    /// directory as inode 0, then writes everything back.
    #[verifier::rlimit(40)]
    #[verifier::spinoff_prover]
    pub fn new(block_device: D, total_blocks: u32, inode_bitmap_blocks: u32) -> (efs: Self)
        requires
            blocks_wf(block_device.blocks()),
            layout_ok(block_device.blocks().len(), total_blocks, inode_bitmap_blocks),
        ensures
            efs.wf(),
            efs.cache.device_blocks() == efs.blocks(),
            efs.blocks().len() == block_device.blocks().len(),
            efs.inode_bitmap.start() == 1,
            efs.inode_bitmap.block_count() == inode_bitmap_blocks,
            efs.inode_area_start_block == 1 + inode_bitmap_blocks,
            efs.data_bitmap.start() == 1 + inode_bitmap_blocks + spec_layout(total_blocks, inode_bitmap_blocks).0,
            efs.data_bitmap.block_count() == spec_layout(total_blocks, inode_bitmap_blocks).1,
            efs.data_area_start_block == 1 + inode_bitmap_blocks + spec_layout(total_blocks, inode_bitmap_blocks).0
                + spec_layout(total_blocks, inode_bitmap_blocks).1,
            efs.data_area_blocks == spec_layout(total_blocks, inode_bitmap_blocks).2,
            Seq::new(6, |w: int| u32_at(efs.blocks()[0], 4 * w)) == seq![
                crate::MAGIC,
                total_blocks,
                inode_bitmap_blocks,
                spec_layout(total_blocks, inode_bitmap_blocks).0 as u32,
                spec_layout(total_blocks, inode_bitmap_blocks).1 as u32,
                spec_layout(total_blocks, inode_bitmap_blocks).2 as u32,
            ],
            efs.inode_bitmap.is_set(efs.blocks(), 0),
            forall|k: int| 0 < k < efs.inode_bitmap.spec_capacity() ==> !#[trigger] efs.inode_bitmap.is_set(efs.blocks(), k),
            forall|k: int| 0 <= k < efs.data_bitmap.spec_capacity() ==> !#[trigger] efs.data_bitmap.is_set(efs.blocks(), k),
            forall|ino: DiskInode| #[trigger] ino.decodes_from(efs.inode_bytes(0)) ==> {
                &&& ino.id == 0
                &&& ino.size == 0
                &&& ino.links == 1
                &&& ino.kind == DiskInodeKind::Directory
                &&& ino.direct@ == Seq::new(26, |i: int| 0u32)
                &&& ino.indirect1 == 0
                &&& ino.indirect2 == 0
                &&& ino.indirect3 == 0
            },
            efs.blocks()[0].subrange(24, BLOCK_SIZE as int) == zeros().subrange(24, BLOCK_SIZE as int),
            efs.blocks()[1 + inode_bitmap_blocks].subrange(INODE_SIZE as int, BLOCK_SIZE as int)
                == zeros().subrange(INODE_SIZE as int, BLOCK_SIZE as int),
            forall|b: int| 1 < b < total_blocks && b != 1 + inode_bitmap_blocks ==> #[trigger] efs.blocks()[b] == zeros(),
            forall|b: int| total_blocks <= b < block_device.blocks().len() ==> #[trigger] efs.blocks()[b] == block_device.blocks()[b],
    {
        let ghost dev0 = block_device.blocks();
        let inode_bitmap = Bitmap::new(1, inode_bitmap_blocks as usize);
        let inode_area_cap = inode_bitmap_blocks as u64 * BLOCK_BITS as u64;
        let inode_area_blocks = ((inode_area_cap * INODE_SIZE as u64 + BLOCK_SIZE as u64 - 1) / BLOCK_SIZE as u64) as u32;
        let inode_total_blocks = inode_bitmap_blocks + inode_area_blocks;
        let data_total_blocks = total_blocks - 1 - inode_total_blocks;
        let data_bitmap_blocks = (data_total_blocks + BLOCK_BITS as u32) / (BLOCK_BITS as u32 + 1);
        let data_area_blocks = data_total_blocks - data_bitmap_blocks;
        let data_bitmap = Bitmap::new((1 + inode_bitmap_blocks + inode_area_blocks) as usize, data_bitmap_blocks as usize);
        let mut efs = EasyFileSystem {
            cache: BlockCacheManager::new(block_device),
            inode_bitmap,
            data_bitmap,
            inode_area_start_block: 1 + inode_bitmap_blocks,
            data_area_start_block: 1 + inode_total_blocks + data_bitmap_blocks,
            data_area_blocks,
        };
        let ghost iab = inode_area_blocks as int;
        let ghost dbb = data_bitmap_blocks as int;
        proof { lemma_data_bitmap_fits(data_total_blocks as int); }
        let mut i: u32 = 0;
        while i < total_blocks
            invariant
                efs.cache.wf(),
                efs.inode_bitmap == inode_bitmap,
                efs.data_bitmap == data_bitmap,
                efs.inode_area_start_block == 1 + inode_bitmap_blocks,
                efs.data_area_start_block == 1 + inode_total_blocks + data_bitmap_blocks,
                efs.data_area_blocks == data_area_blocks,
                data_area_blocks <= data_bitmap.spec_capacity(),
                efs.blocks().len() == dev0.len(),
                efs.cache.device_blocks().len() == dev0.len(),
                total_blocks <= dev0.len(),
                i <= total_blocks,
                forall|b: int| 0 <= b < i ==> #[trigger] efs.blocks()[b] == zeros(),
                forall|b: int| i <= b < dev0.len() ==> #[trigger] efs.blocks()[b] == dev0[b],
            decreases total_blocks - i,
        {
            efs.cache.zeroize(i as usize);
            i = i + 1;
        }
        let ghost v1 = efs.blocks();
        let sb = SuperBlock::new(total_blocks, inode_bitmap_blocks, inode_area_blocks, data_bitmap_blocks, data_area_blocks);
        let sb_bytes = sb.to_bytes();
        efs.cache.write(0, 0, sb_bytes.as_slice());
        let ghost v2 = efs.blocks();
        proof {
            lemma_data_bitmap_fits(data_total_blocks as int);
            assert(efs.cache.wf());
            assert(efs.inode_bitmap.fits(efs.cache@.len()));
            assert(efs.data_bitmap.fits(efs.cache@.len()));
            assert(efs.data_area_start_block as int + efs.data_bitmap.spec_capacity() <= u32::MAX);
            assert(efs.data_bitmap.start() + efs.data_bitmap.block_count() <= efs.data_area_start_block);
            assert(efs.wf());
            lemma_zero_bitmap(v2, efs.inode_bitmap);
            lemma_zero_bitmap(v2, efs.data_bitmap);
            assert(!efs.inode_bitmap.is_set(v2, 0));
        }
        let root_id = efs.alloc_inode();
        proof {
            if root_id > 0 {
                assert(efs.inode_bitmap.is_set(v2, 0));
            }
            assert(root_id == 0);
        }
        let ghost v3 = efs.blocks();
        let root = DiskInode::new(0, DiskInodeKind::Directory);
        efs.write_disk_inode(0, &root);
        let ghost v4 = efs.blocks();
        sync_all(&mut efs.cache);
        proof {
            let blk1 = 1 + inode_bitmap_blocks;
            assert(v3 == efs.inode_bitmap.with_bit_set(v2, 0));
            assert(v4 == v3.update(blk1 as int, splice(v3[blk1 as int], 0, root.spec_to_bytes())));
            // the super block
            sb.lemma_bytes_roundtrip();
            efs.cache.lemma_wf_view();
            assert(v2[0].subrange(0, 24) =~= sb.spec_to_bytes());
            assert(v4[0] == v2[0]);
            assert forall|w: int| 0 <= w < 6 implies #[trigger] u32_at(v4[0], 4 * w) == u32_at(sb.spec_to_bytes(), 4 * w) by {
                assert(v4[0].subrange(4 * w, 4 * w + 4) =~= sb.spec_to_bytes().subrange(4 * w, 4 * w + 4));
            }
            assert(Seq::new(6, |w: int| u32_at(v4[0], 4 * w)) =~= Seq::new(6, |w: int| u32_at(sb.spec_to_bytes(), 4 * w)));
            // the bitmaps
            lemma_bitmap_frame(v3, v4, efs.inode_bitmap);
            lemma_bitmap_frame(v2, v4, efs.data_bitmap);
            assert forall|k: int| 0 < k < efs.inode_bitmap.spec_capacity() implies !#[trigger] efs.inode_bitmap.is_set(v4, k) by {
                assert(efs.inode_bitmap.is_set(v3, k) == efs.inode_bitmap.is_set(v2, k));
            }
            // the root inode
            root.lemma_bytes_roundtrip();
            assert(efs.inode_bytes(0) =~= root.spec_to_bytes());
            // everything else is zero
            assert(v3 == v2.update(1, v3[1]));
            assert(v4[0].subrange(24, BLOCK_SIZE as int) =~= zeros().subrange(24, BLOCK_SIZE as int));
            assert(v3[blk1 as int] == zeros());
            assert(v4[blk1 as int].subrange(INODE_SIZE as int, BLOCK_SIZE as int)
                =~= zeros().subrange(INODE_SIZE as int, BLOCK_SIZE as int));
        }
        efs
    }
}

/// The data bitmap never takes more blocks than it shares with the data area.
proof fn lemma_data_bitmap_fits(dt: int)
    requires
        dt >= 1,
    ensures
        spec_data_bitmap_blocks(dt) <= dt,
        spec_data_bitmap_blocks(dt) >= 1,
        dt - spec_data_bitmap_blocks(dt) <= spec_data_bitmap_blocks(dt) * (BLOCK_BITS as int),
{
    vstd::arithmetic::div_mod::lemma_fundamental_div_mod(dt + 4096, 4097);
    vstd::arithmetic::div_mod::lemma_div_is_ordered(4097, dt + 4096, 4097);
}

/// A bitmap reads the same in two views that agree on its blocks.
pub proof fn lemma_bitmap_frame(v: Seq<Seq<u8>>, v2: Seq<Seq<u8>>, b: Bitmap)
    requires
        forall|i: int| b.start() <= i < b.start() + b.block_count() ==> #[trigger] v2[i] == v[i],
    ensures
        forall|k: int| 0 <= k < b.spec_capacity() ==> #[trigger] b.is_set(v2, k) == b.is_set(v, k),
{
    assert forall|k: int| 0 <= k < b.spec_capacity() implies #[trigger] b.is_set(v2, k) == b.is_set(v, k) by {
        vstd::arithmetic::div_mod::lemma_div_is_ordered(k, b.spec_capacity() as int, BLOCK_BITS as int);
        vstd::arithmetic::div_mod::lemma_div_by_multiple(b.block_count() as int, BLOCK_BITS as int);
        assert(v2[b.start() + k / (BLOCK_BITS as int)] == v[b.start() + k / (BLOCK_BITS as int)]);
    }
}


/// The words of the super block at the start of block 0.
pub open spec fn super_words(blocks: Seq<Seq<u8>>) -> Seq<u32> {
    Seq::new(6, |w: int| u32_at(blocks[0], 4 * w))
}

/// The areas that a super block describes fit the device and their numbers fit their fields.
pub open spec fn super_block_ok(blocks: Seq<Seq<u8>>) -> bool {
    let w = super_words(blocks);
    let inode_total = w[2] + w[3];
    &&& blocks.len() >= 1
    &&& w[0] == crate::MAGIC
    &&& 1 + inode_total + w[4] + w[4] as int * BLOCK_BITS as int <= u32::MAX
    &&& 1 + inode_total + w[4] <= blocks.len()
    &&& w[5] as int <= w[4] as int * BLOCK_BITS as int
    &&& w[2] as int * BLOCK_BITS as int <= u32::MAX as int + 1
}

impl<D: BlockDevice> EasyFileSystem<D> {
    /// Opens the easy-fs that the device holds, as its super block describes it.
    pub fn open(block_device: D) -> (efs: Self)
        requires
            blocks_wf(block_device.blocks()),
            super_block_ok(block_device.blocks()),
        ensures
            efs.wf(),
            efs.blocks() == block_device.blocks(),
            efs.inode_bitmap.start() == 1,
            efs.inode_bitmap.block_count() == super_words(block_device.blocks())[2],
            efs.inode_area_start_block == 1 + super_words(block_device.blocks())[2],
            efs.data_bitmap.start() == 1 + super_words(block_device.blocks())[2] + super_words(block_device.blocks())[3],
            efs.data_bitmap.block_count() == super_words(block_device.blocks())[4],
            efs.data_area_start_block == 1 + super_words(block_device.blocks())[2] + super_words(block_device.blocks())[3]
                + super_words(block_device.blocks())[4],
            efs.data_area_blocks == super_words(block_device.blocks())[5],
    {
        let ghost dev = block_device.blocks();
        let mut cache = BlockCacheManager::new(block_device);
        proof { cache.lemma_wf_view(); }
        let bytes = cache.read(0, 0, crate::easy_fs::super_block::SUPER_BLOCK_SIZE);
        let super_block = SuperBlock::from_bytes(bytes.as_slice());
        proof {
            assert forall|w: int| 0 <= w < 6 implies #[trigger] u32_at(bytes@, 4 * w) == u32_at(dev[0], 4 * w) by {
                assert(bytes@.subrange(4 * w, 4 * w + 4) =~= dev[0].subrange(4 * w, 4 * w + 4));
            }
            assert(super_block.spec_words()[0] == super_words(dev)[0]);
            assert(super_block.spec_words()[2] == super_words(dev)[2]);
            assert(super_block.spec_words()[3] == super_words(dev)[3]);
            assert(super_block.spec_words()[4] == super_words(dev)[4]);
            assert(super_block.spec_words()[5] == super_words(dev)[5]);
        }
        if !super_block.is_valid() {
            assert(false);
        }
        let inode_total_blocks = super_block.inode_bitmap_blocks + super_block.inode_area_blocks;
        EasyFileSystem {
            cache,
            inode_bitmap: Bitmap::new(1, super_block.inode_bitmap_blocks as usize),
            data_bitmap: Bitmap::new(1 + inode_total_blocks as usize, super_block.data_bitmap_blocks as usize),
            inode_area_start_block: 1 + super_block.inode_bitmap_blocks,
            data_area_start_block: 1 + inode_total_blocks + super_block.data_bitmap_blocks,
            data_area_blocks: super_block.data_area_blocks,
        }
    }
}

} // verus!
