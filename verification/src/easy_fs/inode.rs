//! On-disk inodes. An inode maps the logical blocks of a file onto device
//! blocks through a small index tree:
//! - `direct`: the first [`DIRECT_COUNT`] block numbers;
//! - `indirect1`: a block of [`INDIRECT_COUNT`] block numbers;
//! - `indirect2`: a block of numbers of such blocks;
//! - `indirect3`: one more level.
//!
//! Directories store directory entries in their blocks, files their data.

use vstd::prelude::*;

use crate::block_cache::{splice, BlockCacheManager};
use crate::block_dev::{blocks_wf, BlockDevice};
use crate::layout::{decode_words, encode_words, lemma_words_roundtrip, u32_at, words_to_bytes};
use vstd::bytes::{lemma_auto_spec_u32_to_from_le_bytes, spec_u32_to_le_bytes};
use crate::BLOCK_SIZE;

verus! {

/// Block numbers held by an index block.
pub const INDIRECT_COUNT: usize = 128;
/// Block numbers held in the inode itself.
pub const DIRECT_COUNT: usize = 26;
/// Data blocks reachable through the first-level index block.
pub const INDIRECT1_COUNT: usize = 128;
/// Data blocks reachable through the second-level index block.
pub const INDIRECT2_COUNT: usize = 16384;
/// Data blocks reachable through the third-level index block.
pub const INDIRECT3_COUNT: usize = 2097152;
/// Data blocks reachable directly.
pub const DIRECT_CAP: usize = 26;
/// Data blocks reachable up to the first level.
pub const INDIRECT1_CAP: usize = 154;
/// Data blocks reachable up to the second level.
pub const INDIRECT2_CAP: usize = 16538;
/// Data blocks reachable up to the third level.
pub const INDIRECT3_CAP: usize = 2113690;
/// Bytes of an inode on disk.
pub const INODE_SIZE: usize = 132;

/// Entry `e` of an index block.
pub open spec fn entry(view: Seq<Seq<u8>>, block: u32, e: int) -> u32 {
    u32_at(view[block as int], 4 * e)
}

/// Whether an inode names a file or a directory.
#[derive(Debug, Clone, Copy, PartialEq, Eq, Structural)]
pub enum DiskInodeKind {
    File,
    Directory,
}

/// An inode as stored on disk.
pub struct DiskInode {
    pub id: u32,
    /// Size in bytes.
    pub size: u32,
    /// Number of hard links.
    pub links: u32,
    pub kind: DiskInodeKind,
    /// Direct block numbers.
    pub direct: [u32; 26],
    /// First-level index block.
    pub indirect1: u32,
    /// Second-level index block.
    pub indirect2: u32,
    /// Third-level index block.
    pub indirect3: u32,
}

/// Number of data blocks that hold `size` bytes.
pub open spec fn spec_count_data_block(size: u32) -> nat {
    ((size as int + (BLOCK_SIZE as int) - 1) / (BLOCK_SIZE as int)) as nat
}

/// `n` divided by `d`, rounded up.
pub open spec fn ceil_div(n: int, d: int) -> int {
    (n + d - 1) / d
}

/// Number of data and index blocks that hold `data` data blocks.
pub open spec fn spec_total_blocks(data: int) -> int {
    let second = if data < INDIRECT2_CAP { data } else { INDIRECT2_CAP as int };
    data + (if data > DIRECT_CAP { 1int } else { 0 }) + (if data > INDIRECT1_CAP {
        1 + ceil_div(second - INDIRECT1_CAP, INDIRECT_COUNT as int)
    } else {
        0
    }) + (if data > INDIRECT2_CAP {
        1 + ceil_div(data - INDIRECT2_CAP, (INDIRECT_COUNT * INDIRECT_COUNT) as int) + ceil_div(data - INDIRECT2_CAP, INDIRECT_COUNT as int)
    } else {
        0
    })
}

/// The word that stores a kind on disk.
pub open spec fn kind_word(k: DiskInodeKind) -> u32 {
    match k {
        DiskInodeKind::File => 0,
        DiskInodeKind::Directory => 1,
    }
}

/// The kind stored in a word: its low byte 1 means a directory.
pub open spec fn word_kind(w: u32) -> DiskInodeKind {
    if w % 256 == 1 {
        DiskInodeKind::Directory
    } else {
        DiskInodeKind::File
    }
}

impl DiskInode {
    /// The inode as 33 words: id, size, links, kind, the direct block
    /// numbers, then the three index blocks.
    pub open spec fn spec_words(&self) -> Seq<u32> {
        seq![self.id, self.size, self.links, kind_word(self.kind)] + self.direct@ + seq![
            self.indirect1,
            self.indirect2,
            self.indirect3,
        ]
    }

    /// The inode's bytes on disk.
    pub open spec fn spec_to_bytes(&self) -> Seq<u8> {
        words_to_bytes(self.spec_words())
    }

    /// The inode is what `bytes` hold.
    pub open spec fn decodes_from(&self, bytes: Seq<u8>) -> bool {
        &&& self.id == u32_at(bytes, 0)
        &&& self.size == u32_at(bytes, 4)
        &&& self.links == u32_at(bytes, 8)
        &&& self.kind == word_kind(u32_at(bytes, 12))
        &&& self.direct@ == Seq::new(26, |i: int| u32_at(bytes, 16 + 4 * i))
        &&& self.indirect1 == u32_at(bytes, 120)
        &&& self.indirect2 == u32_at(bytes, 124)
        &&& self.indirect3 == u32_at(bytes, 128)
    }

    /// Reads an inode from its bytes on disk.
    pub fn from_bytes(bytes: &[u8]) -> (r: Self)
        requires
            bytes@.len() >= INODE_SIZE,
        ensures
            r.decodes_from(bytes@),
    {
        let ws = decode_words(bytes, 33);
        let mut direct = [0u32; 26];
        let mut i: usize = 0;
        while i < 26
            invariant
                i <= 26,
                ws@.len() == 33,
                forall|w: int| 0 <= w < 33 ==> #[trigger] ws@[w] == u32_at(bytes@, 4 * w),
                forall|k: int| 0 <= k < i ==> #[trigger] direct@[k] == u32_at(bytes@, 16 + 4 * k),
            decreases 26 - i,
        {
            direct[i] = ws[4 + i];
            assert(ws@[4 + i] == u32_at(bytes@, 4 * (4 + i)));
            i = i + 1;
        }
        let kind = if ws[3] % 256 == 1 { DiskInodeKind::Directory } else { DiskInodeKind::File };
        let r = DiskInode {
            id: ws[0],
            size: ws[1],
            links: ws[2],
            kind,
            direct,
            indirect1: ws[30],
            indirect2: ws[31],
            indirect3: ws[32],
        };
        assert(ws@[3] == u32_at(bytes@, 12));
        assert(ws@[30] == u32_at(bytes@, 4 * (30 as int)));
        assert(ws@[31] == u32_at(bytes@, 4 * (31 as int)));
        assert(ws@[32] == u32_at(bytes@, 4 * (32 as int)));
        assert(r.direct@ =~= Seq::new(26, |i: int| u32_at(bytes@, 16 + 4 * i)));
        r
    }

    /// The inode's bytes on disk.
    pub fn to_bytes(&self) -> (r: Vec<u8>)
        ensures
            r@ == self.spec_to_bytes(),
            r@.len() == INODE_SIZE,
    {
        let mut ws: Vec<u32> = Vec::new();
        ws.push(self.id);
        ws.push(self.size);
        ws.push(self.links);
        ws.push(if self.kind == DiskInodeKind::Directory { 1u32 } else { 0u32 });
        let mut i: usize = 0;
        while i < 26
            invariant
                i <= 26,
                ws@ =~= seq![self.id, self.size, self.links, kind_word(self.kind)] + self.direct@.subrange(0, i as int),
            decreases 26 - i,
        {
            ws.push(self.direct[i]);
            i = i + 1;
        }
        ws.push(self.indirect1);
        ws.push(self.indirect2);
        ws.push(self.indirect3);
        assert(ws@ =~= self.spec_words());
        encode_words(ws.as_slice())
    }

    /// An inode reads back from its own bytes.
    pub proof fn lemma_bytes_roundtrip(&self)
        ensures
            self.decodes_from(self.spec_to_bytes()),
            self.spec_to_bytes().len() == INODE_SIZE,
    {
        let ws = self.spec_words();
        lemma_words_roundtrip(ws);
        assert(u32_at(self.spec_to_bytes(), 4 * (0 as int)) == ws[0]);
        assert(u32_at(self.spec_to_bytes(), 4 * (1 as int)) == ws[1]);
        assert(u32_at(self.spec_to_bytes(), 4 * (2 as int)) == ws[2]);
        assert(u32_at(self.spec_to_bytes(), 4 * (3 as int)) == ws[3]);
        assert(u32_at(self.spec_to_bytes(), 4 * (30 as int)) == ws[30]);
        assert(u32_at(self.spec_to_bytes(), 4 * (31 as int)) == ws[31]);
        assert(u32_at(self.spec_to_bytes(), 4 * (32 as int)) == ws[32]);
        assert forall|i: int| 0 <= i < 26 implies #[trigger] self.direct@[i] == u32_at(self.spec_to_bytes(), 16 + 4 * i) by {
            assert(u32_at(self.spec_to_bytes(), 4 * (4 + i)) == ws[4 + i]);
        }
        assert(self.direct@ =~= Seq::new(26, |i: int| u32_at(self.spec_to_bytes(), 16 + 4 * i)));
    }

    /// Device block that holds logical block `block_index` of the file,
    /// found by walking the index tree.
    pub fn block_id<D: BlockDevice>(&self, block_index: u32, cache: &mut BlockCacheManager<D>) -> (r: u32)
        requires
            old(cache).wf(),
            self.lookup_ok(old(cache)@, block_index as int),
        ensures
            final(cache).wf(),
            final(cache)@ == old(cache)@,
            final(cache).device_blocks().len() == old(cache).device_blocks().len(),
            r == self.spec_block_id(old(cache)@, block_index as int),
    {
        let block_index = block_index as usize;
        if block_index < DIRECT_CAP {
            self.direct[block_index]
        } else if block_index < INDIRECT1_CAP {
            cache.read_u32(self.indirect1 as usize, 4 * (block_index - DIRECT_CAP))
        } else if block_index < INDIRECT2_CAP {
            let index = block_index - INDIRECT1_CAP;
            let indirect1 = cache.read_u32(self.indirect2 as usize, 4 * (index / INDIRECT1_COUNT));
            cache.read_u32(indirect1 as usize, 4 * (index % INDIRECT1_COUNT))
        } else {
            let index = block_index - INDIRECT2_CAP;
            let indirect2 = cache.read_u32(self.indirect3 as usize, 4 * (index / INDIRECT2_COUNT));
            let indirect1 = cache.read_u32(indirect2 as usize, 4 * (index % INDIRECT2_COUNT / INDIRECT1_COUNT));
            cache.read_u32(indirect1 as usize, 4 * (index % INDIRECT1_COUNT))
        }
    }

    /// Device block that holds logical block `i` of the file.
    pub open spec fn spec_block_id(&self, view: Seq<Seq<u8>>, i: int) -> u32 {
        if i < DIRECT_CAP {
            self.direct@[i]
        } else if i < INDIRECT1_CAP {
            entry(view, self.indirect1, i - DIRECT_CAP)
        } else if i < INDIRECT2_CAP {
            let idx = i - INDIRECT1_CAP;
            entry(view, entry(view, self.indirect2, idx / 128), idx % 128)
        } else {
            let idx = i - INDIRECT2_CAP;
            let l2 = entry(view, self.indirect3, idx / 16384);
            entry(view, entry(view, l2, (idx % 16384) / 128), idx % 128)
        }
    }

    /// Logical block `i` can be looked up: every index block on its path is on the device.
    pub open spec fn lookup_ok(&self, view: Seq<Seq<u8>>, i: int) -> bool {
        let n = view.len();
        &&& 0 <= i < INDIRECT3_CAP
        &&& i >= DIRECT_CAP ==> (i < INDIRECT1_CAP ==> self.indirect1 < n)
        &&& i >= INDIRECT1_CAP && i < INDIRECT2_CAP ==> {
            let idx = i - INDIRECT1_CAP;
            &&& self.indirect2 < n
            &&& entry(view, self.indirect2, idx / 128) < n
        }
        &&& i >= INDIRECT2_CAP ==> {
            let idx = i - INDIRECT2_CAP;
            let l2 = entry(view, self.indirect3, idx / 16384);
            &&& self.indirect3 < n
            &&& l2 < n
            &&& entry(view, l2, (idx % 16384) / 128) < n
        }
    }

    /// Logical block `i` can be read: every block on its path, its data
    /// block included, is on the device.
    pub open spec fn readable(&self, view: Seq<Seq<u8>>, i: int) -> bool {
        &&& self.lookup_ok(view, i)
        &&& self.spec_block_id(view, i) < view.len()
    }

    /// The blocks that logical block `i` adds to the file when it is
    /// allocated: the index blocks it opens, then its data block.
    pub open spec fn step_blocks(&self, view: Seq<Seq<u8>>, i: int) -> Seq<u32> {
        if i < DIRECT_CAP {
            seq![self.direct@[i]]
        } else if i < INDIRECT1_CAP {
            if i == DIRECT_CAP {
                seq![self.indirect1, self.spec_block_id(view, i)]
            } else {
                seq![self.spec_block_id(view, i)]
            }
        } else if i < INDIRECT2_CAP {
            let r = i - INDIRECT1_CAP;
            (if r == 0 { seq![self.indirect2] } else { Seq::empty() })
                + (if r % 128 == 0 { seq![entry(view, self.indirect2, r / 128)] } else { Seq::empty() })
                + seq![self.spec_block_id(view, i)]
        } else {
            let r = i - INDIRECT2_CAP;
            let l2 = entry(view, self.indirect3, r / 16384);
            (if r == 0 { seq![self.indirect3] } else { Seq::empty() })
                + (if r % 16384 == 0 { seq![l2] } else { Seq::empty() })
                + (if r % 128 == 0 { seq![entry(view, l2, (r % 16384) / 128)] } else { Seq::empty() })
                + seq![self.spec_block_id(view, i)]
        }
    }

    /// Every block of the first `n` logical blocks, in the order they are allocated.
    pub open spec fn alloc_order(&self, view: Seq<Seq<u8>>, n: nat) -> Seq<u32>
        decreases n,
    {
        if n == 0 {
            Seq::empty()
        } else {
            self.alloc_order(view, (n - 1) as nat) + self.step_blocks(view, n - 1)
        }
    }

    /// The first `n` logical blocks form a sound tree: every block is on the
    /// device and no block is used twice.
    pub open spec fn tree_wf(&self, view: Seq<Seq<u8>>, n: nat) -> bool {
        let blocks = self.alloc_order(view, n);
        &&& n <= INDIRECT3_CAP
        &&& forall|k: int| 0 <= k < blocks.len() ==> (#[trigger] blocks[k]) < view.len()
        &&& forall|k: int, l: int| 0 <= k < l < blocks.len() ==> #[trigger] blocks[k] != #[trigger] blocks[l]
    }

    /// The blocks of the file's data and index tree.
    pub open spec fn blocks(&self, view: Seq<Seq<u8>>) -> Seq<u32> {
        self.alloc_order(view, spec_count_data_block(self.size))
    }

    /// A fresh inode of the given kind: empty, with one link.
    pub fn init(&mut self, id: u32, kind: DiskInodeKind)
        ensures
            final(self).id == id,
            final(self).kind == kind,
            final(self).size == 0,
            final(self).links == 1,
            final(self).direct@ == Seq::new(26, |i: int| 0u32),
            final(self).indirect1 == 0,
            final(self).indirect2 == 0,
            final(self).indirect3 == 0,
    {
        *self = DiskInode::new(id, kind);
    }

    /// A fresh inode of the given kind: empty, with one link.
    pub fn new(id: u32, kind: DiskInodeKind) -> (r: Self)
        ensures
            r.id == id,
            r.kind == kind,
            r.size == 0,
            r.links == 1,
            r.direct@ == Seq::new(26, |i: int| 0u32),
            r.indirect1 == 0,
            r.indirect2 == 0,
            r.indirect3 == 0,
    {
        let r = DiskInode {
            id,
            size: 0,
            links: 1,
            kind,
            direct: [0u32; 26],
            indirect1: 0,
            indirect2: 0,
            indirect3: 0,
        };
        assert(r.direct@ =~= Seq::new(26, |i: int| 0u32));
        r
    }

    pub fn is_dir(&self) -> (r: bool)
        ensures
            r == (self.kind == DiskInodeKind::Directory),
    {
        self.kind == DiskInodeKind::Directory
    }

    /// Number of data blocks that hold `size` bytes.
    pub fn count_data_block(size: u32) -> (r: usize)
        ensures
            r == spec_count_data_block(size),
    {
        ((size as u64 + 511) / 512) as usize
    }

    /// Number of data and index blocks that hold `size` bytes.
    pub fn count_total_block(size: u32) -> (r: usize)
        ensures
            r == spec_total_blocks(spec_count_data_block(size) as int),
    {
        let data_blocks = Self::count_data_block(size);
        let mut total = data_blocks;
        if data_blocks > DIRECT_CAP {
            total = total + 1;
        }
        if data_blocks > INDIRECT1_CAP {
            let second = if data_blocks < INDIRECT2_CAP { data_blocks } else { INDIRECT2_CAP };
            total = total + 1 + (second - INDIRECT1_CAP + INDIRECT_COUNT - 1) / INDIRECT_COUNT;
        }
        if data_blocks > INDIRECT2_CAP {
            let rest = data_blocks - INDIRECT2_CAP;
            total = total + 1 + (rest + INDIRECT_COUNT * INDIRECT_COUNT - 1) / (INDIRECT_COUNT * INDIRECT_COUNT)
                + (rest + INDIRECT_COUNT - 1) / INDIRECT_COUNT;
        }
        total
    }

    /// Byte `p` of the file's contents as found on the device.
    pub open spec fn file_byte(&self, view: Seq<Seq<u8>>, p: int) -> u8 {
        view[self.spec_block_id(view, p / (BLOCK_SIZE as int)) as int][p % (BLOCK_SIZE as int)]
    }

    /// The logical blocks that a read or write of `[start, end)` visits.
    pub open spec fn touched(start: int, end: int, i: int) -> bool {
        &&& start / (BLOCK_SIZE as int) <= i
        &&& if start == end { i == start / (BLOCK_SIZE as int) } else { i <= (end - 1) / (BLOCK_SIZE as int) }
    }

    /// Where a read or write at `offset` of `len` bytes stops: at the end of
    /// the file at the latest.
    pub open spec fn io_end(&self, offset: int, len: int) -> int {
        if offset + len < self.size { offset + len } else { self.size as int }
    }

    /// Reads from byte `offset` of the file into `buf`, up to the end of the
    /// file; returns the number of bytes read.
    pub fn read_at<D: BlockDevice>(&self, offset: usize, buf: &mut [u8], cache: &mut BlockCacheManager<D>) -> (r: usize)
        requires
            old(cache).wf(),
            offset + old(buf)@.len() <= usize::MAX,
            offset <= self.io_end(offset as int, old(buf)@.len() as int) ==> forall|i: int|
                Self::touched(offset as int, self.io_end(offset as int, old(buf)@.len() as int), i)
                    ==> #[trigger] self.readable(old(cache)@, i),
        ensures
            final(cache).wf(),
            final(cache)@ == old(cache)@,
            final(cache).device_blocks().len() == old(cache).device_blocks().len(),
            final(buf)@.len() == old(buf)@.len(),
            r == if offset > self.io_end(offset as int, old(buf)@.len() as int) {
                0
            } else {
                self.io_end(offset as int, old(buf)@.len() as int) - offset
            },
            forall|p: int| 0 <= p < r ==> #[trigger] final(buf)@[p] == self.file_byte(old(cache)@, offset + p),
            forall|p: int| r <= p < old(buf)@.len() ==> #[trigger] final(buf)@[p] == old(buf)@[p],
    {
        let mut start = offset;
        let end = if offset + buf.len() < self.size as usize { offset + buf.len() } else { self.size as usize };
        if start > end {
            return 0;
        }
        proof { cache.lemma_wf_view(); }
        let ghost v = cache@;
        let mut read_size: usize = 0;
        let blen = buf.len();
        loop
            invariant_except_break
                start <= end,
                start < end || offset == end,
                offset <= start,
                start == offset + read_size,
            invariant
                blen == buf@.len(),
                cache.wf(),
                cache@ == v,
                blocks_wf(v),
                cache.device_blocks().len() == old(cache).device_blocks().len(),
                end == self.io_end(offset as int, old(buf)@.len() as int),
                end <= offset + buf@.len(),
                offset <= end,
                buf@.len() == old(buf)@.len(),
                offset == end ==> read_size == 0,
                forall|i: int| Self::touched(offset as int, end as int, i) ==> #[trigger] self.readable(v, i),
                forall|p: int| 0 <= p < read_size ==> #[trigger] buf@[p] == self.file_byte(v, offset + p),
                forall|p: int| read_size <= p < buf@.len() ==> #[trigger] buf@[p] == old(buf)@[p],
            ensures
                read_size == end - offset,
                forall|p: int| 0 <= p < read_size ==> #[trigger] buf@[p] == self.file_byte(v, offset + p),
                forall|p: int| read_size <= p < buf@.len() ==> #[trigger] buf@[p] == old(buf)@[p],
            decreases end - start,
        {
            let block_index = start / BLOCK_SIZE;
            let next_boundary: u64 = (block_index as u64 + 1) * 512;
            let current_block_end = if next_boundary < end as u64 { next_boundary as usize } else { end };
            let block_read_size = current_block_end - start;
            proof {
                vstd::arithmetic::div_mod::lemma_div_is_ordered(offset as int, start as int, (BLOCK_SIZE as int));
                if start < end {
                    vstd::arithmetic::div_mod::lemma_div_is_ordered(start as int, end - 1, (BLOCK_SIZE as int));
                }
            }
            assert(Self::touched(offset as int, end as int, block_index as int));
            assert(self.readable(v, block_index as int));
            let bid = self.block_id(block_index as u32, cache);
            let in_block = start % BLOCK_SIZE;
            let data = cache.read(bid as usize, in_block, block_read_size);
            let mut k: usize = 0;
            while k < block_read_size
                invariant
                    k <= block_read_size,
                    data@.len() == block_read_size,
                    data@ == v[bid as int].subrange(in_block as int, in_block + block_read_size),
                    read_size + block_read_size <= buf@.len(),
                    blen == buf@.len(),
                    buf@.len() == old(buf)@.len(),
                    forall|p: int| 0 <= p < read_size ==> #[trigger] buf@[p] == self.file_byte(v, offset + p),
                    forall|p: int| read_size <= p < read_size + k ==> #[trigger] buf@[p] == data@[p - read_size],
                    forall|p: int| read_size + k <= p < buf@.len() ==> #[trigger] buf@[p] == old(buf)@[p],
                decreases block_read_size - k,
            {
                buf[read_size + k] = data[k];
                k = k + 1;
            }
            proof {
                assert forall|p: int| read_size <= p < read_size + block_read_size implies
                    #[trigger] buf@[p] == self.file_byte(v, offset + p) by {
                    let q = offset + p;
                    assert(q / (BLOCK_SIZE as int) == block_index as int);
                    assert(q % (BLOCK_SIZE as int) == in_block + (p - read_size));
                }
            }
            read_size = read_size + block_read_size;
            if current_block_end == end {
                break;
            }
            start = current_block_end;
        }
        read_size
    }
}


/// Position of logical block `i`'s data block in the allocation order.
pub open spec fn pos_data(i: int) -> int {
    if i < DIRECT_CAP {
        i
    } else if i < INDIRECT1_CAP {
        i + 1
    } else if i < INDIRECT2_CAP {
        let r = i - INDIRECT1_CAP;
        157 + 129 * (r / 128) + r % 128
    } else {
        let r = i - INDIRECT2_CAP;
        i + 133 + r / 16384 + r / 128
    }
}

/// Position of second-level block `g` of the third level in the allocation order.
pub open spec fn pos_l2(g: int) -> int {
    16669 + 16513 * g
}

/// Position of first-level block `h` under second-level block `g` of the
/// third level in the allocation order.
pub open spec fn pos_l3(g: int, h: int) -> int {
    16670 + 16513 * g + 129 * h
}

/// `ceil_div` by `d` grows by one exactly past a multiple of `d`.
proof fn lemma_ceil_div_step(r: int, d: int)
    requires
        r >= 0,
        d > 0,
    ensures
        ceil_div(r + 1, d) == r / d + 1,
        ceil_div(r, d) == if r % d == 0 { r / d } else { r / d + 1 },
{
    vstd::arithmetic::div_mod::lemma_fundamental_div_mod(r, d);
    vstd::arithmetic::mul::lemma_mul_is_commutative(r / d, d);
    vstd::arithmetic::mul::lemma_mul_is_distributive_add_other_way(d, r / d, 1);
    vstd::arithmetic::div_mod::lemma_fundamental_div_mod_converse(r + d, d, r / d + 1, r % d);
    if r % d == 0 {
        vstd::arithmetic::div_mod::lemma_fundamental_div_mod_converse(r + d - 1, d, r / d, d - 1);
    } else {
        vstd::arithmetic::div_mod::lemma_fundamental_div_mod_converse(r + d - 1, d, r / d + 1, r % d - 1);
    }
}

/// A byte inside the file lies in one of its data blocks.
pub proof fn lemma_in_count(size: u32, q: int)
    requires
        0 <= q < size,
    ensures
        q / (BLOCK_SIZE as int) < spec_count_data_block(size),
{
    vstd::arithmetic::div_mod::lemma_div_is_ordered(q + 511, size as int + 511, BLOCK_SIZE as int);
    vstd::arithmetic::div_mod::lemma_fundamental_div_mod(q, BLOCK_SIZE as int);
    vstd::arithmetic::div_mod::lemma_fundamental_div_mod_converse(q + 512, BLOCK_SIZE as int, q / 512 + 1, q % 512);
    vstd::arithmetic::div_mod::lemma_div_is_ordered(q + 512, size as int + 511, BLOCK_SIZE as int);
}

/// `ceil_div` by 128 grows by one exactly past a multiple of 128.
proof fn lemma_ceil_step(r: int)
    requires
        r >= 0,
    ensures
        ceil_div(r + 1, 128) - ceil_div(r, 128) == if r % 128 == 0 { 1int } else { 0int },
        ceil_div(r + 1, 128) == r / 128 + 1,
{
    vstd::arithmetic::div_mod::lemma_fundamental_div_mod(r, 128);
    vstd::arithmetic::div_mod::lemma_fundamental_div_mod_converse(r + 128, 128, r / 128 + 1, r % 128);
    if r % 128 == 0 {
        vstd::arithmetic::div_mod::lemma_fundamental_div_mod_converse(r + 127, 128, r / 128, 127);
    } else {
        vstd::arithmetic::div_mod::lemma_fundamental_div_mod_converse(r + 127, 128, r / 128 + 1, r % 128 - 1);
    }
}

impl DiskInode {
    /// Logical block `i` adds as many blocks as the count of blocks grows by.
    pub proof fn lemma_step_len(&self, view: Seq<Seq<u8>>, i: int)
        requires
            0 <= i < INDIRECT3_CAP,
        ensures
            self.step_blocks(view, i).len() == spec_total_blocks(i + 1) - spec_total_blocks(i),
            self.step_blocks(view, i).last() == self.spec_block_id(view, i),
            spec_total_blocks(i + 1) - 1 == pos_data(i),
            spec_total_blocks(i + 1) - spec_total_blocks(i) >= 1,
    {
        if INDIRECT1_CAP <= i < INDIRECT2_CAP {
            let r = i - INDIRECT1_CAP;
            lemma_ceil_step(r);
        } else if i >= INDIRECT2_CAP {
            let r = i - INDIRECT2_CAP;
            lemma_ceil_div_step(r, 128);
            lemma_ceil_div_step(r, 16384);
            assert(ceil_div(16384, 128) == 128);
        }
    }

    /// The allocation order has one entry per block the count says.
    pub proof fn lemma_alloc_len(&self, view: Seq<Seq<u8>>, n: nat)
        requires
            n <= INDIRECT3_CAP,
        ensures
            self.alloc_order(view, n).len() == spec_total_blocks(n as int),
        decreases n,
    {
        if n > 0 {
            self.lemma_alloc_len(view, (n - 1) as nat);
            self.lemma_step_len(view, n - 1);
        }
    }

    /// Allocating more blocks keeps the earlier ones in place.
    pub proof fn lemma_alloc_prefix(&self, view: Seq<Seq<u8>>, m: nat, n: nat)
        requires
            m <= n <= INDIRECT3_CAP,
        ensures
            self.alloc_order(view, m).len() <= self.alloc_order(view, n).len(),
            forall|k: int| 0 <= k < self.alloc_order(view, m).len() ==>
                #[trigger] self.alloc_order(view, n)[k] == self.alloc_order(view, m)[k],
        decreases n,
    {
        if n > m {
            self.lemma_alloc_prefix(view, m, (n - 1) as nat);
            self.lemma_alloc_len(view, (n - 1) as nat);
        }
    }

    /// Second-level index block `g` under the third-level block.
    pub open spec fn l2_block(&self, view: Seq<Seq<u8>>, g: int) -> u32 {
        entry(view, self.indirect3, g)
    }

    /// First-level index block `h` under second-level block `g` of the third level.
    pub open spec fn l3_block(&self, view: Seq<Seq<u8>>, g: int, h: int) -> u32 {
        entry(view, self.l2_block(view, g), h)
    }

    /// Second-level block `g` of the third level stands at `pos_l2(g)`.
    proof fn lemma_l2_at(&self, view: Seq<Seq<u8>>, n: nat, g: int)
        requires
            n <= INDIRECT3_CAP,
            0 <= g,
            INDIRECT2_CAP + 16384 * g < n,
        ensures
            pos_l2(g) < spec_total_blocks(n as int),
            self.alloc_order(view, n)[pos_l2(g)] == self.l2_block(view, g),
            spec_total_blocks(INDIRECT2_CAP + 16384 * g) <= pos_l2(g) < pos_data(INDIRECT2_CAP + 16384 * g),
    {
        let i = INDIRECT2_CAP + 16384 * g;
        let r = 16384 * g;
        self.lemma_alloc_prefix(view, (i + 1) as nat, n);
        self.lemma_alloc_len(view, (i + 1) as nat);
        self.lemma_alloc_len(view, i as nat);
        self.lemma_step_len(view, i);
        vstd::arithmetic::div_mod::lemma_fundamental_div_mod_converse(r, 16384, g, 0);
        vstd::arithmetic::div_mod::lemma_fundamental_div_mod_converse(r, 128, 128 * g, 0);
        lemma_ceil_div_step(r, 16384);
        lemma_ceil_div_step(r, 128);
        assert(ceil_div(16384, 128) == 128);
        let st = self.step_blocks(view, i);
        assert(st[if g == 0 { 1int } else { 0int }] == self.l2_block(view, g));
    }

    /// First-level block `h` under second-level block `g` of the third
    /// level stands at `pos_l3(g, h)`.
    proof fn lemma_l3_at(&self, view: Seq<Seq<u8>>, n: nat, g: int, h: int)
        requires
            n <= INDIRECT3_CAP,
            0 <= g,
            0 <= h < 128,
            INDIRECT2_CAP + 16384 * g + 128 * h < n,
        ensures
            pos_l3(g, h) < spec_total_blocks(n as int),
            self.alloc_order(view, n)[pos_l3(g, h)] == self.l3_block(view, g, h),
            spec_total_blocks(INDIRECT2_CAP + 16384 * g + 128 * h) <= pos_l3(g, h) < pos_data(INDIRECT2_CAP + 16384 * g + 128 * h),
    {
        let i = INDIRECT2_CAP + 16384 * g + 128 * h;
        let r = 16384 * g + 128 * h;
        self.lemma_alloc_prefix(view, (i + 1) as nat, n);
        self.lemma_alloc_len(view, (i + 1) as nat);
        self.lemma_alloc_len(view, i as nat);
        self.lemma_step_len(view, i);
        vstd::arithmetic::div_mod::lemma_fundamental_div_mod_converse(r, 16384, g, 128 * h);
        vstd::arithmetic::div_mod::lemma_fundamental_div_mod_converse(r, 128, 128 * g + h, 0);
        vstd::arithmetic::div_mod::lemma_fundamental_div_mod_converse(128 * h, 128, h, 0);
        lemma_ceil_div_step(r, 16384);
        lemma_ceil_div_step(r, 128);
        assert(ceil_div(16384, 128) == 128);
        let st = self.step_blocks(view, i);
        let at = (if r == 0 { 1int } else { 0int }) + (if h == 0 { 1int } else { 0int });
        assert(st[at] == self.l3_block(view, g, h));
    }

    /// The third-level block stands at position 16668.
    proof fn lemma_l1_top_at(&self, view: Seq<Seq<u8>>, n: nat)
        requires
            INDIRECT2_CAP < n <= INDIRECT3_CAP,
        ensures
            16668 < spec_total_blocks(n as int),
            self.alloc_order(view, n)[16668] == self.indirect3,
            spec_total_blocks(INDIRECT2_CAP as int) == 16668,
    {
        self.lemma_alloc_prefix(view, 16539, n);
        self.lemma_alloc_len(view, 16538);
        self.lemma_alloc_len(view, 16539);
        self.lemma_step_len(view, 16538);
        self.lemma_alloc_len(view, n);
        lemma_total_mono(16539, n as int);
        assert(self.step_blocks(view, 16538)[0] == self.indirect3);
    }

    /// Where the third level's index blocks stand in the allocation order.
    pub proof fn lemma_alloc_positions3(&self, view: Seq<Seq<u8>>, n: nat)
        requires
            n <= INDIRECT3_CAP,
        ensures
            n > INDIRECT2_CAP ==> 16668 < spec_total_blocks(n as int) && self.alloc_order(view, n)[16668] == self.indirect3,
            forall|g: int| 0 <= g && INDIRECT2_CAP + 16384 * g < n ==> pos_l2(g) < spec_total_blocks(n as int)
                && #[trigger] self.alloc_order(view, n)[pos_l2(g)] == self.l2_block(view, g)
                && spec_total_blocks(INDIRECT2_CAP + 16384 * g) <= pos_l2(g) < pos_data(INDIRECT2_CAP + 16384 * g),
            forall|g: int, h: int| 0 <= g && 0 <= h < 128 && INDIRECT2_CAP + 16384 * g + 128 * h < n ==> pos_l3(g, h) < spec_total_blocks(n as int)
                && #[trigger] self.alloc_order(view, n)[pos_l3(g, h)] == self.l3_block(view, g, h)
                && spec_total_blocks(INDIRECT2_CAP + 16384 * g + 128 * h) <= pos_l3(g, h) < pos_data(INDIRECT2_CAP + 16384 * g + 128 * h),
    {
        if n > INDIRECT2_CAP {
            self.lemma_l1_top_at(view, n);
        }
        assert forall|g: int| 0 <= g && INDIRECT2_CAP + 16384 * g < n implies pos_l2(g) < spec_total_blocks(n as int)
            && #[trigger] self.alloc_order(view, n)[pos_l2(g)] == self.l2_block(view, g)
            && spec_total_blocks(INDIRECT2_CAP + 16384 * g) <= pos_l2(g) < pos_data(INDIRECT2_CAP + 16384 * g) by {
            self.lemma_l2_at(view, n, g);
        }
        assert forall|g: int, h: int| 0 <= g && 0 <= h < 128 && INDIRECT2_CAP + 16384 * g + 128 * h < n implies pos_l3(g, h) < spec_total_blocks(n as int)
            && #[trigger] self.alloc_order(view, n)[pos_l3(g, h)] == self.l3_block(view, g, h)
            && spec_total_blocks(INDIRECT2_CAP + 16384 * g + 128 * h) <= pos_l3(g, h) < pos_data(INDIRECT2_CAP + 16384 * g + 128 * h) by {
            self.lemma_l3_at(view, n, g, h);
        }
    }

    /// Where each block of the tree stands in the allocation order.
    pub proof fn lemma_alloc_positions(&self, view: Seq<Seq<u8>>, n: nat)
        requires
            n <= INDIRECT3_CAP,
        ensures
            self.alloc_order(view, n).len() == spec_total_blocks(n as int),
            forall|i: int| 0 <= i < n ==> pos_data(i) < spec_total_blocks(n as int)
                && #[trigger] self.alloc_order(view, n)[pos_data(i)] == self.spec_block_id(view, i),
            n > DIRECT_CAP ==> self.alloc_order(view, n)[26] == self.indirect1,
            n > INDIRECT1_CAP ==> self.alloc_order(view, n)[155] == self.indirect2,
            forall|q: int| 0 <= q < 128 && INDIRECT1_CAP + 128 * q < n ==> 156 + 129 * q < spec_total_blocks(n as int)
                && #[trigger] self.alloc_order(view, n)[156 + 129 * q] == entry(view, self.indirect2, q),
    {
        self.lemma_alloc_len(view, n);
        assert forall|i: int| 0 <= i < n implies pos_data(i) < spec_total_blocks(n as int)
            && #[trigger] self.alloc_order(view, n)[pos_data(i)] == self.spec_block_id(view, i) by {
            self.lemma_data_at(view, n, i);
        }
        if n > DIRECT_CAP {
            self.lemma_alloc_prefix(view, 27, n);
            self.lemma_alloc_len(view, 26);
            self.lemma_alloc_len(view, 27);
            self.lemma_step_len(view, 26);
        }
        if n > INDIRECT1_CAP {
            self.lemma_alloc_prefix(view, 155, n);
            self.lemma_alloc_len(view, 154);
            self.lemma_alloc_len(view, 155);
            self.lemma_step_len(view, 154);
        }
        assert forall|q: int| 0 <= q < 128 && INDIRECT1_CAP + 128 * q < n implies 156 + 129 * q < spec_total_blocks(n as int)
            && #[trigger] self.alloc_order(view, n)[156 + 129 * q] == entry(view, self.indirect2, q) by {
            self.lemma_l1_at(view, n, q);
        }
    }

    /// The data block of logical block `i` stands at `pos_data(i)`.
    proof fn lemma_data_at(&self, view: Seq<Seq<u8>>, n: nat, i: int)
        requires
            n <= INDIRECT3_CAP,
            0 <= i < n,
        ensures
            pos_data(i) < spec_total_blocks(n as int),
            self.alloc_order(view, n)[pos_data(i)] == self.spec_block_id(view, i),
    {
        self.lemma_alloc_prefix(view, (i + 1) as nat, n);
        self.lemma_alloc_len(view, (i + 1) as nat);
        self.lemma_alloc_len(view, i as nat);
        self.lemma_alloc_len(view, n);
        self.lemma_step_len(view, i);
    }

    /// First-level block `q` of the second level stands at `156 + 129 * q`.
    proof fn lemma_l1_at(&self, view: Seq<Seq<u8>>, n: nat, q: int)
        requires
            n <= INDIRECT3_CAP,
            0 <= q < 128,
            INDIRECT1_CAP + 128 * q < n,
        ensures
            156 + 129 * q < spec_total_blocks(n as int),
            self.alloc_order(view, n)[156 + 129 * q] == entry(view, self.indirect2, q),
    {
        let i = INDIRECT1_CAP + 128 * q;
        self.lemma_alloc_prefix(view, (i + 1) as nat, n);
        self.lemma_alloc_len(view, (i + 1) as nat);
        self.lemma_alloc_len(view, i as nat);
        self.lemma_alloc_len(view, n);
        self.lemma_step_len(view, i);
        lemma_ceil_step(128 * q);
        assert((128 * q) / 128 == q);
        assert((128 * q) % 128 == 0);
    }
}


impl DiskInode {
    /// Data positions come in order.
    pub proof fn lemma_pos_mono(&self, view: Seq<Seq<u8>>, i: int, j: int)
        requires
            0 <= i < j < INDIRECT3_CAP,
        ensures
            pos_data(i) < spec_total_blocks(j) <= pos_data(j),
    {
        self.lemma_step_len(view, i);
        self.lemma_step_len(view, j);
        lemma_total_mono(i + 1, j);
    }

    /// No data block stands at a position that a step holds before its data block.
    pub proof fn lemma_index_pos(&self, view: Seq<Seq<u8>>, j: int, p: int, i: int)
        requires
            0 <= j < INDIRECT3_CAP,
            0 <= i < INDIRECT3_CAP,
            spec_total_blocks(j) <= p < pos_data(j),
        ensures
            pos_data(i) != p,
    {
        if i < j {
            self.lemma_pos_mono(view, i, j);
        } else if i > j {
            self.lemma_pos_mono(view, j, i);
        }
    }

    /// In a sound tree, the data blocks are on the device, differ from each
    /// other and from every index block.
    pub proof fn lemma_tree_distinct(&self, view: Seq<Seq<u8>>, n: nat)
        requires
            self.tree_wf(view, n),
        ensures
            forall|i: int| 0 <= i < n ==> #[trigger] self.readable(view, i),
            forall|i: int, j: int| 0 <= i < n && 0 <= j < n && i != j ==>
                #[trigger] self.spec_block_id(view, i) != #[trigger] self.spec_block_id(view, j),
            forall|i: int| 0 <= i < n && n > DIRECT_CAP ==> #[trigger] self.spec_block_id(view, i) != self.indirect1,
            forall|i: int| 0 <= i < n && n > INDIRECT1_CAP ==> #[trigger] self.spec_block_id(view, i) != self.indirect2,
            forall|i: int, q: int| 0 <= i < n && 0 <= q < 128 && INDIRECT1_CAP + 128 * q < n ==>
                #[trigger] self.spec_block_id(view, i) != #[trigger] entry(view, self.indirect2, q),
            n > INDIRECT1_CAP ==> self.indirect1 != self.indirect2,
            n > DIRECT_CAP ==> self.indirect1 < view.len(),
            n > INDIRECT1_CAP ==> self.indirect2 < view.len(),
            forall|q: int| 0 <= q < 128 && INDIRECT1_CAP + 128 * q < n ==> #[trigger] entry(view, self.indirect2, q) != self.indirect1
                && entry(view, self.indirect2, q) != self.indirect2 && entry(view, self.indirect2, q) < view.len(),
            forall|q: int, q2: int| 0 <= q < q2 < 128 && INDIRECT1_CAP + 128 * q2 < n ==>
                #[trigger] entry(view, self.indirect2, q) != #[trigger] entry(view, self.indirect2, q2),
            forall|i: int, b: int| 0 <= i < n && #[trigger] self.is_index_block(view, n, b) ==> #[trigger] self.spec_block_id(view, i) != b,
            forall|b: int| #[trigger] self.is_index_block(view, n, b) ==> 0 <= b < view.len(),
    {
        let blocks = self.alloc_order(view, n);
        self.lemma_alloc_positions(view, n);
        self.lemma_alloc_positions3(view, n);
        assert forall|i: int| 0 <= i < n implies #[trigger] self.readable(view, i) by {
            assert(blocks[pos_data(i)] == self.spec_block_id(view, i));
            if i >= DIRECT_CAP && i < INDIRECT1_CAP {
                assert(blocks[26] == self.indirect1);
            }
            if i >= INDIRECT1_CAP && i < INDIRECT2_CAP {
                let q = (i - INDIRECT1_CAP) / 128;
                assert(blocks[155] == self.indirect2);
                assert(blocks[156 + 129 * q] == entry(view, self.indirect2, q));
            }
            if i >= INDIRECT2_CAP {
                let r = i - INDIRECT2_CAP;
                let g = r / 16384;
                let h = (r % 16384) / 128;
                vstd::arithmetic::div_mod::lemma_fundamental_div_mod(r, 16384);
                vstd::arithmetic::div_mod::lemma_fundamental_div_mod(r % 16384, 128);
                assert(INDIRECT2_CAP + 16384 * g + 128 * h < n);
                assert(blocks[16668] == self.indirect3);
                assert(blocks[pos_l2(g)] == self.l2_block(view, g));
                assert(blocks[pos_l3(g, h)] == self.l3_block(view, g, h));
            }
        }
        assert forall|i: int, j: int| 0 <= i < n && 0 <= j < n && i != j implies
            #[trigger] self.spec_block_id(view, i) != #[trigger] self.spec_block_id(view, j) by {
            assert(blocks[pos_data(i)] == self.spec_block_id(view, i));
            assert(blocks[pos_data(j)] == self.spec_block_id(view, j));
            if i < j { self.lemma_pos_mono(view, i, j); } else { self.lemma_pos_mono(view, j, i); }
        }
        assert forall|i: int, b: int| 0 <= i < n && #[trigger] self.is_index_block(view, n, b) implies #[trigger] self.spec_block_id(view, i) != b by {
            self.lemma_index_block(view, n, b);
        }
        assert forall|b: int| #[trigger] self.is_index_block(view, n, b) implies 0 <= b < view.len() by {
            self.lemma_index_block(view, n, b);
        }
        assert forall|i: int, q: int| 0 <= i < n && 0 <= q < 128 && INDIRECT1_CAP + 128 * q < n implies
            #[trigger] self.spec_block_id(view, i) != #[trigger] entry(view, self.indirect2, q) by {
            assert(self.is_index_block(view, n, entry(view, self.indirect2, q) as int));
        }
        assert forall|i: int| 0 <= i < n && n > DIRECT_CAP implies #[trigger] self.spec_block_id(view, i) != self.indirect1 by {
            assert(self.is_index_block(view, n, self.indirect1 as int));
        }
        assert forall|i: int| 0 <= i < n && n > INDIRECT1_CAP implies #[trigger] self.spec_block_id(view, i) != self.indirect2 by {
            assert(self.is_index_block(view, n, self.indirect2 as int));
        }
        assert forall|q: int| 0 <= q < 128 && INDIRECT1_CAP + 128 * q < n implies #[trigger] entry(view, self.indirect2, q) != self.indirect1
            && entry(view, self.indirect2, q) != self.indirect2 && entry(view, self.indirect2, q) < view.len() by {
            assert(blocks[156 + 129 * q] == entry(view, self.indirect2, q));
        }
        assert forall|q: int, q2: int| 0 <= q < q2 < 128 && INDIRECT1_CAP + 128 * q2 < n implies
            #[trigger] entry(view, self.indirect2, q) != #[trigger] entry(view, self.indirect2, q2) by {
            assert(blocks[156 + 129 * q] == entry(view, self.indirect2, q));
            assert(blocks[156 + 129 * q2] == entry(view, self.indirect2, q2));
        }
    }

    /// In a sound tree the index blocks of the third level differ from each
    /// other and from the first- and second-level ones.
    pub proof fn lemma_tree_distinct3(&self, view: Seq<Seq<u8>>, n: nat)
        requires
            self.tree_wf(view, n),
        ensures
            n > INDIRECT2_CAP ==> self.indirect3 != self.indirect1 && self.indirect3 != self.indirect2,
            forall|q: int| 0 <= q < 128 && INDIRECT1_CAP + 128 * q < n && n > INDIRECT2_CAP ==> #[trigger] entry(view, self.indirect2, q) != self.indirect3,
            forall|g: int| 0 <= g && INDIRECT2_CAP + 16384 * g < n ==> {
                &&& #[trigger] self.l2_block(view, g) != self.indirect1
                &&& self.l2_block(view, g) != self.indirect2
                &&& self.l2_block(view, g) != self.indirect3
            },
            forall|g: int, h: int| 0 <= g && 0 <= h < 128 && INDIRECT2_CAP + 16384 * g + 128 * h < n ==> {
                &&& #[trigger] self.l3_block(view, g, h) != self.indirect1
                &&& self.l3_block(view, g, h) != self.indirect2
                &&& self.l3_block(view, g, h) != self.indirect3
            },
            forall|q: int, g: int| 0 <= q < 128 && 0 <= g && INDIRECT2_CAP + 16384 * g < n ==>
                #[trigger] entry(view, self.indirect2, q) != #[trigger] self.l2_block(view, g),
            forall|q: int, g: int, h: int| 0 <= q < 128 && 0 <= g && 0 <= h < 128 && INDIRECT2_CAP + 16384 * g + 128 * h < n ==>
                #[trigger] entry(view, self.indirect2, q) != #[trigger] self.l3_block(view, g, h),
            forall|g: int, g2: int| 0 <= g && 0 <= g2 && g != g2 && INDIRECT2_CAP + 16384 * g < n && INDIRECT2_CAP + 16384 * g2 < n ==>
                #[trigger] self.l2_block(view, g) != #[trigger] self.l2_block(view, g2),
            forall|g: int, g2: int, h2: int| 0 <= g && 0 <= g2 && 0 <= h2 < 128 && INDIRECT2_CAP + 16384 * g < n
                && INDIRECT2_CAP + 16384 * g2 + 128 * h2 < n ==>
                #[trigger] self.l2_block(view, g) != #[trigger] self.l3_block(view, g2, h2),
            forall|g: int, h: int, g2: int, h2: int| 0 <= g && 0 <= h < 128 && 0 <= g2 && 0 <= h2 < 128 && (g != g2 || h != h2)
                && INDIRECT2_CAP + 16384 * g + 128 * h < n && INDIRECT2_CAP + 16384 * g2 + 128 * h2 < n ==>
                #[trigger] self.l3_block(view, g, h) != #[trigger] self.l3_block(view, g2, h2),
    {
        let blocks = self.alloc_order(view, n);
        self.lemma_alloc_positions(view, n);
        self.lemma_alloc_positions3(view, n);
        assert forall|q: int| 0 <= q < 128 && INDIRECT1_CAP + 128 * q < n && n > INDIRECT2_CAP implies #[trigger] entry(view, self.indirect2, q) != self.indirect3 by {
            assert(blocks[156 + 129 * q] == entry(view, self.indirect2, q));
        }
        assert forall|g: int| 0 <= g && INDIRECT2_CAP + 16384 * g < n implies {
            &&& #[trigger] self.l2_block(view, g) != self.indirect1
            &&& self.l2_block(view, g) != self.indirect2
            &&& self.l2_block(view, g) != self.indirect3
        } by {
            assert(blocks[pos_l2(g)] == self.l2_block(view, g));
        }
        assert forall|g: int, h: int| 0 <= g && 0 <= h < 128 && INDIRECT2_CAP + 16384 * g + 128 * h < n implies {
            &&& #[trigger] self.l3_block(view, g, h) != self.indirect1
            &&& self.l3_block(view, g, h) != self.indirect2
            &&& self.l3_block(view, g, h) != self.indirect3
        } by {
            assert(blocks[pos_l3(g, h)] == self.l3_block(view, g, h));
        }
        assert forall|q: int, g: int| 0 <= q < 128 && 0 <= g && INDIRECT2_CAP + 16384 * g < n implies
            #[trigger] entry(view, self.indirect2, q) != #[trigger] self.l2_block(view, g) by {
            assert(blocks[156 + 129 * q] == entry(view, self.indirect2, q));
            assert(blocks[pos_l2(g)] == self.l2_block(view, g));
        }
        assert forall|q: int, g: int, h: int| 0 <= q < 128 && 0 <= g && 0 <= h < 128 && INDIRECT2_CAP + 16384 * g + 128 * h < n implies
            #[trigger] entry(view, self.indirect2, q) != #[trigger] self.l3_block(view, g, h) by {
            assert(blocks[156 + 129 * q] == entry(view, self.indirect2, q));
            assert(blocks[pos_l3(g, h)] == self.l3_block(view, g, h));
        }
        assert forall|g: int, g2: int| 0 <= g && 0 <= g2 && g != g2 && INDIRECT2_CAP + 16384 * g < n && INDIRECT2_CAP + 16384 * g2 < n implies
            #[trigger] self.l2_block(view, g) != #[trigger] self.l2_block(view, g2) by {
            assert(blocks[pos_l2(g)] == self.l2_block(view, g));
            assert(blocks[pos_l2(g2)] == self.l2_block(view, g2));
        }
        assert forall|g: int, g2: int, h2: int| 0 <= g && 0 <= g2 && 0 <= h2 < 128 && INDIRECT2_CAP + 16384 * g < n
            && INDIRECT2_CAP + 16384 * g2 + 128 * h2 < n implies
            #[trigger] self.l2_block(view, g) != #[trigger] self.l3_block(view, g2, h2) by {
            assert(blocks[pos_l2(g)] == self.l2_block(view, g));
            assert(blocks[pos_l3(g2, h2)] == self.l3_block(view, g2, h2));
            assert(pos_l2(g) != pos_l3(g2, h2)) by {
                if g > g2 {
                    assert(16513 * g >= 16513 * g2 + 16513);
                } else {
                    assert(16513 * g <= 16513 * g2);
                }
            }
        }
        assert forall|g: int, h: int, g2: int, h2: int| 0 <= g && 0 <= h < 128 && 0 <= g2 && 0 <= h2 < 128 && (g != g2 || h != h2)
            && INDIRECT2_CAP + 16384 * g + 128 * h < n && INDIRECT2_CAP + 16384 * g2 + 128 * h2 < n implies
            #[trigger] self.l3_block(view, g, h) != #[trigger] self.l3_block(view, g2, h2) by {
            assert(blocks[pos_l3(g, h)] == self.l3_block(view, g, h));
            assert(blocks[pos_l3(g2, h2)] == self.l3_block(view, g2, h2));
            assert(pos_l3(g, h) != pos_l3(g2, h2)) by {
                if g > g2 {
                    assert(16513 * g >= 16513 * g2 + 16513);
                } else if g < g2 {
                    assert(16513 * g2 >= 16513 * g + 16513);
                }
            }
        }
    }

    /// The index blocks of the first `n` logical blocks hold the same bytes in both views.
    pub open spec fn same_index(&self, v: Seq<Seq<u8>>, v2: Seq<Seq<u8>>, n: nat) -> bool {
        &&& n > DIRECT_CAP ==> v2[self.indirect1 as int] == v[self.indirect1 as int]
        &&& n > INDIRECT1_CAP ==> v2[self.indirect2 as int] == v[self.indirect2 as int]
        &&& forall|q: int| 0 <= q < 128 && INDIRECT1_CAP + 128 * q < n ==>
            v2[#[trigger] entry(v, self.indirect2, q) as int] == v[entry(v, self.indirect2, q) as int]
        &&& n > INDIRECT2_CAP ==> v2[self.indirect3 as int] == v[self.indirect3 as int]
        &&& forall|g: int| 0 <= g && INDIRECT2_CAP + 16384 * g < n ==>
            v2[#[trigger] self.l2_block(v, g) as int] == v[self.l2_block(v, g) as int]
        &&& forall|g: int, h: int| 0 <= g && 0 <= h < 128 && INDIRECT2_CAP + 16384 * g + 128 * h < n ==>
            v2[#[trigger] self.l3_block(v, g, h) as int] == v[self.l3_block(v, g, h) as int]
    }

    /// Looking up logical block `i` reads the same in views that agree on the index blocks.
    proof fn lemma_same_index_at(&self, v: Seq<Seq<u8>>, v2: Seq<Seq<u8>>, n: nat, i: int)
        requires
            n <= INDIRECT3_CAP,
            self.same_index(v, v2, n),
            0 <= i < n,
        ensures
            self.spec_block_id(v2, i) == self.spec_block_id(v, i),
            self.step_blocks(v2, i) == self.step_blocks(v, i),
            self.readable(v2, i) == self.readable(v, i) || v2.len() != v.len(),
            self.lookup_ok(v2, i) == self.lookup_ok(v, i) || v2.len() != v.len(),
    {
        if INDIRECT1_CAP <= i < INDIRECT2_CAP {
            let q = (i - INDIRECT1_CAP) / 128;
            assert(INDIRECT1_CAP + 128 * q < n);
            assert(v2[entry(v, self.indirect2, q) as int] == v[entry(v, self.indirect2, q) as int]);
        }
        if i >= INDIRECT2_CAP {
            let r = i - INDIRECT2_CAP;
            let g = r / 16384;
            let h = (r % 16384) / 128;
            vstd::arithmetic::div_mod::lemma_fundamental_div_mod(r, 16384);
            vstd::arithmetic::div_mod::lemma_fundamental_div_mod(r % 16384, 128);
            assert(INDIRECT2_CAP + 16384 * g + 128 * h < n);
            assert(v2[self.l2_block(v, g) as int] == v[self.l2_block(v, g) as int]);
            assert(self.l2_block(v2, g) == self.l2_block(v, g));
            assert(v2[self.l3_block(v, g, h) as int] == v[self.l3_block(v, g, h) as int]);
            assert(self.l3_block(v2, g, h) == self.l3_block(v, g, h));
        }
    }

    /// Views that agree on every block of a sound tree agree on its index blocks.
    pub proof fn lemma_same_blocks_index(&self, v: Seq<Seq<u8>>, v2: Seq<Seq<u8>>, n: nat)
        requires
            self.tree_wf(v, n),
            forall|k: int| 0 <= k < self.alloc_order(v, n).len() ==> #[trigger] v2[self.alloc_order(v, n)[k] as int] == v[self.alloc_order(v, n)[k] as int],
        ensures
            self.same_index(v, v2, n),
    {
        let blocks = self.alloc_order(v, n);
        assert forall|b: int| #[trigger] self.is_index_block(v, n, b) implies v2[b] == v[b] by {
            self.lemma_index_block(v, n, b);
            let k = choose|k: int| 0 <= k < blocks.len() && blocks[k] == b;
            assert(v2[blocks[k] as int] == v[blocks[k] as int]);
        }
        if n > DIRECT_CAP {
            assert(self.is_index_block(v, n, self.indirect1 as int));
        }
        if n > INDIRECT1_CAP {
            assert(self.is_index_block(v, n, self.indirect2 as int));
        }
        if n > INDIRECT2_CAP {
            assert(self.is_index_block(v, n, self.indirect3 as int));
        }
        assert forall|q: int| 0 <= q < 128 && INDIRECT1_CAP + 128 * q < n implies
            v2[#[trigger] entry(v, self.indirect2, q) as int] == v[entry(v, self.indirect2, q) as int] by {
            assert(self.is_index_block(v, n, entry(v, self.indirect2, q) as int));
        }
        assert forall|g: int| 0 <= g && INDIRECT2_CAP + 16384 * g < n implies
            v2[#[trigger] self.l2_block(v, g) as int] == v[self.l2_block(v, g) as int] by {
            assert(self.is_index_block(v, n, self.l2_block(v, g) as int));
        }
        assert forall|g: int, h: int| 0 <= g && 0 <= h < 128 && INDIRECT2_CAP + 16384 * g + 128 * h < n implies
            v2[#[trigger] self.l3_block(v, g, h) as int] == v[self.l3_block(v, g, h) as int] by {
            assert(self.is_index_block(v, n, self.l3_block(v, g, h) as int));
        }
    }

    /// Lookups only read index blocks: views that agree on them agree on
    /// the whole tree.
    pub proof fn lemma_same_index(&self, v: Seq<Seq<u8>>, v2: Seq<Seq<u8>>, n: nat)
        requires
            n <= INDIRECT3_CAP,
            self.same_index(v, v2, n),
        ensures
            forall|i: int| 0 <= i < n ==> #[trigger] self.spec_block_id(v2, i) == self.spec_block_id(v, i),
            forall|i: int| 0 <= i < n ==> #[trigger] self.step_blocks(v2, i) == self.step_blocks(v, i),
            forall|i: int| 0 <= i < n ==> #[trigger] self.readable(v2, i) == self.readable(v, i) || v2.len() != v.len(),
            forall|i: int| 0 <= i < n ==> #[trigger] self.lookup_ok(v2, i) == self.lookup_ok(v, i) || v2.len() != v.len(),
            self.alloc_order(v2, n) == self.alloc_order(v, n),
        decreases n,
    {
        assert forall|i: int| 0 <= i < n implies #[trigger] self.spec_block_id(v2, i) == self.spec_block_id(v, i) by {
            self.lemma_same_index_at(v, v2, n, i);
        }
        assert forall|i: int| 0 <= i < n implies #[trigger] self.step_blocks(v2, i) == self.step_blocks(v, i) by {
            self.lemma_same_index_at(v, v2, n, i);
        }
        assert forall|i: int| 0 <= i < n implies #[trigger] self.readable(v2, i) == self.readable(v, i) || v2.len() != v.len() by {
            self.lemma_same_index_at(v, v2, n, i);
        }
        assert forall|i: int| 0 <= i < n implies #[trigger] self.lookup_ok(v2, i) == self.lookup_ok(v, i) || v2.len() != v.len() by {
            self.lemma_same_index_at(v, v2, n, i);
        }
        if n > 0 {
            let m = (n - 1) as nat;
            assert(self.same_index(v, v2, m));
            self.lemma_same_index(v, v2, m);
        }
    }
}


impl DiskInode {
    /// Writes `buf` from byte `offset` of the file, up to the end of the
    /// file (the file does not grow); returns the number of bytes written.
    pub fn write_at<D: BlockDevice>(&mut self, offset: usize, buf: &[u8], cache: &mut BlockCacheManager<D>) -> (r: usize)
        requires
            old(cache).wf(),
            offset + buf@.len() <= usize::MAX,
            offset <= old(self).size,
            old(self).tree_wf(old(cache)@, spec_count_data_block(old(self).size)),
        ensures
            *final(self) == *old(self),
            final(cache).wf(),
            final(cache).device_blocks().len() == old(cache).device_blocks().len(),
            final(cache)@.len() == old(cache)@.len(),
            r == old(self).io_end(offset as int, buf@.len() as int) - offset,
            forall|i: int| 0 <= i < spec_count_data_block(old(self).size) ==>
                #[trigger] old(self).spec_block_id(final(cache)@, i) == old(self).spec_block_id(old(cache)@, i),
            old(self).blocks(final(cache)@) == old(self).blocks(old(cache)@),
            forall|p: int| 0 <= p < r ==> #[trigger] old(self).file_byte(final(cache)@, offset + p) == buf@[p],
            forall|p: int| 0 <= p < old(self).size && (p < offset || p >= offset + r) ==>
                #[trigger] old(self).file_byte(final(cache)@, p) == old(self).file_byte(old(cache)@, p),
            forall|b: int| 0 <= b < old(cache)@.len() && (forall|i: int| 0 <= i < spec_count_data_block(old(self).size)
                ==> #[trigger] old(self).spec_block_id(old(cache)@, i) != b) ==> #[trigger] final(cache)@[b] == old(cache)@[b],
    {
        let ghost v0 = cache@;
        let ghost n = spec_count_data_block(self.size);
        proof {
            cache.lemma_wf_view();
            self.lemma_tree_distinct(v0, n);
        }
        let mut start = offset;
        let end = if offset + buf.len() < self.size as usize { offset + buf.len() } else { self.size as usize };
        if end <= offset {
            return 0;
        }
        proof { lemma_in_count(self.size, offset as int); }
        let mut written_size: usize = 0;
        let blen = buf.len();
        loop
            invariant_except_break
                start <= end,
                start < end || offset == end,
                offset <= start,
                start == offset + written_size,
            invariant
                blen == buf@.len(),
                cache.wf(),
                blocks_wf(cache@),
                cache@.len() == v0.len(),
                cache.device_blocks().len() == old(cache).device_blocks().len(),
                *self == *old(self),
                n == spec_count_data_block(self.size),
                self.tree_wf(v0, n),
                self.readable(v0, offset as int / (BLOCK_SIZE as int)),
                forall|i: int| 0 <= i < n ==> #[trigger] self.readable(v0, i),
                forall|i: int, j: int| 0 <= i < n && 0 <= j < n && i != j ==>
                    #[trigger] self.spec_block_id(v0, i) != #[trigger] self.spec_block_id(v0, j),
                self.same_index(v0, cache@, n),
                end == self.io_end(offset as int, buf@.len() as int),
                end <= offset + buf@.len(),
                offset <= end,
                end <= self.size,
                offset == end ==> written_size == 0,
                forall|p: int| 0 <= p < written_size ==> #[trigger] self.file_byte(cache@, offset + p) == buf@[p],
                forall|p: int| 0 <= p < self.size && (p < offset || p >= offset + written_size) ==>
                    #[trigger] self.file_byte(cache@, p) == self.file_byte(v0, p),
                forall|b: int| 0 <= b < v0.len() && (forall|i: int| 0 <= i < n ==> #[trigger] self.spec_block_id(v0, i) != b)
                    ==> #[trigger] cache@[b] == v0[b],
                offset == end ==> cache@ == v0,
            ensures
                written_size == end - offset,
                forall|p: int| 0 <= p < written_size ==> #[trigger] self.file_byte(cache@, offset + p) == buf@[p],
                forall|p: int| 0 <= p < self.size && (p < offset || p >= offset + written_size) ==>
                    #[trigger] self.file_byte(cache@, p) == self.file_byte(v0, p),
            decreases end - start,
        {
            let ghost vk = cache@;
            let block_index = start / BLOCK_SIZE;
            let next_boundary: u64 = (block_index as u64 + 1) * 512;
            let current_block_end = if next_boundary < end as u64 { next_boundary as usize } else { end };
            let block_write_size = current_block_end - start;
            proof {
                self.lemma_same_index(v0, vk, n);
                vstd::arithmetic::div_mod::lemma_div_is_ordered(offset as int, start as int, (BLOCK_SIZE as int));
                if start < end {
                    vstd::arithmetic::div_mod::lemma_div_is_ordered(start as int, end - 1, (BLOCK_SIZE as int));
                    vstd::arithmetic::div_mod::lemma_div_is_ordered(end - 1, self.size - 1, (BLOCK_SIZE as int));
                }
                assert(self.readable(v0, block_index as int));
            }
            let bid = self.block_id(block_index as u32, cache);
            let in_block = start % BLOCK_SIZE;
            let src = &buf[written_size..written_size + block_write_size];
            cache.write(bid as usize, in_block, src);
            proof {
                self.lemma_tree_distinct(v0, n);
                let v1 = cache@;
                let bi = block_index as int;
                assert(bid == self.spec_block_id(v0, bi));
                assert(v1 == vk.update(bid as int, splice(vk[bid as int], in_block as int, src@)));
                if start < end {
                    // the written block is a data block, not an index block
                    assert(bi < n);
                    assert(self.same_index(v0, v1, n)) by {
                        assert forall|q: int| 0 <= q < 128 && INDIRECT1_CAP + 128 * q < n implies
                            v1[#[trigger] entry(v0, self.indirect2, q) as int] == v0[entry(v0, self.indirect2, q) as int] by {
                            assert(self.spec_block_id(v0, bi) != entry(v0, self.indirect2, q));
                            assert(vk[entry(v0, self.indirect2, q) as int] == v0[entry(v0, self.indirect2, q) as int]);
                        }
                        if n > DIRECT_CAP {
                            assert(self.spec_block_id(v0, bi) != self.indirect1);
                        }
                        if n > INDIRECT1_CAP {
                            assert(self.spec_block_id(v0, bi) != self.indirect2);
                        }
                        if n > INDIRECT2_CAP {
                            assert(self.is_index_block(v0, n, self.indirect3 as int));
                            assert(self.spec_block_id(v0, bi) != self.indirect3);
                        }
                        assert forall|g: int| 0 <= g && INDIRECT2_CAP + 16384 * g < n implies
                            v1[#[trigger] self.l2_block(v0, g) as int] == v0[self.l2_block(v0, g) as int] by {
                            assert(self.is_index_block(v0, n, self.l2_block(v0, g) as int));
                            assert(self.spec_block_id(v0, bi) != self.l2_block(v0, g));
                            assert(vk[self.l2_block(v0, g) as int] == v0[self.l2_block(v0, g) as int]);
                        }
                        assert forall|g: int, h: int| 0 <= g && 0 <= h < 128 && INDIRECT2_CAP + 16384 * g + 128 * h < n implies
                            v1[#[trigger] self.l3_block(v0, g, h) as int] == v0[self.l3_block(v0, g, h) as int] by {
                            assert(self.is_index_block(v0, n, self.l3_block(v0, g, h) as int));
                            assert(self.spec_block_id(v0, bi) != self.l3_block(v0, g, h));
                            assert(vk[self.l3_block(v0, g, h) as int] == v0[self.l3_block(v0, g, h) as int]);
                        }
                    }
                    self.lemma_same_index(v0, v1, n);
                    assert forall|p: int| 0 <= p < written_size + block_write_size implies
                        #[trigger] self.file_byte(v1, offset + p) == buf@[p] by {
                        let q = offset + p;
                        lemma_in_count(self.size, q);
                        let qb = q / (BLOCK_SIZE as int);
                        let qo = q % (BLOCK_SIZE as int);
                        let d = self.spec_block_id(v0, qb);
                        assert(self.spec_block_id(v1, qb) == d);
                        assert(self.spec_block_id(vk, qb) == d);
                        assert(self.readable(v0, qb));
                        assert(self.file_byte(v1, q) == v1[d as int][qo]);
                        if p < written_size {
                            assert(self.file_byte(vk, q) == buf@[p]);
                            assert(self.file_byte(vk, q) == vk[d as int][qo]);
                            if qb != bi {
                                assert(d != self.spec_block_id(v0, bi));
                                assert(v1[d as int] == vk[d as int]);
                            } else {
                                assert(qo < in_block);
                                assert(v1[d as int][qo] == vk[d as int][qo]);
                            }
                        } else {
                            assert(qb == bi);
                            assert(qo == in_block + (p - written_size));
                            assert(v1[d as int][qo] == src@[p - written_size]);
                        }
                    }
                    assert forall|p: int| 0 <= p < self.size && (p < offset || p >= offset + written_size + block_write_size) implies
                        #[trigger] self.file_byte(v1, p) == self.file_byte(v0, p) by {
                        lemma_in_count(self.size, p);
                        let qb = p / (BLOCK_SIZE as int);
                        let qo = p % (BLOCK_SIZE as int);
                        let d = self.spec_block_id(v0, qb);
                        assert(self.spec_block_id(v1, qb) == d);
                        assert(self.spec_block_id(vk, qb) == d);
                        assert(self.readable(v0, qb));
                        assert(self.file_byte(vk, p) == self.file_byte(v0, p));
                        assert(self.file_byte(vk, p) == vk[d as int][qo]);
                        assert(self.file_byte(v1, p) == v1[d as int][qo]);
                        if qb != bi {
                            assert(d != self.spec_block_id(v0, bi));
                            assert(v1[d as int] == vk[d as int]);
                        } else {
                            assert(qo < in_block || qo >= in_block + block_write_size);
                            assert(v1[d as int][qo] == vk[d as int][qo]);
                        }
                    }
                    assert forall|b: int| 0 <= b < v0.len() && (forall|i: int| 0 <= i < n ==> #[trigger] self.spec_block_id(v0, i) != b)
                        implies #[trigger] v1[b] == v0[b] by {
                        assert(self.spec_block_id(v0, bi) != b);
                    }
                } else {
                    assert(src@.len() == 0);
                    assert(splice(vk[bid as int], in_block as int, src@) =~= vk[bid as int]);
                    assert(v1 =~= vk);
                }
            }
            written_size = written_size + block_write_size;
            if current_block_end == end {
                break;
            }
            start = current_block_end;
        }
        proof {
            self.lemma_same_index(v0, cache@, n);
        }
        written_size
    }
}


impl DiskInode {
    /// Empties the inode and returns every block its tree used, data and
    /// index blocks, in the order they were allocated.
    pub fn clear<D: BlockDevice>(&mut self, cache: &mut BlockCacheManager<D>) -> (r: Vec<u32>)
        requires
            old(cache).wf(),
            spec_count_data_block(old(self).size) <= INDIRECT3_CAP,
            forall|i: int| 0 <= i < spec_count_data_block(old(self).size) ==> #[trigger] old(self).readable(old(cache)@, i),
        ensures
            final(cache).wf(),
            final(cache)@ == old(cache)@,
            final(cache).device_blocks().len() == old(cache).device_blocks().len(),
            r@ == old(self).blocks(old(cache)@),
            r@.len() == spec_total_blocks(spec_count_data_block(old(self).size) as int),
            final(self).size == 0,
            final(self).id == old(self).id,
            final(self).links == old(self).links,
            final(self).kind == old(self).kind,
            final(self).direct@ == Seq::new(26, |i: int| 0u32),
            final(self).indirect1 == 0,
            final(self).indirect2 == 0,
            final(self).indirect3 == 0,
    {
        let ghost v = cache@;
        let ghost ino = *self;
        let data_blocks = Self::count_data_block(self.size);
        let mut drop_data_blocks: Vec<u32> = Vec::new();
        let mut j: usize = 0;
        while j < data_blocks
            invariant
                cache.wf(),
                cache@ == v,
                cache.device_blocks().len() == old(cache).device_blocks().len(),
                *self == ino,
                data_blocks == spec_count_data_block(ino.size),
                data_blocks <= INDIRECT3_CAP,
                j <= data_blocks,
                forall|i: int| 0 <= i < data_blocks ==> #[trigger] ino.readable(v, i),
                drop_data_blocks@ == ino.alloc_order(v, j as nat),
            decreases data_blocks - j,
        {
            assert(ino.readable(v, j as int));
            if j < DIRECT_CAP {
                /* direct */
                drop_data_blocks.push(self.direct[j]);
            } else if j < INDIRECT1_CAP {
                /* first level: the index block comes before its first entry */
                if j == DIRECT_CAP {
                    drop_data_blocks.push(self.indirect1);
                }
                let b = cache.read_u32(self.indirect1 as usize, 4 * (j - DIRECT_CAP));
                drop_data_blocks.push(b);
            } else if j < INDIRECT2_CAP {
                /* second level */
                let r = j - INDIRECT1_CAP;
                if r == 0 {
                    drop_data_blocks.push(self.indirect2);
                }
                let indirect1 = cache.read_u32(self.indirect2 as usize, 4 * (r / INDIRECT1_COUNT));
                if r % INDIRECT1_COUNT == 0 {
                    drop_data_blocks.push(indirect1);
                }
                let b = cache.read_u32(indirect1 as usize, 4 * (r % INDIRECT1_COUNT));
                drop_data_blocks.push(b);
            } else {
                /* third level: each index block comes before its first entry */
                let r = j - INDIRECT2_CAP;
                if r == 0 {
                    drop_data_blocks.push(self.indirect3);
                }
                let indirect2 = cache.read_u32(self.indirect3 as usize, 4 * (r / INDIRECT2_COUNT));
                if r % INDIRECT2_COUNT == 0 {
                    drop_data_blocks.push(indirect2);
                }
                let indirect1 = cache.read_u32(indirect2 as usize, 4 * (r % INDIRECT2_COUNT / INDIRECT1_COUNT));
                if r % INDIRECT1_COUNT == 0 {
                    drop_data_blocks.push(indirect1);
                }
                let b = cache.read_u32(indirect1 as usize, 4 * (r % INDIRECT1_COUNT));
                drop_data_blocks.push(b);
            }
            assert(drop_data_blocks@ =~= ino.alloc_order(v, j as nat) + ino.step_blocks(v, j as int));
            j = j + 1;
        }
        proof {
            self.lemma_alloc_len(v, data_blocks as nat);
        }
        self.size = 0;
        self.direct = [0u32; 26];
        self.indirect1 = 0;
        self.indirect2 = 0;
        self.indirect3 = 0;
        assert(self.direct@ =~= Seq::new(26, |i: int| 0u32));
        drop_data_blocks
    }
}


/// The blocks after entry `e` of index block `blk` is set to `x`.
pub open spec fn set_entry(v: Seq<Seq<u8>>, blk: u32, e: int, x: u32) -> Seq<Seq<u8>> {
    v.update(blk as int, splice(v[blk as int], 4 * e, spec_u32_to_le_bytes(x)))
}

/// Setting one entry changes no other entry.
pub proof fn lemma_set_entry(v: Seq<Seq<u8>>, blk: u32, e: int, x: u32, blk2: u32, e2: int)
    requires
        blocks_wf(v),
        blk < v.len(),
        blk2 < v.len(),
        0 <= e < 128,
        0 <= e2 < 128,
    ensures
        blocks_wf(set_entry(v, blk, e, x)),
        entry(set_entry(v, blk, e, x), blk2, e2) == if blk2 == blk && e2 == e { x } else { entry(v, blk2, e2) },
{
    lemma_auto_spec_u32_to_from_le_bytes();
    let v2 = set_entry(v, blk, e, x);
    assert(v[blk as int].len() == BLOCK_SIZE);
    assert(v2[blk as int].len() == BLOCK_SIZE);
    assert forall|i: int| 0 <= i < v2.len() implies (#[trigger] v2[i]).len() == BLOCK_SIZE by {
        assert(v[i].len() == BLOCK_SIZE);
    }
    if blk2 == blk {
        if e2 == e {
            assert(v2[blk as int].subrange(4 * e, 4 * e + 4) =~= spec_u32_to_le_bytes(x));
        } else {
            assert(v2[blk as int].subrange(4 * e2, 4 * e2 + 4) =~= v[blk as int].subrange(4 * e2, 4 * e2 + 4));
        }
    }
}

/// Two sequences of steps that agree give the same allocation order.
pub proof fn lemma_prefix_frame(a: DiskInode, va: Seq<Seq<u8>>, b: DiskInode, vb: Seq<Seq<u8>>, i: nat)
    requires
        forall|j: int| 0 <= j < i ==> #[trigger] b.step_blocks(vb, j) == a.step_blocks(va, j),
    ensures
        b.alloc_order(vb, i) == a.alloc_order(va, i),
    decreases i,
{
    if i > 0 {
        lemma_prefix_frame(a, va, b, vb, (i - 1) as nat);
    }
}

impl DiskInode {
    /// Whether looking up logical block `j` reads entry `e` of block `blk`.
    pub open spec fn reads_entry(&self, v: Seq<Seq<u8>>, j: int, blk: u32, e: int) -> bool {
        ||| DIRECT_CAP <= j < INDIRECT1_CAP && blk == self.indirect1 && e == j - DIRECT_CAP
        ||| INDIRECT1_CAP <= j < INDIRECT2_CAP && blk == self.indirect2 && e == (j - INDIRECT1_CAP) / 128
        ||| INDIRECT1_CAP <= j < INDIRECT2_CAP && blk == entry(v, self.indirect2, (j - INDIRECT1_CAP) / 128) && e == (j
            - INDIRECT1_CAP) % 128
        ||| j >= INDIRECT2_CAP && blk == self.indirect3 && e == (j - INDIRECT2_CAP) / 16384
        ||| j >= INDIRECT2_CAP && blk == self.l2_block(v, (j - INDIRECT2_CAP) / 16384) && e == ((j - INDIRECT2_CAP) % 16384) / 128
        ||| j >= INDIRECT2_CAP && blk == self.l3_block(v, (j - INDIRECT2_CAP) / 16384, ((j - INDIRECT2_CAP) % 16384) / 128)
            && e == (j - INDIRECT2_CAP) % 128
    }

    /// Setting an entry that logical block `j` does not read leaves its step alone.
    pub proof fn lemma_write_entry(&self, v: Seq<Seq<u8>>, blk: u32, e: int, x: u32, j: int)
        requires
            blocks_wf(v),
            blk < v.len(),
            0 <= e < 128,
            0 <= j < INDIRECT3_CAP,
            self.readable(v, j),
            !self.reads_entry(v, j, blk, e),
        ensures
            self.spec_block_id(set_entry(v, blk, e, x), j) == self.spec_block_id(v, j),
            self.step_blocks(set_entry(v, blk, e, x), j) == self.step_blocks(v, j),
            self.readable(set_entry(v, blk, e, x), j),
    {
        if DIRECT_CAP <= j < INDIRECT1_CAP {
            lemma_set_entry(v, blk, e, x, self.indirect1, j - DIRECT_CAP);
        } else if INDIRECT1_CAP <= j < INDIRECT2_CAP {
            let r = j - INDIRECT1_CAP;
            lemma_set_entry(v, blk, e, x, self.indirect2, r / 128);
            let l1 = entry(v, self.indirect2, r / 128);
            lemma_set_entry(v, blk, e, x, l1, r % 128);
        } else if j >= INDIRECT2_CAP {
            let r = j - INDIRECT2_CAP;
            let g = r / 16384;
            let h = (r % 16384) / 128;
            lemma_set_entry(v, blk, e, x, self.indirect3, g);
            let l2 = self.l2_block(v, g);
            lemma_set_entry(v, blk, e, x, l2, h);
            let l1 = self.l3_block(v, g, h);
            lemma_set_entry(v, blk, e, x, l1, r % 128);
            let v2 = set_entry(v, blk, e, x);
            assert(self.l2_block(v2, g) == l2);
            assert(self.l3_block(v2, g, h) == l1);
        }
    }
}


impl DiskInode {
    /// No logical block before `i` reads an entry of a block that the tree
    /// of the first `i` logical blocks does not hold.
    pub proof fn lemma_fresh_unread(&self, v: Seq<Seq<u8>>, i: nat, x: u32, e: int, j: int)
        requires
            self.tree_wf(v, i),
            forall|k: int| 0 <= k < self.alloc_order(v, i).len() ==> self.alloc_order(v, i)[k] != x,
            0 <= j < i,
        ensures
            !self.reads_entry(v, j, x, e),
    {
        self.lemma_alloc_positions(v, i);
        self.lemma_alloc_positions3(v, i);
        let blocks = self.alloc_order(v, i);
        if DIRECT_CAP <= j < INDIRECT1_CAP {
            assert(blocks[26] != x);
        } else if INDIRECT1_CAP <= j < INDIRECT2_CAP {
            let q = (j - INDIRECT1_CAP) / 128;
            assert(blocks[155] != x);
            assert(blocks[156 + 129 * q] != x);
        } else if j >= INDIRECT2_CAP {
            let r = j - INDIRECT2_CAP;
            let g = r / 16384;
            let h = (r % 16384) / 128;
            vstd::arithmetic::div_mod::lemma_fundamental_div_mod(r, 16384);
            vstd::arithmetic::div_mod::lemma_fundamental_div_mod(r % 16384, 128);
            assert(INDIRECT2_CAP + 16384 * g + 128 * h < i);
            assert(blocks[16668] != x);
            assert(blocks[pos_l2(g)] != x);
            assert(blocks[pos_l3(g, h)] != x);
        }
    }

    /// Entry `g` of the third-level block is read by no logical block
    /// before the first one under it.
    pub proof fn lemma_top_unread(&self, v: Seq<Seq<u8>>, g: int, j: int)
        requires
            self.tree_wf(v, (INDIRECT2_CAP + 16384 * g) as nat),
            1 <= g < 128,
            0 <= j < INDIRECT2_CAP + 16384 * g,
        ensures
            !self.reads_entry(v, j, self.indirect3, g),
    {
        let n = (INDIRECT2_CAP + 16384 * g) as nat;
        self.lemma_tree_distinct(v, n);
        self.lemma_tree_distinct3(v, n);
        if INDIRECT1_CAP <= j < INDIRECT2_CAP {
            let q = (j - INDIRECT1_CAP) / 128;
            assert(entry(v, self.indirect2, q) != self.indirect3);
        } else if j >= INDIRECT2_CAP {
            let r = j - INDIRECT2_CAP;
            let gj = r / 16384;
            let hj = (r % 16384) / 128;
            vstd::arithmetic::div_mod::lemma_fundamental_div_mod(r, 16384);
            vstd::arithmetic::div_mod::lemma_fundamental_div_mod(r % 16384, 128);
            assert(gj < g);
            assert(self.l2_block(v, gj) != self.indirect3);
            assert(self.l3_block(v, gj, hj) != self.indirect3);
        }
    }

    /// Entry `h` of second-level block `g` of the third level is read by no
    /// logical block before the first one under it.
    pub proof fn lemma_mid_unread(&self, v: Seq<Seq<u8>>, g: int, h: int, j: int)
        requires
            self.tree_wf(v, (INDIRECT2_CAP + 16384 * g + 128 * h) as nat),
            0 <= g < 128,
            1 <= h < 128,
            0 <= j < INDIRECT2_CAP + 16384 * g + 128 * h,
        ensures
            !self.reads_entry(v, j, self.l2_block(v, g), h),
    {
        let n = (INDIRECT2_CAP + 16384 * g + 128 * h) as nat;
        self.lemma_tree_distinct(v, n);
        self.lemma_tree_distinct3(v, n);
        assert(INDIRECT2_CAP + 16384 * g < n);
        if INDIRECT1_CAP <= j < INDIRECT2_CAP {
            let q = (j - INDIRECT1_CAP) / 128;
            assert(entry(v, self.indirect2, q) != self.l2_block(v, g));
        } else if j >= INDIRECT2_CAP {
            let r = j - INDIRECT2_CAP;
            let gj = r / 16384;
            let hj = (r % 16384) / 128;
            vstd::arithmetic::div_mod::lemma_fundamental_div_mod(r, 16384);
            vstd::arithmetic::div_mod::lemma_fundamental_div_mod(r % 16384, 128);
            assert(INDIRECT2_CAP + 16384 * gj + 128 * hj < n);
            if gj != g {
                assert(self.l2_block(v, gj) != self.l2_block(v, g));
            } else {
                assert(hj < h);
            }
            assert(self.l2_block(v, g) != self.l3_block(v, gj, hj));
        }
    }

    /// Entry `e` of first-level block `h` under second-level block `g` of
    /// the third level is read by no logical block before the one it maps.
    pub proof fn lemma_low_unread(&self, v: Seq<Seq<u8>>, g: int, h: int, e: int, j: int)
        requires
            self.tree_wf(v, (INDIRECT2_CAP + 16384 * g + 128 * h + e) as nat),
            0 <= g < 128,
            0 <= h < 128,
            1 <= e < 128,
            0 <= j < INDIRECT2_CAP + 16384 * g + 128 * h + e,
        ensures
            !self.reads_entry(v, j, self.l3_block(v, g, h), e),
    {
        let n = (INDIRECT2_CAP + 16384 * g + 128 * h + e) as nat;
        self.lemma_tree_distinct(v, n);
        self.lemma_tree_distinct3(v, n);
        assert(INDIRECT2_CAP + 16384 * g + 128 * h < n);
        if INDIRECT1_CAP <= j < INDIRECT2_CAP {
            let q = (j - INDIRECT1_CAP) / 128;
            assert(entry(v, self.indirect2, q) != self.l3_block(v, g, h));
        } else if j >= INDIRECT2_CAP {
            let r = j - INDIRECT2_CAP;
            let gj = r / 16384;
            let hj = (r % 16384) / 128;
            vstd::arithmetic::div_mod::lemma_fundamental_div_mod(r, 16384);
            vstd::arithmetic::div_mod::lemma_fundamental_div_mod(r % 16384, 128);
            vstd::arithmetic::div_mod::lemma_fundamental_div_mod(r % 16384, 128);
            vstd::arithmetic::div_mod::lemma_fundamental_div_mod(r, 128);
            assert(INDIRECT2_CAP + 16384 * gj + 128 * hj < n);
            assert(self.l2_block(v, gj) != self.l3_block(v, g, h));
            if gj != g || hj != h {
                assert(self.l3_block(v, gj, hj) != self.l3_block(v, g, h));
            } else {
                assert(r == 16384 * g + 128 * h + (r % 16384) % 128);
                assert((r % 16384) % 128 < e);
                vstd::arithmetic::div_mod::lemma_fundamental_div_mod_converse(r, 128, 128 * g + h, (r % 16384) % 128);
            }
        }
    }
}

/// Reading a file right after writing `data` at byte `offset`, inside
/// the file, into a buffer as long as `data`, gives back `data` whole: the
/// postconditions of [`DiskInode::write_at`] and [`DiskInode::read_at`]
/// on the same view join up.
pub proof fn lemma_disk_write_then_read(
    ino: DiskInode,
    v1: Seq<Seq<u8>>,
    offset: int,
    data: Seq<u8>,
    r: int,
    buf: Seq<u8>,
    buf2: Seq<u8>,
    r2: int,
)
    requires
        0 <= offset,
        offset + data.len() <= ino.size,
        r == ino.io_end(offset, data.len() as int) - offset,
        forall|p: int| 0 <= p < r ==> #[trigger] ino.file_byte(v1, offset + p) == data[p],
        buf.len() == data.len(),
        buf2.len() == buf.len(),
        r2 == if offset > ino.io_end(offset, buf.len() as int) { 0 } else { ino.io_end(offset, buf.len() as int) - offset },
        forall|p: int| 0 <= p < r2 ==> #[trigger] buf2[p] == ino.file_byte(v1, offset + p),
    ensures
        r == data.len(),
        r2 == data.len(),
        buf2 == data,
{
    assert forall|p: int| 0 <= p < data.len() implies buf2[p] == data[p] by {
        assert(buf2[p] == ino.file_byte(v1, offset + p));
    }
    assert(buf2 =~= data);
}

/// Blocks a file needs beyond those it has when it grows from `old_size` to `new_size` bytes.
pub open spec fn grow_needed(old_size: u32, new_size: u32) -> int {
    spec_total_blocks(spec_count_data_block(new_size) as int) - spec_total_blocks(spec_count_data_block(old_size) as int)
}

/// No block occurs twice in `s`.
pub open spec fn all_distinct(s: Seq<u32>) -> bool {
    forall|k: int, l: int| 0 <= k < l < s.len() ==> #[trigger] s[k] != #[trigger] s[l]
}

/// Every block of `s` is on a device of `len` blocks.
pub open spec fn all_below(s: Seq<u32>, len: nat) -> bool {
    forall|k: int| 0 <= k < s.len() ==> (#[trigger] s[k]) < len
}

impl DiskInode {
    /// Whether block `b` is one of the index blocks of the first `n` logical blocks.
    pub open spec fn is_index_block(&self, v: Seq<Seq<u8>>, n: nat, b: int) -> bool {
        ||| n > DIRECT_CAP && b == self.indirect1
        ||| n > INDIRECT1_CAP && b == self.indirect2
        ||| exists|q: int| 0 <= q < 128 && INDIRECT1_CAP + 128 * q < n && b == #[trigger] entry(v, self.indirect2, q)
        ||| n > INDIRECT2_CAP && b == self.indirect3
        ||| exists|g: int| 0 <= g && INDIRECT2_CAP + 16384 * g < n && b == #[trigger] self.l2_block(v, g)
        ||| exists|g: int, h: int| 0 <= g && 0 <= h < 128 && INDIRECT2_CAP + 16384 * g + 128 * h < n
            && b == #[trigger] self.l3_block(v, g, h)
    }

    /// Index blocks of a sound tree belong to the tree and hold no data.
    pub proof fn lemma_index_block(&self, v: Seq<Seq<u8>>, n: nat, b: int)
        requires
            self.tree_wf(v, n),
            self.is_index_block(v, n, b),
        ensures
            forall|i: int| 0 <= i < n ==> #[trigger] self.spec_block_id(v, i) != b,
            exists|k: int| 0 <= k < self.alloc_order(v, n).len() && self.alloc_order(v, n)[k] == b,
            0 <= b < v.len(),
    {
        self.lemma_alloc_positions(v, n);
        self.lemma_alloc_positions3(v, n);
        let blocks = self.alloc_order(v, n);
        let k: int = if n > DIRECT_CAP && b == self.indirect1 {
            26
        } else if n > INDIRECT1_CAP && b == self.indirect2 {
            155
        } else if exists|q: int| 0 <= q < 128 && INDIRECT1_CAP + 128 * q < n && b == #[trigger] entry(v, self.indirect2, q) {
            let q = choose|q: int| 0 <= q < 128 && INDIRECT1_CAP + 128 * q < n && b == #[trigger] entry(v, self.indirect2, q);
            156 + 129 * q
        } else if n > INDIRECT2_CAP && b == self.indirect3 {
            16668
        } else if exists|g: int| 0 <= g && INDIRECT2_CAP + 16384 * g < n && b == #[trigger] self.l2_block(v, g) {
            let g = choose|g: int| 0 <= g && INDIRECT2_CAP + 16384 * g < n && b == #[trigger] self.l2_block(v, g);
            pos_l2(g)
        } else {
            let (g, h) = choose|g: int, h: int| 0 <= g && 0 <= h < 128 && INDIRECT2_CAP + 16384 * g + 128 * h < n
                && b == #[trigger] self.l3_block(v, g, h);
            pos_l3(g, h)
        };
        assert(0 <= k < blocks.len() && blocks[k] == b);
        assert forall|i: int| 0 <= i < n implies #[trigger] self.spec_block_id(v, i) != b by {
            assert(blocks[pos_data(i)] == self.spec_block_id(v, i));
            if k == 26 {
                self.lemma_step_len(v, 26);
                self.lemma_index_pos(v, 26, 26, i);
            } else if k == 155 {
                self.lemma_step_len(v, 154);
                self.lemma_step_len(v, 155);
                lemma_total_mono(155, 155);
                self.lemma_index_pos(v, 154, 155, i);
            } else if k == 16668 {
                self.lemma_l1_top_at(v, n);
                self.lemma_step_len(v, 16538);
                self.lemma_index_pos(v, 16538, 16668, i);
            } else if k < 16668 {
                let q = (k - 156) / 129;
                assert(k == 156 + 129 * q);
                let j = INDIRECT1_CAP + 128 * q;
                self.lemma_step_len(v, j);
                lemma_ceil_step(128 * q);
                assert((128 * q) / 128 == q);
                assert((128 * q) % 128 == 0);
                self.lemma_index_pos(v, j, k, i);
            } else if exists|g: int| 0 <= g && INDIRECT2_CAP + 16384 * g < n && k == pos_l2(g) {
                let g = choose|g: int| 0 <= g && INDIRECT2_CAP + 16384 * g < n && k == pos_l2(g);
                self.lemma_l2_at(v, n, g);
                self.lemma_index_pos(v, INDIRECT2_CAP + 16384 * g, k, i);
            } else {
                let (g, h) = choose|g: int, h: int| 0 <= g && 0 <= h < 128 && INDIRECT2_CAP + 16384 * g + 128 * h < n && k == pos_l3(g, h);
                self.lemma_l3_at(v, n, g, h);
                self.lemma_index_pos(v, INDIRECT2_CAP + 16384 * g + 128 * h, k, i);
            }
            assert(pos_data(i) != k);
        }
    }

    /// Index blocks of the first `n` logical blocks stay index blocks where
    /// the steps of those blocks read the same.
    pub proof fn lemma_index_kept(&self, v: Seq<Seq<u8>>, v2: Seq<Seq<u8>>, n: nat, b: int)
        requires
            n <= INDIRECT3_CAP,
            forall|j: int| 0 <= j < n ==> #[trigger] self.step_blocks(v2, j) == self.step_blocks(v, j),
            self.is_index_block(v, n, b),
        ensures
            forall|m: nat| n <= m ==> #[trigger] self.is_index_block(v2, m, b),
    {
        if n > DIRECT_CAP && b == self.indirect1 {
        } else if n > INDIRECT1_CAP && b == self.indirect2 {
        } else if exists|q: int| 0 <= q < 128 && INDIRECT1_CAP + 128 * q < n && b == #[trigger] entry(v, self.indirect2, q) {
            let q = choose|q: int| 0 <= q < 128 && INDIRECT1_CAP + 128 * q < n && b == #[trigger] entry(v, self.indirect2, q);
            let j = INDIRECT1_CAP + 128 * q;
            vstd::arithmetic::div_mod::lemma_fundamental_div_mod_converse(128 * q, 128, q, 0);
            let at: int = if q == 0 { 1 } else { 0 };
            assert(self.step_blocks(v, j)[at] == entry(v, self.indirect2, q));
            assert(self.step_blocks(v2, j)[at] == entry(v2, self.indirect2, q));
            assert(entry(v2, self.indirect2, q) == b);
        } else if n > INDIRECT2_CAP && b == self.indirect3 {
        } else if exists|g: int| 0 <= g && INDIRECT2_CAP + 16384 * g < n && b == #[trigger] self.l2_block(v, g) {
            let g = choose|g: int| 0 <= g && INDIRECT2_CAP + 16384 * g < n && b == #[trigger] self.l2_block(v, g);
            let j = INDIRECT2_CAP + 16384 * g;
            vstd::arithmetic::div_mod::lemma_fundamental_div_mod_converse(16384 * g, 16384, g, 0);
            vstd::arithmetic::div_mod::lemma_fundamental_div_mod_converse(16384 * g, 128, 128 * g, 0);
            let at: int = if g == 0 { 1 } else { 0 };
            assert(self.step_blocks(v, j)[at] == self.l2_block(v, g));
            assert(self.step_blocks(v2, j)[at] == self.l2_block(v2, g));
            assert(self.l2_block(v2, g) == b);
        } else {
            let (g, h) = choose|g: int, h: int| 0 <= g && 0 <= h < 128 && INDIRECT2_CAP + 16384 * g + 128 * h < n
                && b == #[trigger] self.l3_block(v, g, h);
            let j = INDIRECT2_CAP + 16384 * g + 128 * h;
            let r = 16384 * g + 128 * h;
            vstd::arithmetic::div_mod::lemma_fundamental_div_mod_converse(r, 16384, g, 128 * h);
            vstd::arithmetic::div_mod::lemma_fundamental_div_mod_converse(r, 128, 128 * g + h, 0);
            vstd::arithmetic::div_mod::lemma_fundamental_div_mod_converse(128 * h, 128, h, 0);
            let at: int = (if r == 0 { 1int } else { 0int }) + (if h == 0 { 1int } else { 0int });
            assert(self.step_blocks(v, j)[at] == self.l3_block(v, g, h));
            assert(self.step_blocks(v2, j)[at] == self.l3_block(v2, g, h));
            assert(self.l3_block(v2, g, h) == b);
        }
    }

    /// Maps logical block `block_index`, in the second level: opens the
    /// index blocks its step needs, in order, then maps its data block,
    /// taking the blocks from `new_blocks` at `pos` on, where `all` lists
    /// the tree's blocks in allocation order from position `tot0`. Answers
    /// the next position.
    #[verifier::rlimit(100)]
    #[verifier::spinoff_prover]
    fn grow_second<D: BlockDevice>(
        &mut self,
        block_index: usize,
        pos: usize,
        new_blocks: &Vec<u32>,
        cache: &mut BlockCacheManager<D>,
        Ghost(all): Ghost<Seq<u32>>,
        Ghost(tot0): Ghost<int>,
    ) -> (p: usize)
        requires
            old(cache).wf(),
            blocks_wf(old(cache)@),
            INDIRECT1_CAP <= block_index < INDIRECT2_CAP,
            old(self).alloc_order(old(cache)@, block_index as nat) == all.subrange(0, spec_total_blocks(block_index as int)),
            all_distinct(all),
            all_below(all, old(cache)@.len()),
            spec_total_blocks(block_index + 1) <= all.len(),
            0 <= tot0,
            tot0 + pos == spec_total_blocks(block_index as int),
            spec_total_blocks(block_index + 1) - tot0 <= new_blocks@.len(),
            forall|k: int| 0 <= k < spec_total_blocks(block_index + 1) - tot0 ==> #[trigger] all[tot0 + k] == new_blocks@[k],
        ensures
            final(cache).wf(),
            blocks_wf(final(cache)@),
            final(cache)@.len() == old(cache)@.len(),
            final(cache).device_blocks().len() == old(cache).device_blocks().len(),
            p == pos + spec_total_blocks(block_index + 1) - spec_total_blocks(block_index as int),
            final(self).size == old(self).size,
            final(self).id == old(self).id,
            final(self).links == old(self).links,
            final(self).kind == old(self).kind,
            final(self).direct == old(self).direct,
            final(self).indirect1 == old(self).indirect1,
            final(self).indirect3 == old(self).indirect3,
            final(self).alloc_order(final(cache)@, (block_index + 1) as nat) == all.subrange(0, spec_total_blocks(block_index + 1)),
            forall|b: int| 0 <= b < old(cache)@.len() && final(cache)@[b] != old(cache)@[b]
                ==> #[trigger] final(self).is_index_block(final(cache)@, (block_index + 1) as nat, b),
            forall|b: int| #[trigger] old(self).is_index_block(old(cache)@, block_index as nat, b)
                ==> final(self).is_index_block(final(cache)@, (block_index + 1) as nat, b),
    {
        let ghost i = block_index as int;
        let ghost vk = cache@;
        let ghost sk = *self;
        let ghost v0len = vk.len();
        let mut pos = pos;
        proof {
            self.lemma_alloc_len(vk, i as nat);
            self.lemma_alloc_len(vk, (i + 1) as nat);
            self.lemma_step_len(vk, i);
            assert(self.tree_wf(vk, i as nat));
            self.lemma_tree_distinct(vk, i as nat);
            self.lemma_alloc_positions(vk, i as nat);
        }
        /* second level: open the index blocks as the entries need them */
        let r = block_index - INDIRECT1_CAP;
        let ghost q = r as int / 128;
        let ghost sidx = r as int % 128;
        if r == 0 {
            self.indirect2 = new_blocks[pos];
            pos = pos + 1;
        }
        let ghost s1 = *self;
        let ghost p1 = pos as int;
        proof {
            assert(sk.alloc_order(vk, i as nat)[26] == self.indirect1);
            assert(all[26] == self.indirect1);
            if i > INDIRECT1_CAP {
                assert(sk.alloc_order(vk, i as nat)[155] == self.indirect2);
                assert(all[155] == self.indirect2);
            } else {
                assert(all[tot0 + p1 - 1] == self.indirect2);
                assert(tot0 + p1 - 1 == spec_total_blocks(i));
            }
            assert(self.indirect2 < v0len);
            assert(self.indirect1 != self.indirect2);
            assert forall|j: int| 0 <= j < i implies #[trigger] s1.step_blocks(vk, j) == sk.step_blocks(vk, j)
                && s1.readable(vk, j) by {
                assert(sk.readable(vk, j));
            }
        }
        if r % INDIRECT1_COUNT == 0 {
            proof {
                assert forall|j: int| 0 <= j < i implies !s1.reads_entry(vk, j, s1.indirect2, q) by {
                    if j >= INDIRECT1_CAP {
                        assert(sk.spec_block_id(vk, j) == sk.spec_block_id(vk, j));
                        assert(entry(vk, s1.indirect2, (j - INDIRECT1_CAP) / 128) != s1.indirect2);
                    }
                }
            }
            cache.write_u32(self.indirect2 as usize, 4 * (r / INDIRECT1_COUNT), new_blocks[pos]);
            pos = pos + 1;
            proof {
                assert(cache@ == set_entry(vk, s1.indirect2, q, new_blocks@[p1]));
                lemma_set_entry(vk, s1.indirect2, q, new_blocks@[p1], s1.indirect2, q);
                assert forall|j: int| 0 <= j < i implies #[trigger] s1.step_blocks(cache@, j) == sk.step_blocks(vk, j)
                    && s1.readable(cache@, j) by {
                    assert(s1.step_blocks(vk, j) == sk.step_blocks(vk, j));
                    s1.lemma_write_entry(vk, s1.indirect2, q, new_blocks@[p1], j);
                }
            }
        }
        let ghost v1 = cache@;
        let ghost p2 = pos as int;
        let indirect1 = cache.read_u32(self.indirect2 as usize, 4 * (r / INDIRECT1_COUNT));
        proof {
            assert(indirect1 == entry(v1, s1.indirect2, q));
            if sidx == 0 {
                assert(indirect1 == new_blocks@[p1]);
                assert(all[tot0 + p1] == indirect1);
                assert(tot0 + p1 >= spec_total_blocks(i));
                assert(all[tot0 + p1] != all[26]);
                if i > INDIRECT1_CAP {
                    assert(all[tot0 + p1] != all[155]);
                } else {
                    assert(all[tot0 + p1] != all[tot0 + p1 - 1]);
                }
            } else {
                assert(v1 == vk);
                assert(INDIRECT1_CAP + 128 * q < i);
                assert(indirect1 == entry(vk, sk.indirect2, q));
            }
            assert(indirect1 < v0len);
            assert(indirect1 != s1.indirect1);
            assert(indirect1 != s1.indirect2);
            assert forall|j: int| 0 <= j < i implies !s1.reads_entry(v1, j, indirect1, sidx) by {
                if j >= INDIRECT1_CAP {
                    let qj = (j - INDIRECT1_CAP) / 128;
                    assert(INDIRECT1_CAP + 128 * qj < i);
                    if sidx == 0 {
                        lemma_set_entry(vk, s1.indirect2, q, new_blocks@[p1], s1.indirect2, qj);
                        assert(entry(v1, s1.indirect2, qj) == entry(vk, sk.indirect2, qj));
                        assert(sk.alloc_order(vk, i as nat)[156 + 129 * qj] == entry(vk, sk.indirect2, qj));
                        assert(all[156 + 129 * qj] == entry(vk, sk.indirect2, qj));
                        assert(156 + 129 * qj < tot0 + p1);
                    } else {
                        if qj != q {
                            if qj < q {
                                assert(entry(vk, sk.indirect2, qj) != entry(vk, sk.indirect2, q));
                            } else {
                                assert(entry(vk, sk.indirect2, q) != entry(vk, sk.indirect2, qj));
                            }
                        }
                    }
                }
            }
        }
        cache.write_u32(indirect1 as usize, 4 * (r % INDIRECT1_COUNT), new_blocks[pos]);
        pos = pos + 1;
        proof {
            let v2 = cache@;
            assert(v2 == set_entry(v1, indirect1, sidx, new_blocks@[p2]));
            assert forall|j: int| 0 <= j < i implies #[trigger] self.step_blocks(v2, j) == sk.step_blocks(vk, j) by {
                assert(s1.step_blocks(v1, j) == sk.step_blocks(vk, j));
                assert(s1.step_blocks(vk, j) == sk.step_blocks(vk, j));
                assert(s1.readable(v1, j));
                s1.lemma_write_entry(v1, indirect1, sidx, new_blocks@[p2], j);
            }
            lemma_prefix_frame(sk, vk, *self, v2, i as nat);
            lemma_set_entry(v1, indirect1, sidx, new_blocks@[p2], s1.indirect2, q);
            lemma_set_entry(v1, indirect1, sidx, new_blocks@[p2], indirect1, sidx);
            assert(entry(v2, s1.indirect2, q) == indirect1);
            assert(self.spec_block_id(v2, i) == new_blocks@[p2]);
            assert(all[tot0 + p2] == new_blocks@[p2]);
            if r == 0 {
                assert(all[tot0 + p1 - 1] == s1.indirect2);
            }
            if sidx == 0 {
                assert(all[tot0 + p1] == indirect1);
            }
            assert(self.step_blocks(v2, i) =~= all.subrange(spec_total_blocks(i), spec_total_blocks(i + 1)));
            assert(self.alloc_order(v2, (i + 1) as nat) =~= all.subrange(0, spec_total_blocks(i + 1)));
            assert forall|b: int| 0 <= b < v0len && v2[b] != vk[b] implies #[trigger] self.is_index_block(v2, (i + 1) as nat, b) by {
                if b == indirect1 {
                    assert(entry(v2, self.indirect2, q) == b);
                } else {
                    assert(b == self.indirect2);
                }
            }
            assert forall|b: int| #[trigger] sk.is_index_block(vk, i as nat, b) implies self.is_index_block(v2, (i + 1) as nat, b) by {
                if b != sk.indirect1 && b != sk.indirect2 {
                    let q2 = choose|q2: int| 0 <= q2 < 128 && INDIRECT1_CAP + 128 * q2 < i && b == #[trigger] entry(vk, sk.indirect2, q2);
                    lemma_set_entry(vk, s1.indirect2, q, new_blocks@[p1], s1.indirect2, q2);
                    lemma_set_entry(v1, indirect1, sidx, new_blocks@[p2], s1.indirect2, q2);
                    assert(entry(v2, self.indirect2, q2) == b);
                }
            }
        }
        pos
    }

    /// Maps logical block `block_index`, past the second level: opens the
    /// index blocks its step needs, in order, then maps its data block,
    /// taking the blocks from `new_blocks` at `pos` on, where `all` lists
    /// the tree's blocks in allocation order from position `tot0`. Answers
    /// the next position.
    #[verifier::rlimit(100)]
    #[verifier::spinoff_prover]
    fn grow_third<D: BlockDevice>(
        &mut self,
        block_index: usize,
        pos: usize,
        new_blocks: &Vec<u32>,
        cache: &mut BlockCacheManager<D>,
        Ghost(all): Ghost<Seq<u32>>,
        Ghost(tot0): Ghost<int>,
    ) -> (p: usize)
        requires
            old(cache).wf(),
            blocks_wf(old(cache)@),
            INDIRECT2_CAP <= block_index < INDIRECT3_CAP,
            old(self).alloc_order(old(cache)@, block_index as nat) == all.subrange(0, spec_total_blocks(block_index as int)),
            all_distinct(all),
            all_below(all, old(cache)@.len()),
            spec_total_blocks(block_index + 1) <= all.len(),
            0 <= tot0,
            tot0 + pos == spec_total_blocks(block_index as int),
            spec_total_blocks(block_index + 1) - tot0 <= new_blocks@.len(),
            forall|k: int| 0 <= k < spec_total_blocks(block_index + 1) - tot0 ==> #[trigger] all[tot0 + k] == new_blocks@[k],
        ensures
            final(cache).wf(),
            blocks_wf(final(cache)@),
            final(cache)@.len() == old(cache)@.len(),
            final(cache).device_blocks().len() == old(cache).device_blocks().len(),
            p == pos + spec_total_blocks(block_index + 1) - spec_total_blocks(block_index as int),
            final(self).size == old(self).size,
            final(self).id == old(self).id,
            final(self).links == old(self).links,
            final(self).kind == old(self).kind,
            final(self).direct == old(self).direct,
            final(self).indirect1 == old(self).indirect1,
            final(self).indirect2 == old(self).indirect2,
            final(self).alloc_order(final(cache)@, (block_index + 1) as nat) == all.subrange(0, spec_total_blocks(block_index + 1)),
            forall|b: int| 0 <= b < old(cache)@.len() && final(cache)@[b] != old(cache)@[b]
                ==> #[trigger] final(self).is_index_block(final(cache)@, (block_index + 1) as nat, b),
            forall|b: int| #[trigger] old(self).is_index_block(old(cache)@, block_index as nat, b)
                ==> final(self).is_index_block(final(cache)@, (block_index + 1) as nat, b),
    {
        let ghost i = block_index as int;
        let ghost vk = cache@;
        let ghost sk = *self;
        let ghost v0len = vk.len();
        let mut pos = pos;
        proof {
            self.lemma_alloc_len(vk, i as nat);
            self.lemma_alloc_len(vk, (i + 1) as nat);
            self.lemma_step_len(vk, i);
            assert(self.tree_wf(vk, i as nat));
            self.lemma_tree_distinct(vk, i as nat);
            self.lemma_alloc_positions(vk, i as nat);
        }
        let r = block_index - INDIRECT2_CAP;
        let ghost g = r as int / 16384;
        let ghost rr = r as int % 16384;
        let ghost h = rr / 128;
        let ghost e = r as int % 128;
        let ghost t = spec_total_blocks(i);
        proof {
            vstd::arithmetic::div_mod::lemma_fundamental_div_mod(r as int, 16384);
            vstd::arithmetic::div_mod::lemma_fundamental_div_mod(rr, 128);
            vstd::arithmetic::div_mod::lemma_fundamental_div_mod(r as int, 128);
            vstd::arithmetic::div_mod::lemma_fundamental_div_mod_converse(r as int, 128, 128 * g + h, rr % 128);
            assert(e == rr % 128);
            assert(g < 128);
            self.lemma_alloc_positions3(vk, i as nat);
            assert(tot0 + pos == t);
            assert forall|k: int| 0 <= k < t implies #[trigger] sk.alloc_order(vk, i as nat)[k] == all[k] by {}
        }
        if r == 0 {
            self.indirect3 = new_blocks[pos];
            pos = pos + 1;
        }
        let ghost s1 = *self;
        let ghost p1 = pos as int;
        proof {
            if r == 0 {
                assert(all[t] == self.indirect3);
                assert forall|j: int| 0 <= j < i implies #[trigger] s1.step_blocks(vk, j) == sk.step_blocks(vk, j)
                    && s1.readable(vk, j) == sk.readable(vk, j) by {}
            } else {
                assert(sk.alloc_order(vk, i as nat)[16668] == self.indirect3);
                assert(all[16668] == self.indirect3);
            }
            lemma_prefix_frame(sk, vk, s1, vk, i as nat);
            assert(s1.tree_wf(vk, i as nat));
            assert(self.indirect3 < v0len);
        }
        if r % INDIRECT2_COUNT == 0 {
            proof {
                assert forall|j: int| 0 <= j < i implies !#[trigger] s1.reads_entry(vk, j, s1.indirect3, g) by {
                    if r == 0 {
                        assert forall|k: int| 0 <= k < s1.alloc_order(vk, i as nat).len() implies #[trigger] s1.alloc_order(vk, i as nat)[k] != s1.indirect3 by {
                            assert(all[k] != all[t]);
                        }
                        s1.lemma_fresh_unread(vk, i as nat, s1.indirect3, g, j);
                    } else {
                        s1.lemma_top_unread(vk, g, j);
                    }
                }
            }
            cache.write_u32(self.indirect3 as usize, 4 * (r / INDIRECT2_COUNT), new_blocks[pos]);
            pos = pos + 1;
            proof {
                assert(cache@ == set_entry(vk, s1.indirect3, g, new_blocks@[p1]));
                lemma_set_entry(vk, s1.indirect3, g, new_blocks@[p1], s1.indirect3, g);
                assert forall|j: int| 0 <= j < i implies #[trigger] s1.step_blocks(cache@, j) == s1.step_blocks(vk, j)
                    && s1.readable(cache@, j) by {
                    s1.lemma_tree_distinct(vk, i as nat);
                    assert(s1.readable(vk, j));
                    s1.lemma_write_entry(vk, s1.indirect3, g, new_blocks@[p1], j);
                }
                lemma_prefix_frame(s1, vk, s1, cache@, i as nat);
            }
        }
        let ghost v1 = cache@;
        let ghost p2 = pos as int;
        proof {
            assert(s1.alloc_order(v1, i as nat) == all.subrange(0, t));
            assert(s1.tree_wf(v1, i as nat));
            if rr == 0 {
                assert(all[tot0 + p1] == new_blocks@[p1]);
            } else {
                assert(v1 == vk);
                assert(INDIRECT2_CAP + 16384 * g < i);
                assert(s1.alloc_order(vk, i as nat)[pos_l2(g)] == s1.l2_block(vk, g));
            }
        }
        let indirect2 = cache.read_u32(self.indirect3 as usize, 4 * (r / INDIRECT2_COUNT));
        proof {
            assert(indirect2 == s1.l2_block(v1, g));
            assert(indirect2 < v0len);
            assert(indirect2 != s1.indirect3) by {
                if rr == 0 {
                    if r == 0 { assert(all[t] != all[t + 1]); } else { assert(all[16668] != all[tot0 + p1]); }
                } else {
                    s1.lemma_tree_distinct3(v1, i as nat);
                }
            }
        }
        if r % INDIRECT1_COUNT == 0 {
            proof {
                assert forall|j: int| 0 <= j < i implies !#[trigger] s1.reads_entry(v1, j, indirect2, h) by {
                    if rr == 0 {
                        assert forall|k: int| 0 <= k < s1.alloc_order(v1, i as nat).len() implies #[trigger] s1.alloc_order(v1, i as nat)[k] != indirect2 by {
                            assert(all[k] != all[tot0 + p1]);
                        }
                        s1.lemma_fresh_unread(v1, i as nat, indirect2, h, j);
                    } else {
                        s1.lemma_mid_unread(v1, g, h, j);
                    }
                }
            }
            cache.write_u32(indirect2 as usize, 4 * (r % INDIRECT2_COUNT / INDIRECT1_COUNT), new_blocks[pos]);
            pos = pos + 1;
            proof {
                assert(cache@ == set_entry(v1, indirect2, h, new_blocks@[p2]));
                lemma_set_entry(v1, indirect2, h, new_blocks@[p2], indirect2, h);
                lemma_set_entry(v1, indirect2, h, new_blocks@[p2], s1.indirect3, g);
                assert forall|j: int| 0 <= j < i implies #[trigger] s1.step_blocks(cache@, j) == s1.step_blocks(v1, j)
                    && s1.readable(cache@, j) by {
                    s1.lemma_tree_distinct(v1, i as nat);
                    assert(s1.readable(v1, j));
                    s1.lemma_write_entry(v1, indirect2, h, new_blocks@[p2], j);
                }
                lemma_prefix_frame(s1, v1, s1, cache@, i as nat);
            }
        }
        let ghost v2 = cache@;
        let ghost p3 = pos as int;
        proof {
            assert(s1.alloc_order(v2, i as nat) == all.subrange(0, t));
            assert(s1.tree_wf(v2, i as nat));
            assert(s1.l2_block(v2, g) == indirect2);
            if e == 0 {
                assert(all[tot0 + p2] == new_blocks@[p2]);
            } else {
                assert(v2 == v1);
                assert(INDIRECT2_CAP + 16384 * g + 128 * h < i);
                s1.lemma_alloc_positions3(v1, i as nat);
                assert(s1.alloc_order(v1, i as nat)[pos_l3(g, h)] == s1.l3_block(v1, g, h));
            }
        }
        let indirect1 = cache.read_u32(indirect2 as usize, 4 * (r % INDIRECT2_COUNT / INDIRECT1_COUNT));
        proof {
            assert(indirect1 == s1.l3_block(v2, g, h));
            assert(indirect1 < v0len);
            assert(indirect1 != s1.indirect3 && indirect1 != indirect2) by {
                if e == 0 {
                    assert(all[tot0 + p2] != all[tot0 + p2 - 1]);
                    if rr != 0 {
                        assert(all[tot0 + p2] != all[16668]);
                        assert(indirect2 == all[pos_l2(g)]);
                        assert(all[tot0 + p2] != all[pos_l2(g)]);
                    } else if r != 0 {
                        assert(all[tot0 + p2] != all[16668]);
                    } else {
                        assert(all[tot0 + p2] != all[t]);
                    }
                } else {
                    s1.lemma_tree_distinct3(v2, i as nat);
                    assert(INDIRECT2_CAP + 16384 * g < i);
                }
            }
        }
        proof {
            assert forall|j: int| 0 <= j < i implies !#[trigger] s1.reads_entry(v2, j, indirect1, e) by {
                if e == 0 {
                    assert forall|k: int| 0 <= k < s1.alloc_order(v2, i as nat).len() implies #[trigger] s1.alloc_order(v2, i as nat)[k] != indirect1 by {
                        assert(all[k] != all[tot0 + p2]);
                    }
                    s1.lemma_fresh_unread(v2, i as nat, indirect1, e, j);
                } else {
                    s1.lemma_low_unread(v2, g, h, e, j);
                }
            }
        }
        cache.write_u32(indirect1 as usize, 4 * (r % INDIRECT1_COUNT), new_blocks[pos]);
        pos = pos + 1;
        proof {
            let v3 = cache@;
            assert(v3 == set_entry(v2, indirect1, e, new_blocks@[p3]));
            lemma_set_entry(v2, indirect1, e, new_blocks@[p3], indirect1, e);
            lemma_set_entry(v2, indirect1, e, new_blocks@[p3], indirect2, h);
            lemma_set_entry(v2, indirect1, e, new_blocks@[p3], s1.indirect3, g);
            assert forall|j: int| 0 <= j < i implies #[trigger] s1.step_blocks(v3, j) == s1.step_blocks(v2, j) by {
                s1.lemma_tree_distinct(v2, i as nat);
                assert(s1.readable(v2, j));
                s1.lemma_write_entry(v2, indirect1, e, new_blocks@[p3], j);
            }
            lemma_prefix_frame(s1, v2, s1, v3, i as nat);
            assert(s1.l2_block(v3, g) == indirect2);
            assert(s1.l3_block(v3, g, h) == indirect1);
            assert(s1.spec_block_id(v3, i) == new_blocks@[p3]);
            assert(all[tot0 + p3] == new_blocks@[p3]);
            assert(s1.step_blocks(v3, i) =~= all.subrange(t, spec_total_blocks(i + 1)));
            assert(s1.alloc_order(v3, (i + 1) as nat) =~= all.subrange(0, spec_total_blocks(i + 1)));
            // the blocks written are the step's index blocks
            assert forall|b: int| 0 <= b < v0len && v3[b] != vk[b] implies #[trigger] s1.is_index_block(v3, (i + 1) as nat, b) by {
                if b != indirect1 as int && b != indirect2 as int {
                    assert(b == s1.indirect3 as int);
                }
                assert(INDIRECT2_CAP + 16384 * g + 128 * h < i + 1);
            }
            // the index blocks already there stay index blocks
            assert forall|j: int| 0 <= j < i implies #[trigger] s1.step_blocks(v3, j) == s1.step_blocks(vk, j) by {
                assert(s1.step_blocks(v3, j) == s1.step_blocks(v2, j));
                assert(s1.step_blocks(v2, j) == s1.step_blocks(v1, j));
                assert(s1.step_blocks(v1, j) == s1.step_blocks(vk, j));
            }
            assert forall|b: int| #[trigger] sk.is_index_block(vk, i as nat, b) implies s1.is_index_block(v3, (i + 1) as nat, b) by {
                assert(s1.is_index_block(vk, i as nat, b));
                s1.lemma_index_kept(vk, v3, i as nat, b);
            }
        }
        pos
    }

    /// Grows the file to `larger_size` bytes, taking the blocks it needs,
    /// index blocks and data blocks alike, from `new_blocks` in order.
    #[verifier::rlimit(100)]
    #[verifier::spinoff_prover]
    pub fn expand_to<D: BlockDevice>(&mut self, larger_size: u32, new_blocks: Vec<u32>, cache: &mut BlockCacheManager<D>)
        requires
            old(cache).wf(),
            old(self).size <= larger_size,
            spec_count_data_block(larger_size) <= INDIRECT3_CAP,
            old(self).tree_wf(old(cache)@, spec_count_data_block(old(self).size)),
            new_blocks@.len() >= grow_needed(old(self).size, larger_size),
            all_distinct(old(self).blocks(old(cache)@) + new_blocks@.subrange(0, grow_needed(old(self).size, larger_size))),
            all_below(old(self).blocks(old(cache)@) + new_blocks@.subrange(0, grow_needed(old(self).size, larger_size)), old(cache)@.len()),
        ensures
            final(cache).wf(),
            final(cache).device_blocks().len() == old(cache).device_blocks().len(),
            final(cache)@.len() == old(cache)@.len(),
            final(self).size == larger_size,
            final(self).id == old(self).id,
            final(self).links == old(self).links,
            final(self).kind == old(self).kind,
            final(self).blocks(final(cache)@) == old(self).blocks(old(cache)@) + new_blocks@.subrange(0, grow_needed(old(self).size, larger_size)),
            final(self).tree_wf(final(cache)@, spec_count_data_block(larger_size)),
            forall|i: int| 0 <= i < spec_count_data_block(old(self).size) ==>
                #[trigger] final(self).spec_block_id(final(cache)@, i) == old(self).spec_block_id(old(cache)@, i),
            forall|p: int| 0 <= p < old(self).size ==> #[trigger] final(self).file_byte(final(cache)@, p) == old(self).file_byte(old(cache)@, p),
            forall|b: int| 0 <= b < old(cache)@.len() && (forall|k: int| 0 <= k < grow_needed(old(self).size, larger_size) + old(self).blocks(old(cache)@).len()
                ==> (#[trigger] (old(self).blocks(old(cache)@) + new_blocks@.subrange(0, grow_needed(old(self).size, larger_size)))[k]) != b)
                ==> #[trigger] final(cache)@[b] == old(cache)@[b],
    {
        let ghost v0 = cache@;
        let ghost ino0 = *self;
        let ghost n0 = spec_count_data_block(ino0.size);
        let ghost n1 = spec_count_data_block(larger_size);
        let ghost needed = grow_needed(ino0.size, larger_size);
        let ghost all = ino0.blocks(v0) + new_blocks@.subrange(0, needed);
        let mut block_index = Self::count_data_block(self.size);
        self.size = larger_size;
        let new_total_blocks = Self::count_data_block(self.size);
        proof {
            cache.lemma_wf_view();
            ino0.lemma_alloc_len(v0, n0);
            assert(spec_total_blocks(n0 as int) <= spec_total_blocks(n1 as int)) by {
                lemma_total_mono(n0 as int, n1 as int);
            }
            assert forall|j: int| 0 <= j < n0 implies #[trigger] self.step_blocks(v0, j) == ino0.step_blocks(v0, j) by {}
            lemma_prefix_frame(ino0, v0, *self, v0, n0);
            assert(all.subrange(0, spec_total_blocks(n0 as int)) =~= ino0.alloc_order(v0, n0));
        }
        let mut pos: usize = 0;
        while block_index < new_total_blocks
            invariant
                cache.wf(),
                blocks_wf(cache@),
                cache@.len() == v0.len(),
                cache.device_blocks().len() == old(cache).device_blocks().len(),
                n0 <= block_index <= new_total_blocks,
                new_total_blocks == n1,
                n1 <= INDIRECT3_CAP,
                spec_total_blocks(n0 as int) + needed == spec_total_blocks(n1 as int),
                all.len() == spec_total_blocks(n1 as int),
                pos == spec_total_blocks(block_index as int) - spec_total_blocks(n0 as int),
                new_blocks@.len() >= needed,
                all == ino0.blocks(v0) + new_blocks@.subrange(0, needed),
                ino0.blocks(v0).len() == spec_total_blocks(n0 as int),
                all_distinct(all),
                all_below(all, v0.len()),
                self.size == larger_size,
                self.id == ino0.id,
                self.links == ino0.links,
                self.kind == ino0.kind,
                self.alloc_order(cache@, block_index as nat) == all.subrange(0, spec_total_blocks(block_index as int)),
                forall|b: int| 0 <= b < v0.len() && cache@[b] != v0[b] ==> #[trigger] self.is_index_block(cache@, block_index as nat, b),
            decreases new_total_blocks - block_index,
        {
            let ghost i = block_index as int;
            let ghost vk = cache@;
            let ghost sk = *self;
            proof {
                self.lemma_alloc_len(vk, i as nat);
                self.lemma_alloc_len(vk, (i + 1) as nat);
                self.lemma_step_len(vk, i);
                assert(self.tree_wf(vk, i as nat));
                self.lemma_tree_distinct(vk, i as nat);
                self.lemma_alloc_positions(vk, i as nat);
                lemma_total_mono(i + 1, n1 as int);
            }
            if block_index < DIRECT_COUNT {
                /* direct */
                self.direct[block_index] = new_blocks[pos];
                pos = pos + 1;
                proof {
                    assert forall|j: int| 0 <= j < i implies #[trigger] self.step_blocks(vk, j) == sk.step_blocks(vk, j) by {}
                    lemma_prefix_frame(sk, vk, *self, vk, i as nat);
                    assert(self.alloc_order(vk, (i + 1) as nat) =~= all.subrange(0, spec_total_blocks(i + 1)));
                    assert forall|b: int| 0 <= b < v0.len() && cache@[b] != v0[b] implies #[trigger] self.is_index_block(cache@, (i + 1) as nat, b) by {
                        assert(sk.is_index_block(vk, i as nat, b));
                    }
                }
            } else if block_index < INDIRECT1_CAP {
                /* first level: open the index block with the first entry */
                if block_index == DIRECT_COUNT {
                    self.indirect1 = new_blocks[pos];
                    pos = pos + 1;
                }
                let ghost s1 = *self;
                let ghost p1 = pos as int;
                proof {
                    assert(all[spec_total_blocks(n0 as int) + p1] == new_blocks@[p1]);
                    if i > DIRECT_CAP {
                        assert(self.alloc_order(vk, i as nat)[26] == self.indirect1);
                    } else {
                        assert(all[spec_total_blocks(n0 as int) + p1 - 1] == self.indirect1);
                    }
                    assert(self.indirect1 < v0.len());
                }
                cache.write_u32(self.indirect1 as usize, 4 * (block_index - DIRECT_COUNT), new_blocks[pos]);
                pos = pos + 1;
                proof {
                    let v1 = cache@;
                    assert(v1 == set_entry(vk, self.indirect1, i - DIRECT_CAP, new_blocks@[p1]));
                    lemma_set_entry(vk, self.indirect1, i - DIRECT_CAP, new_blocks@[p1], self.indirect1, i - DIRECT_CAP);
                    assert forall|j: int| 0 <= j < i implies #[trigger] self.step_blocks(v1, j) == sk.step_blocks(vk, j) by {
                        assert(sk.readable(vk, j));
                        assert(self.step_blocks(vk, j) == sk.step_blocks(vk, j));
                        self.lemma_write_entry(vk, self.indirect1, i - DIRECT_CAP, new_blocks@[p1], j);
                    }
                    lemma_prefix_frame(sk, vk, *self, v1, i as nat);
                    assert(self.alloc_order(v1, (i + 1) as nat) =~= all.subrange(0, spec_total_blocks(i + 1)));
                    assert forall|b: int| 0 <= b < v0.len() && v1[b] != v0[b] implies #[trigger] self.is_index_block(v1, (i + 1) as nat, b) by {
                        if b != self.indirect1 {
                            assert(vk[b] != v0[b]);
                            assert(sk.is_index_block(vk, i as nat, b));
                        }
                    }
                }
            } else {
                /* second and third levels: open the index blocks as the entries need them */
                let ghost tot0 = spec_total_blocks(n0 as int);
                proof {
                    assert forall|k: int| 0 <= k < spec_total_blocks(i + 1) - tot0 implies #[trigger] all[tot0 + k] == new_blocks@[k] by {}
                }
                pos = if block_index < INDIRECT2_CAP {
                    self.grow_second(block_index, pos, &new_blocks, cache, Ghost(all), Ghost(tot0))
                } else {
                    self.grow_third(block_index, pos, &new_blocks, cache, Ghost(all), Ghost(tot0))
                };
                proof {
                    assert forall|b: int| 0 <= b < v0.len() && cache@[b] != v0[b] implies #[trigger] self.is_index_block(cache@, (i + 1) as nat, b) by {
                        if cache@[b] == vk[b] {
                            assert(sk.is_index_block(vk, i as nat, b));
                        }
                    }
                }
            }
            block_index = block_index + 1;
        }
        proof {
            let vf = cache@;
            assert(all.subrange(0, spec_total_blocks(n1 as int)) =~= all);
            assert(self.blocks(vf) == all);
            assert(self.tree_wf(vf, n1));
            self.lemma_alloc_positions(vf, n1);
            ino0.lemma_alloc_positions(v0, n0);
            self.lemma_tree_distinct(vf, n1);
            lemma_total_mono(n0 as int, n1 as int);
            assert forall|i: int| 0 <= i < n0 implies #[trigger] self.spec_block_id(vf, i) == ino0.spec_block_id(v0, i) by {
                assert(self.alloc_order(vf, n1)[pos_data(i)] == self.spec_block_id(vf, i));
                assert(ino0.alloc_order(v0, n0)[pos_data(i)] == ino0.spec_block_id(v0, i));
                assert(all[pos_data(i)] == ino0.blocks(v0)[pos_data(i)]);
            }
            assert forall|p: int| 0 <= p < ino0.size implies #[trigger] self.file_byte(vf, p) == ino0.file_byte(v0, p) by {
                lemma_in_count(ino0.size, p);
                let i = p / (BLOCK_SIZE as int);
                let d = self.spec_block_id(vf, i);
                assert(d == ino0.spec_block_id(v0, i));
                assert(self.readable(vf, i));
                if vf[d as int] != v0[d as int] {
                    assert(self.is_index_block(vf, n1, d as int));
                    self.lemma_index_block(vf, n1, d as int);
                }
            }
            assert forall|b: int| 0 <= b < v0.len() && (forall|k: int| 0 <= k < needed + ino0.blocks(v0).len()
                ==> (#[trigger] all[k]) != b) implies #[trigger] vf[b] == v0[b] by {
                if vf[b] != v0[b] {
                    assert(self.is_index_block(vf, n1, b));
                    self.lemma_index_block(vf, n1, b);
                    let k = choose|k: int| 0 <= k < self.alloc_order(vf, n1).len() && self.alloc_order(vf, n1)[k] == b;
                    assert(all[k] == b);
                }
            }
        }
    }
}

/// The count of blocks only grows with the count of data blocks.
pub proof fn lemma_total_mono(a: int, b: int)
    requires
        0 <= a <= b,
    ensures
        spec_total_blocks(a) <= spec_total_blocks(b),
{
    if a > INDIRECT1_CAP {
        let sa = if a < INDIRECT2_CAP { a } else { INDIRECT2_CAP as int };
        let sb = if b < INDIRECT2_CAP { b } else { INDIRECT2_CAP as int };
        vstd::arithmetic::div_mod::lemma_div_is_ordered(sa - INDIRECT1_CAP + 127, sb - INDIRECT1_CAP + 127, 128);
    }
    if a > INDIRECT2_CAP {
        vstd::arithmetic::div_mod::lemma_div_is_ordered(a - INDIRECT2_CAP + 127, b - INDIRECT2_CAP + 127, 128);
        vstd::arithmetic::div_mod::lemma_div_is_ordered(a - INDIRECT2_CAP + 16383, b - INDIRECT2_CAP + 16383, 16384);
    }
    if b > INDIRECT1_CAP {
        assert(ceil_div(b - INDIRECT1_CAP, 128) >= 0);
    }
    if b > INDIRECT2_CAP {
        assert(ceil_div(b - INDIRECT2_CAP, 128) >= 0);
        assert(ceil_div(b - INDIRECT2_CAP, 16384) >= 0);
    }
}

} // verus!
