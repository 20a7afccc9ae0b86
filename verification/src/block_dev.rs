//! The block device interface: storage addressed in blocks of
//! [`BLOCK_SIZE`] bytes.

use vstd::prelude::*;

use crate::BLOCK_SIZE;
use std::collections::HashMap;

verus! {

/// Every block of a device holds exactly [`BLOCK_SIZE`] bytes.
pub open spec fn blocks_wf(blocks: Seq<Seq<u8>>) -> bool {
    forall|i: int| 0 <= i < blocks.len() ==> (#[trigger] blocks[i]).len() == BLOCK_SIZE
}

/// A block device driver: reads and writes whole blocks by index.
pub trait BlockDevice {
    /// The contents of the device, block by block.
    spec fn blocks(&self) -> Seq<Seq<u8>>;

    /// Copies block `block_id` into `buf`.
    fn read_block(&self, block_id: usize, buf: &mut [u8])
        requires
            block_id < self.blocks().len(),
            old(buf)@.len() == BLOCK_SIZE,
            blocks_wf(self.blocks()),
        ensures
            final(buf)@ == self.blocks()[block_id as int],
    ;

    /// Overwrites block `block_id` with `buf`.
    fn write_block(&mut self, block_id: usize, buf: &[u8])
        requires
            block_id < old(self).blocks().len(),
            buf@.len() == BLOCK_SIZE,
        ensures
            final(self).blocks() == old(self).blocks().update(block_id as int, buf@),
    ;
}

/// A device kept in memory, block by block.
pub struct MemoryDevice {
    blocks: Vec<Vec<u8>>,
}

impl MemoryDevice {
    /// A device of `count` zeroed blocks.
    pub fn new(count: usize) -> (dev: Self)
        ensures
            dev.blocks().len() == count,
            blocks_wf(dev.blocks()),
            forall|i: int, j: int|
                0 <= i < count && 0 <= j < BLOCK_SIZE ==> #[trigger] dev.blocks()[i][j] == 0,
    {
        let mut blocks: Vec<Vec<u8>> = Vec::new();
        let mut i: usize = 0;
        while i < count
            invariant
                i <= count,
                blocks@.len() == i,
                forall|k: int| 0 <= k < i ==> (#[trigger] blocks@[k])@ =~= Seq::new(BLOCK_SIZE as nat, |j: int| 0u8),
            decreases count - i,
        {
            blocks.push(zero_block());
            i = i + 1;
        }
        let dev = MemoryDevice { blocks };
        assert forall|i: int| 0 <= i < dev.blocks().len() implies (#[trigger] dev.blocks()[i]).len() == BLOCK_SIZE by {
            assert(dev.blocks()[i] == dev.blocks@[i]@);
        }
        dev
    }
}

/// A block of zero bytes.
pub fn zero_block() -> (b: Vec<u8>)
    ensures
        b@ =~= Seq::new(BLOCK_SIZE as nat, |j: int| 0u8),
{
    let mut b: Vec<u8> = Vec::new();
    let mut i: usize = 0;
    while i < BLOCK_SIZE
        invariant
            i <= BLOCK_SIZE,
            b@ =~= Seq::new(i as nat, |j: int| 0u8),
        decreases BLOCK_SIZE - i,
    {
        b.push(0);
        i = i + 1;
    }
    b
}

impl BlockDevice for MemoryDevice {
    closed spec fn blocks(&self) -> Seq<Seq<u8>> {
        Seq::new(self.blocks@.len(), |i: int| self.blocks@[i]@)
    }

    fn read_block(&self, block_id: usize, buf: &mut [u8]) {
        let src = &self.blocks[block_id];
        assert(src@ == self.blocks()[block_id as int]);
        let mut i: usize = 0;
        while i < BLOCK_SIZE
            invariant
                i <= BLOCK_SIZE,
                src@.len() == BLOCK_SIZE,
                buf@.len() == BLOCK_SIZE,
                forall|j: int| 0 <= j < i ==> buf@[j] == src@[j],
            decreases BLOCK_SIZE - i,
        {
            buf[i] = src[i];
            i = i + 1;
        }
        assert(buf@ =~= src@);
    }

    fn write_block(&mut self, block_id: usize, buf: &[u8]) {
        let mut b: Vec<u8> = Vec::new();
        let mut i: usize = 0;
        while i < buf.len()
            invariant
                i <= buf@.len(),
                b@ =~= buf@.subrange(0, i as int),
            decreases buf@.len() - i,
        {
            b.push(buf[i]);
            i = i + 1;
        }
        assert(b@ =~= buf@);
        self.blocks.set(block_id, b);
        assert(self.blocks() =~= old(self).blocks().update(block_id as int, buf@));
    }
}

/// A device of `len` blocks kept in memory where written: a block never
/// written reads as zeros.
pub struct SparseDevice {
    len: usize,
    written: HashMap<usize, Vec<u8>>,
}

impl SparseDevice {
    /// A device of `len` zeroed blocks.
    pub fn new(len: usize) -> (dev: Self)
        ensures
            dev.blocks().len() == len,
            blocks_wf(dev.blocks()),
            forall|i: int, j: int| 0 <= i < len && 0 <= j < BLOCK_SIZE ==> #[trigger] dev.blocks()[i][j] == 0,
    {
        SparseDevice { len, written: HashMap::new() }
    }

    /// The number of blocks.
    pub fn len(&self) -> (r: usize)
        ensures
            r == self.blocks().len(),
    {
        self.len
    }

    /// Block `block_id` where it was written; `None` where it still reads as zeros.
    pub fn written_block(&self, block_id: usize) -> (r: Option<&Vec<u8>>)
        requires
            block_id < self.blocks().len(),
        ensures
            match r {
                Some(b) => b@ == self.blocks()[block_id as int],
                None => self.blocks()[block_id as int] == Seq::new(BLOCK_SIZE as nat, |j: int| 0u8),
            },
    {
        broadcast use vstd::std_specs::hash::group_hash_axioms;
        self.written.get(&block_id)
    }
}

impl BlockDevice for SparseDevice {
    closed spec fn blocks(&self) -> Seq<Seq<u8>> {
        Seq::new(
            self.len as nat,
            |i: int| if self.written@.contains_key(i as usize) { self.written@[i as usize]@ } else { Seq::new(BLOCK_SIZE as nat, |j: int| 0u8) },
        )
    }

    fn read_block(&self, block_id: usize, buf: &mut [u8]) {
        broadcast use vstd::std_specs::hash::group_hash_axioms;
        match self.written.get(&block_id) {
            Some(src) => {
                assert(src@ == self.blocks()[block_id as int]);
                let mut i: usize = 0;
                while i < BLOCK_SIZE
                    invariant
                        i <= BLOCK_SIZE,
                        src@.len() == BLOCK_SIZE,
                        buf@.len() == BLOCK_SIZE,
                        forall|j: int| 0 <= j < i ==> buf@[j] == src@[j],
                    decreases BLOCK_SIZE - i,
                {
                    buf[i] = src[i];
                    i = i + 1;
                }
                assert(buf@ =~= src@);
            },
            None => {
                let mut i: usize = 0;
                while i < BLOCK_SIZE
                    invariant
                        i <= BLOCK_SIZE,
                        buf@.len() == BLOCK_SIZE,
                        forall|j: int| 0 <= j < i ==> buf@[j] == 0u8,
                    decreases BLOCK_SIZE - i,
                {
                    buf[i] = 0;
                    i = i + 1;
                }
                assert(buf@ =~= Seq::new(BLOCK_SIZE as nat, |j: int| 0u8));
            },
        }
    }

    fn write_block(&mut self, block_id: usize, buf: &[u8]) {
        broadcast use vstd::std_specs::hash::group_hash_axioms;
        let mut b: Vec<u8> = Vec::new();
        let mut i: usize = 0;
        while i < buf.len()
            invariant
                i <= buf@.len(),
                b@ =~= buf@.subrange(0, i as int),
            decreases buf@.len() - i,
        {
            b.push(buf[i]);
            i = i + 1;
        }
        assert(b@ =~= buf@);
        self.written.insert(block_id, b);
        assert(self.blocks() =~= old(self).blocks().update(block_id as int, buf@));
    }
}

} // verus!
