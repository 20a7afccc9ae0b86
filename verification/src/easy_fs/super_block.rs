//! The super block: checks that a device holds an easy-fs and locates the
//! other areas.

use vstd::prelude::*;

use crate::layout::{decode_words, encode_words, lemma_words_roundtrip, u32_at, words_to_bytes};
use crate::MAGIC;

verus! {

/// Bytes of the super block on disk.
pub const SUPER_BLOCK_SIZE: usize = 24;

#[derive(Debug)]
pub struct SuperBlock {
    /// Marks a valid easy-fs.
    pub magic: u32,
    /// Blocks the file system occupies.
    pub total_blocks: u32,
    pub inode_bitmap_blocks: u32,
    pub inode_area_blocks: u32,
    pub data_bitmap_blocks: u32,
    pub data_area_blocks: u32,
}

impl SuperBlock {
    /// The super block as six words.
    pub open spec fn spec_words(&self) -> Seq<u32> {
        seq![
            self.magic,
            self.total_blocks,
            self.inode_bitmap_blocks,
            self.inode_area_blocks,
            self.data_bitmap_blocks,
            self.data_area_blocks,
        ]
    }

    /// The super block's bytes on disk.
    pub open spec fn spec_to_bytes(&self) -> Seq<u8> {
        words_to_bytes(self.spec_words())
    }

    /// Fills in a valid super block with the sizes of the areas.
    pub fn init(
        &mut self,
        total_blocks: u32,
        inode_bitmap_blocks: u32,
        inode_area_blocks: u32,
        data_bitmap_blocks: u32,
        data_area_blocks: u32,
    )
        ensures
            final(self).magic == MAGIC,
            final(self).total_blocks == total_blocks,
            final(self).inode_bitmap_blocks == inode_bitmap_blocks,
            final(self).inode_area_blocks == inode_area_blocks,
            final(self).data_bitmap_blocks == data_bitmap_blocks,
            final(self).data_area_blocks == data_area_blocks,
    {
        *self = SuperBlock {
            magic: MAGIC,
            total_blocks,
            inode_bitmap_blocks,
            inode_area_blocks,
            data_bitmap_blocks,
            data_area_blocks,
        };
    }

    /// A valid super block with the sizes of the areas.
    pub fn new(
        total_blocks: u32,
        inode_bitmap_blocks: u32,
        inode_area_blocks: u32,
        data_bitmap_blocks: u32,
        data_area_blocks: u32,
    ) -> (r: Self)
        ensures
            r.magic == MAGIC,
            r.total_blocks == total_blocks,
            r.inode_bitmap_blocks == inode_bitmap_blocks,
            r.inode_area_blocks == inode_area_blocks,
            r.data_bitmap_blocks == data_bitmap_blocks,
            r.data_area_blocks == data_area_blocks,
    {
        SuperBlock {
            magic: MAGIC,
            total_blocks,
            inode_bitmap_blocks,
            inode_area_blocks,
            data_bitmap_blocks,
            data_area_blocks,
        }
    }

    /// Whether the magic number marks an easy-fs.
    pub fn is_valid(&self) -> (r: bool)
        ensures
            r == (self.magic == MAGIC),
    {
        self.magic == MAGIC
    }

    /// Reads a super block from its bytes on disk.
    pub fn from_bytes(bytes: &[u8]) -> (r: Self)
        requires
            bytes@.len() >= SUPER_BLOCK_SIZE,
        ensures
            r.spec_words() == Seq::new(6, |w: int| u32_at(bytes@, 4 * w)),
    {
        let ws = decode_words(bytes, 6);
        let r = SuperBlock {
            magic: ws[0],
            total_blocks: ws[1],
            inode_bitmap_blocks: ws[2],
            inode_area_blocks: ws[3],
            data_bitmap_blocks: ws[4],
            data_area_blocks: ws[5],
        };
        assert(r.spec_words() =~= Seq::new(6, |w: int| u32_at(bytes@, 4 * w)));
        r
    }

    /// The super block's bytes on disk.
    pub fn to_bytes(&self) -> (r: Vec<u8>)
        ensures
            r@ == self.spec_to_bytes(),
            r@.len() == SUPER_BLOCK_SIZE,
    {
        let ws = vec![
            self.magic,
            self.total_blocks,
            self.inode_bitmap_blocks,
            self.inode_area_blocks,
            self.data_bitmap_blocks,
            self.data_area_blocks,
        ];
        assert(ws@ =~= self.spec_words());
        encode_words(ws.as_slice())
    }

    /// A super block reads back from its own bytes.
    pub proof fn lemma_bytes_roundtrip(&self)
        ensures
            Seq::new(6, |w: int| u32_at(self.spec_to_bytes(), 4 * w)) == self.spec_words(),
    {
        lemma_words_roundtrip(self.spec_words());
        assert(Seq::new(6, |w: int| u32_at(self.spec_to_bytes(), 4 * w)) =~= self.spec_words());
    }
}

} // verus!
