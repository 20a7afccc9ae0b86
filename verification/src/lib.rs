//! Two small disk file systems over a block device: `easy_fs`, a Unix-like
//! layout with bitmaps and indexed inodes, and `fat`, a FAT32 volume.
//! Both reach the device through a write-back cache of fixed-size blocks.

pub mod block_cache;
pub mod block_dev;
pub mod layout;
pub mod easy_fs;
pub mod fat;

use vstd::prelude::*;

verus! {

/// Magic number that marks an easy-fs super block.
pub const MAGIC: u32 = 0x3b800001;

/// Size in bytes of one device block.
pub const BLOCK_SIZE: usize = 512;

/// Number of bits held by one block.
pub const BLOCK_BITS: usize = 4096;

} // verus!
