//! easy-fs: super block | inode bitmap | inode area | data bitmap | data area.

pub mod bitmap;
pub mod dir_entry;
pub mod efs;
pub mod inode;
pub mod super_block;
pub mod vfs;

pub use bitmap::Bitmap;
