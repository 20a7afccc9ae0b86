//! FAT32 volume: reserved area | FAT | data area.

pub mod bpb;
pub mod cluster;
pub mod control;
pub mod create;
pub mod data;
pub mod dir_entry;
pub mod found;
pub mod fs_info;
pub mod grow;
pub mod write;
pub mod inode;
pub mod path;
pub mod range;
pub mod remove;
pub mod rename;
pub mod sector;
pub mod table;

pub use cluster::{ClusterError, ClusterId};
