# rcore_fs

Two small file systems over a block device, with their behaviour stated in
`requires` / `ensures` contracts and proved with Verus:

- `easy_fs`: a teaching file system of a super block, inode and data
  bitmaps, inodes with direct and indirect blocks, and one flat root
  directory.
- `fat`: a FAT32 volume: boot sector and FSINFO, the FAT, cluster chains,
  directories of short and long entries, files.

## Layout

- `src/block_dev.rs`: the block device interface and in-memory devices.
- `src/block_cache.rs`: the block cache of `easy_fs`; `src/fat/sector.rs` is
  the sector cache of `fat`. Both present the device as a sequence of blocks
  in their contracts, with what is cached taking the place of what is on disk.
- `src/layout.rs`: little-endian words and names stored as bytes.
- `src/easy_fs/`: bitmaps, disk inodes, directory entries, the file system
  and its files (`vfs.rs`).
- `src/fat/`: the boot sector (`bpb.rs`), FSINFO, the FAT (`table.rs`),
  the data area, cluster chains (`control.rs`, `grow.rs`), directory entries,
  lookups (`inode.rs`, `path.rs`), recording and removing items
  (`create.rs`, `range.rs`, `remove.rs`, `rename.rs`), file writes
  (`write.rs`), and what a lookup finds after recording (`found.rs`).
- `tests/`: tests on concrete volumes.
- `app/`: the command-line packer that writes the programs of a directory
  into an image of either file system.
