//! Renaming an item: taking its entries out and recording them again under
//! the new name, in the same directory or in another.

use vstd::prelude::*;

use crate::block_dev::BlockDevice;
use crate::fat::cluster::ClusterId;
use crate::fat::control::FatFileSystem;
use crate::fat::dir_entry::{long_count, name_part, rename_dirents, short_name_of, spec_checksum, LongDirEntry, ShortDirEntry};
use crate::fat::inode::{inode_at, longs_found, named, slot_before, DirEntryRange, DirEntryType, Error, Inode};
use crate::fat::range::slot_at;
use crate::fat::remove::first_named;
use vstd::string::StringSliceAdditionalSpecFns;

verus! {

/// `short2` and `longs` are the entries of the item whose short entry was
/// `short`, renamed `name`: the new short name, the rest kept, and the long
/// entries of the name, last part first.
pub open spec fn renames_entries(short: ShortDirEntry, name: Seq<u8>, short2: ShortDirEntry, longs: Seq<LongDirEntry>) -> bool {
    &&& short2 == (ShortDirEntry { name: short2.name, ..short })
    &&& short2.name@ == short_name_of(name)
    &&& longs.len() == long_count(name.len() as int)
    &&& forall|j: int| 0 <= j < longs.len() ==> {
        let i = longs.len() - 1 - j;
        &&& (#[trigger] longs[j]).ord == (if j == 0 { ((i + 1) as u8) | 0x40 } else { (i + 1) as u8 })
        &&& longs[j].chksum == spec_checksum(name)
        &&& longs[j].attr == 0x0F
        &&& longs[j].ty == 0
        &&& longs[j].fst_clus_lo == 0
        &&& longs[j].spec_name() == name_part(name, i)
    }
}

/// The result of recording an item, as [`Inode::rename`] answers it.
pub open spec fn as_unit(r: Result<DirEntryRange, Error>) -> Result<(), Error> {
    match r {
        Ok(_) => Ok(()),
        Err(e) => Err(e),
    }
}

impl Inode {
    /// Taking the item `src` out of this directory on `fs`, and recording
    /// it under `name` with `n` long entries in `dir` on every volume that
    /// taking it out can leave, can be done.
    pub open spec fn can_move<D: BlockDevice>(&self, fs: FatFileSystem<D>, src: Inode, dir: Inode, name: Seq<u8>, n: int) -> bool {
        &&& self.removable(fs, src.range)
        &&& forall|mid: FatFileSystem<D>| #[trigger] self.removed(fs, mid, src.range) && mid.wf() && mid.fat == fs.fat
            && mid.data_area == fs.data_area ==> dir.can_record(mid, name, n)
    }

    /// One way moving the item `src` of this directory on `before` into
    /// `dir` under `name` went, arriving at `after` and answering `r`: its
    /// entries were taken out, leaving `mid`, then recorded again as
    /// `short2` and `longs`, the item's short entry `short` renamed,
    /// recording answering `rr`.
    pub open spec fn moved_through<D: BlockDevice>(
        &self,
        before: FatFileSystem<D>,
        after: FatFileSystem<D>,
        src: Inode,
        dir: Inode,
        name: Seq<u8>,
        short: ShortDirEntry,
        r: Result<(), Error>,
        mid: FatFileSystem<D>,
        short2: ShortDirEntry,
        longs: Seq<LongDirEntry>,
        rr: Result<DirEntryRange, Error>,
    ) -> bool {
        &&& renames_entries(short, name, short2, longs)
        &&& self.removed(before, mid, src.range)
        &&& mid.fat == before.fat
        &&& mid.data_area == before.data_area
        &&& dir.recorded(mid, after, name, short2, longs, rr)
        &&& r == as_unit(rr)
    }

    /// What moving the item `src` of this directory on `before`, whose short
    /// entry was `short`, into `dir` under `name` did, arriving at `after`
    /// and answering `r`.
    pub open spec fn moved<D: BlockDevice>(
        &self,
        before: FatFileSystem<D>,
        after: FatFileSystem<D>,
        src: Inode,
        dir: Inode,
        name: Seq<u8>,
        short: ShortDirEntry,
        r: Result<(), Error>,
    ) -> bool {
        exists|mid: FatFileSystem<D>, short2: ShortDirEntry, longs: Seq<LongDirEntry>, rr: Result<DirEntryRange, Error>|
            #[trigger] self.moved_through(before, after, src, dir, name, short, r, mid, short2, longs, rr)
    }

    /// What [`Inode::rename`] needs of this directory on `fs` to rename its
    /// item `src` to `new_name` there or, where `parent` is given, into that
    /// directory.
    pub open spec fn can_rename_item<D: BlockDevice>(&self, fs: FatFileSystem<D>, src: Inode, parent: Option<Inode>, new_name: Seq<u8>) -> bool {
        let disk = fs.sectors();
        let n = long_count(new_name.len() as int);
        &&& src.entry_fits(fs)
        &&& match parent {
            None => self.can_move(fs, src, *self, new_name, n),
            Some(np) => {
                let psecs = np.dir_sectors(fs);
                &&& fs.good_chain(np.start_id)
                &&& longs_found(disk, psecs, spec_checksum(new_name))
                &&& forall|p2: int, q2: int| #[trigger] first_named(disk, psecs, new_name, p2, q2) ==> {
                    let dest = inode_at(disk, psecs, p2, q2, spec_checksum(new_name));
                    &&& !(src.ty == DirEntryType::Regular && dest.ty == DirEntryType::Regular)
                    &&& (src.ty == DirEntryType::Directory && dest.ty == DirEntryType::Directory) ==> {
                        &&& np.can_rmdir(fs, new_name)
                        &&& forall|m1: FatFileSystem<D>| #[trigger] np.rmdir_did(fs, m1, new_name, Ok(())) && m1.wf()
                            && m1.fat == fs.fat && m1.data_area == fs.data_area ==> self.can_move(m1, src, np, new_name, n)
                    }
                }
            },
        }
    }

    /// What [`Inode::rename`] needs of this directory on `fs`, renaming its
    /// item `old_name` to `new_name` there or, where `parent` is given, into
    /// that directory.
    pub open spec fn can_rename<D: BlockDevice>(&self, fs: FatFileSystem<D>, old_name: Seq<u8>, parent: Option<Inode>, new_name: Seq<u8>) -> bool {
        let disk = fs.sectors();
        let secs = self.dir_sectors(fs);
        &&& fs.good_chain(self.start_id)
        &&& longs_found(disk, secs, spec_checksum(old_name))
        &&& new_name.len() > 0
        &&& parent is None ==> old_name != new_name
        &&& forall|p: int, q: int| #[trigger] first_named(disk, secs, old_name, p, q)
            ==> self.can_rename_item(fs, inode_at(disk, secs, p, q, spec_checksum(old_name)), parent, new_name)
    }

    /// What [`Inode::rename`] did with the item `src` of this directory, from
    /// `before` to `after`, answering `r`: the item's short entry as it was
    /// on `before` is the one renamed.
    pub open spec fn renamed_item<D: BlockDevice>(
        &self,
        before: FatFileSystem<D>,
        after: FatFileSystem<D>,
        src: Inode,
        parent: Option<Inode>,
        new_name: Seq<u8>,
        r: Result<(), Error>,
    ) -> bool {
        let disk = before.sectors();
        exists|short: ShortDirEntry| {
            &&& #[trigger] short.spec_to_bytes() == slot_at(disk, src.range.short)
            &&& match parent {
                None => self.moved(before, after, src, *self, new_name, short, r),
                Some(np) => self.renamed_into(before, after, src, np, new_name, short, r),
            }
        }
    }

    /// What renaming the item `src` of this directory on `before`, whose
    /// short entry was `short`, to `new_name` in the directory `np` did,
    /// arriving at `after` and answering `r`.
    pub open spec fn renamed_into<D: BlockDevice>(
        &self,
        before: FatFileSystem<D>,
        after: FatFileSystem<D>,
        src: Inode,
        np: Inode,
        new_name: Seq<u8>,
        short: ShortDirEntry,
        r: Result<(), Error>,
    ) -> bool {
        let disk = before.sectors();
        let psecs = np.dir_sectors(before);
        if forall|p2: int, q2: int| !#[trigger] named(disk, psecs, p2, q2, new_name) {
            r == Ok::<(), Error>(()) && after.sectors() == disk
        } else {
            forall|p2: int, q2: int| #[trigger] first_named(disk, psecs, new_name, p2, q2) ==> {
                let dest = inode_at(disk, psecs, p2, q2, spec_checksum(new_name));
                if src.ty == DirEntryType::Directory && dest.ty == DirEntryType::Directory {
                    ||| (r is Err && np.rmdir_did(before, after, new_name, r))
                    ||| exists|m1: FatFileSystem<D>| {
                        &&& #[trigger] np.rmdir_did(before, m1, new_name, Ok(()))
                        &&& m1.fat == before.fat
                        &&& m1.data_area == before.data_area
                        &&& self.moved(m1, after, src, np, new_name, short, r)
                    }
                } else if dest.ty == DirEntryType::Directory {
                    r == Err::<(), Error>(Error::IsADirectory) && after.sectors() == disk
                } else {
                    r == Err::<(), Error>(Error::NotADirectory) && after.sectors() == disk
                }
            }
        }
    }

    /// What [`Inode::rename`] did, from `before` to `after`, answering `r`.
    pub open spec fn renamed<D: BlockDevice>(
        &self,
        before: FatFileSystem<D>,
        after: FatFileSystem<D>,
        old_name: Seq<u8>,
        parent: Option<Inode>,
        new_name: Seq<u8>,
        r: Result<(), Error>,
    ) -> bool {
        let disk = before.sectors();
        let secs = self.dir_sectors(before);
        &&& r == Err::<(), Error>(Error::NotFound) <==> forall|p: int, q: int| !#[trigger] named(disk, secs, p, q, old_name)
        &&& r == Err::<(), Error>(Error::NotFound) ==> after.sectors() == disk
        &&& forall|p: int, q: int| #[trigger] first_named(disk, secs, old_name, p, q)
            ==> self.renamed_item(before, after, inode_at(disk, secs, p, q, spec_checksum(old_name)), parent, new_name, r)
    }

    /// Takes the item `src` out of this directory and records it under
    /// `new_name` in `dir`, its short entry `short` renamed, its long
    /// entries those of the new name.
    fn move_item<D: BlockDevice>(&self, src: Inode, short: &ShortDirEntry, dir: &Inode, new_name: &str, fs: &mut FatFileSystem<D>) -> (r: Result<(), Error>)
        requires
            old(fs).wf(),
            new_name.spec_bytes().len() > 0,
            self.can_move(*old(fs), src, *dir, new_name.spec_bytes(), long_count(new_name.spec_bytes().len() as int)),
        ensures
            final(fs).wf(),
            final(fs).bpb == old(fs).bpb,
            final(fs).fat == old(fs).fat,
            final(fs).data_area == old(fs).data_area,
            self.moved(*old(fs), *final(fs), src, *dir, new_name.spec_bytes(), *short, r),
    {
        let ghost f0 = *fs;
        let (short2, longs) = rename_dirents(short, new_name);
        let ghost lv = longs@;
        proof {
            assert(renames_entries(*short, new_name.spec_bytes(), short2, lv));
        }
        self.remove(src.range, fs);
        let ghost mid = *fs;
        proof {
            fs.cache.lemma_wf_view();
            assert(self.removed(f0, mid, src.range) && mid.wf() && mid.fat == f0.fat && mid.data_area == f0.data_area);
            assert(dir.can_record(mid, new_name.spec_bytes(), long_count(new_name.spec_bytes().len() as int)));
        }
        let rr = dir.create(new_name, short2, longs, fs);
        proof {
            assert(self.moved_through(f0, *fs, src, *dir, new_name.spec_bytes(), *short, as_unit(rr), mid, short2, lv, rr));
        }
        match rr {
            Ok(_) => Ok(()),
            Err(e) => Err(e),
        }
    }

    /// What [`Inode::removed`] says from one volume holds from another that
    /// presents the same sectors.
    proof fn lemma_removed_same<D: BlockDevice>(&self, f0: FatFileSystem<D>, f1: FatFileSystem<D>, f2: FatFileSystem<D>, range: DirEntryRange)
        requires
            self.removed(f1, f2, range),
            f1.same_volume(f0),
        ensures
            self.removed(f0, f2, range),
    {
        assert(f1.chain(self.start_id) == f0.chain(self.start_id));
        assert(self.dir_sectors(f1) == self.dir_sectors(f0));
    }

    /// [`Inode::can_move`] holds alike of volumes that present the same sectors.
    proof fn lemma_can_move_same<D: BlockDevice>(&self, f0: FatFileSystem<D>, f1: FatFileSystem<D>, src: Inode, dir: Inode, name: Seq<u8>)
        requires
            self.can_move(f0, src, dir, name, long_count(name.len() as int)),
            f1.same_volume(f0),
        ensures
            self.can_move(f1, src, dir, name, long_count(name.len() as int)),
    {
        assert(f1.chain(self.start_id) == f0.chain(self.start_id));
        assert(self.dir_sectors(f1) == self.dir_sectors(f0));
        assert forall|mid: FatFileSystem<D>| #[trigger] self.removed(f1, mid, src.range) && mid.wf() && mid.fat == f1.fat
            && mid.data_area == f1.data_area implies dir.can_record(mid, name, long_count(name.len() as int)) by {
            self.lemma_removed_same(f0, f1, mid, src.range);
        }
    }

    /// [`Inode::moved`] holds alike from volumes that present the same sectors.
    proof fn lemma_moved_same<D: BlockDevice>(
        &self,
        f0: FatFileSystem<D>,
        f1: FatFileSystem<D>,
        after: FatFileSystem<D>,
        src: Inode,
        dir: Inode,
        name: Seq<u8>,
        short: ShortDirEntry,
        r: Result<(), Error>,
    )
        requires
            f1.same_volume(f0),
            self.moved(f1, after, src, dir, name, short, r),
        ensures
            self.moved(f0, after, src, dir, name, short, r),
    {
        let (mid, short2, longs, rr) = choose|mid: FatFileSystem<D>, short2: ShortDirEntry, longs: Seq<LongDirEntry>, rr: Result<DirEntryRange, Error>|
            #[trigger] self.moved_through(f1, after, src, dir, name, short, r, mid, short2, longs, rr);
        self.lemma_removed_same(f0, f1, mid, src.range);
        assert(self.moved_through(f0, after, src, dir, name, short, r, mid, short2, longs, rr));
    }

    /// [`Inode::rmdir_did`] reads of its first volume only what volumes
    /// that present the same sectors share.
    proof fn lemma_rmdir_did_same<D: BlockDevice>(np: Inode, f0: FatFileSystem<D>, f1: FatFileSystem<D>, m1: FatFileSystem<D>, nb: Seq<u8>, r: Result<(), Error>)
        requires
            f1.same_volume(f0),
        ensures
            np.rmdir_did(f0, m1, nb, r) == np.rmdir_did(f1, m1, nb, r),
    {
        assert(forall|id: ClusterId| #[trigger] f1.chain(id) == f0.chain(id));
        assert(forall|x: Inode| #[trigger] x.dir_sectors(f1) == x.dir_sectors(f0));
        assert(forall|x: Inode| #[trigger] x.is_empty_on(f1) == x.is_empty_on(f0));
        assert(forall|x: Inode, a: FatFileSystem<D>| #[trigger] np.dropped(f1, a, x) == np.dropped(f0, a, x));
    }

    /// [`Inode::can_rename_item`] holds alike of volumes that present the
    /// same sectors.
    proof fn lemma_can_rename_item_same<D: BlockDevice>(&self, f0: FatFileSystem<D>, f1: FatFileSystem<D>, src: Inode, np: Inode, nb: Seq<u8>)
        requires
            f1.same_volume(f0),
            self.can_rename_item(f0, src, Some(np), nb),
        ensures
            self.can_rename_item(f1, src, Some(np), nb),
    {
        assert(forall|id: ClusterId| #[trigger] f1.chain(id) == f0.chain(id));
        assert(np.dir_sectors(f1) == np.dir_sectors(f0));
        assert(self.dir_sectors(f1) == self.dir_sectors(f0));
        let disk = f0.sectors();
        let psecs = np.dir_sectors(f0);
        let n = long_count(nb.len() as int);
        assert forall|p2: int, q2: int| #[trigger] first_named(disk, psecs, nb, p2, q2) implies {
            let dest = inode_at(disk, psecs, p2, q2, spec_checksum(nb));
            (src.ty == DirEntryType::Directory && dest.ty == DirEntryType::Directory) ==> {
                &&& np.can_rmdir(f1, nb)
                &&& forall|m1: FatFileSystem<D>| #[trigger] np.rmdir_did(f1, m1, nb, Ok(())) && m1.wf()
                    && m1.fat == f1.fat && m1.data_area == f1.data_area ==> self.can_move(m1, src, np, nb, n)
            }
        } by {
            let dest = inode_at(disk, psecs, p2, q2, spec_checksum(nb));
            if src.ty == DirEntryType::Directory && dest.ty == DirEntryType::Directory {
                assert(np.can_rmdir(f0, nb));
                assert forall|x: Inode| #[trigger] np.can_drop(f1, x) == np.can_drop(f0, x) by {
                    assert(forall|id: ClusterId| #[trigger] f1.chain(id) == f0.chain(id));
                    assert(np.dir_sectors(f1) == np.dir_sectors(f0));
                }
                assert(np.can_rmdir(f1, nb));
                assert forall|m1: FatFileSystem<D>| #[trigger] np.rmdir_did(f1, m1, nb, Ok(())) && m1.wf()
                    && m1.fat == f1.fat && m1.data_area == f1.data_area implies self.can_move(m1, src, np, nb, n) by {
                    Self::lemma_rmdir_did_same(np, f0, f1, m1, nb, Ok(()));
                }
            }
        }
    }

    /// [`Inode::renamed_into`] holds alike from volumes that present the
    /// same sectors.
    proof fn lemma_renamed_into_same<D: BlockDevice>(
        &self,
        f0: FatFileSystem<D>,
        f1: FatFileSystem<D>,
        after: FatFileSystem<D>,
        src: Inode,
        np: Inode,
        nb: Seq<u8>,
        short: ShortDirEntry,
        r: Result<(), Error>,
    )
        requires
            f1.same_volume(f0),
            self.renamed_into(f1, after, src, np, nb, short, r),
        ensures
            self.renamed_into(f0, after, src, np, nb, short, r),
    {
        assert(forall|id: ClusterId| #[trigger] f1.chain(id) == f0.chain(id));
        assert(np.dir_sectors(f1) == np.dir_sectors(f0));
        let disk = f0.sectors();
        let psecs = np.dir_sectors(f0);
        if !(forall|p2: int, q2: int| !#[trigger] named(disk, psecs, p2, q2, nb)) {
            assert forall|p2: int, q2: int| #[trigger] first_named(disk, psecs, nb, p2, q2) implies {
                let dest = inode_at(disk, psecs, p2, q2, spec_checksum(nb));
                if src.ty == DirEntryType::Directory && dest.ty == DirEntryType::Directory {
                    ||| (r is Err && np.rmdir_did(f0, after, nb, r))
                    ||| exists|m1: FatFileSystem<D>| {
                        &&& #[trigger] np.rmdir_did(f0, m1, nb, Ok(()))
                        &&& m1.fat == f0.fat
                        &&& m1.data_area == f0.data_area
                        &&& self.moved(m1, after, src, np, nb, short, r)
                    }
                } else if dest.ty == DirEntryType::Directory {
                    r == Err::<(), Error>(Error::IsADirectory) && after.sectors() == disk
                } else {
                    r == Err::<(), Error>(Error::NotADirectory) && after.sectors() == disk
                }
            } by {
                let dest = inode_at(disk, psecs, p2, q2, spec_checksum(nb));
                if src.ty == DirEntryType::Directory && dest.ty == DirEntryType::Directory {
                    Self::lemma_rmdir_did_same(np, f0, f1, after, nb, r);
                    if !(r is Err && np.rmdir_did(f1, after, nb, r)) {
                        let m1 = choose|m1: FatFileSystem<D>| {
                            &&& #[trigger] np.rmdir_did(f1, m1, nb, Ok(()))
                            &&& m1.fat == f1.fat
                            &&& m1.data_area == f1.data_area
                            &&& self.moved(m1, after, src, np, nb, short, r)
                        };
                        Self::lemma_rmdir_did_same(np, f0, f1, m1, nb, Ok(()));
                    }
                }
            }
        }
    }

    /// Renames the item `src` of this directory, whose short entry is
    /// `short`, `new_name` in the directory `np`, only over a directory of
    /// that name there (nothing happens where the name is free there).
    fn rename_into<D: BlockDevice>(&self, src: Inode, short: &ShortDirEntry, np: &mut Inode, new_name: &str, fs: &mut FatFileSystem<D>) -> (r: Result<(), Error>)
        requires
            old(fs).wf(),
            new_name.spec_bytes().len() > 0,
            self.can_rename_item(*old(fs), src, Some(*old(np)), new_name.spec_bytes()),
        ensures
            *final(np) == *old(np),
            final(fs).wf(),
            final(fs).bpb == old(fs).bpb,
            final(fs).fat == old(fs).fat,
            final(fs).data_area == old(fs).data_area,
            self.renamed_into(*old(fs), *final(fs), src, *old(np), new_name.spec_bytes(), *short, r),
            r != Err::<(), Error>(Error::NotFound),
    {
        let ghost f0 = *fs;
        let ghost disk = fs.sectors();
        let ghost nb = new_name.spec_bytes();
        let ghost np0 = *np;
        let ghost psecs = np.dir_sectors(f0);
        match np.find_cwd(new_name, fs) {
            None => Ok(()),
            Some(dest) => {
                let ghost (p2, q2) = choose|p2: int, q2: int| {
                    &&& #[trigger] named(disk, psecs, p2, q2, nb)
                    &&& forall|p3: int, q3: int| slot_before(p3, q3, p2, q2) ==> !#[trigger] named(disk, psecs, p3, q3, nb)
                    &&& dest == inode_at(disk, psecs, p2, q2, spec_checksum(nb))
                };
                proof {
                    assert(first_named(disk, psecs, nb, p2, q2));
                    assert forall|a: int, b: int| #[trigger] first_named(disk, psecs, nb, a, b) implies a == p2 && b == q2 by {
                        crate::fat::path::lemma_first_unique(disk, psecs, nb, a, b, p2, q2);
                    }
                }
                if src.ty == DirEntryType::Directory && dest.ty == DirEntryType::Directory {
                    let ghost f1 = *fs;
                    proof {
                        assert(f1.chain(np0.start_id) == f0.chain(np0.start_id));
                        assert(np0.dir_sectors(f1) == np0.dir_sectors(f0));
                    }
                    match np.rmdir(new_name, fs) {
                        Err(e) => return Err(e),
                        Ok(_) => {},
                    }
                    let ghost m1 = *fs;
                    proof {
                        fs.cache.lemma_wf_view();
                        assert(np0.rmdir_did(f0, m1, nb, Ok(())));
                        assert(self.can_move(m1, src, np0, nb, long_count(nb.len() as int)));
                    }
                    let r = self.move_item(src, short, np, new_name, fs);
                    proof {
                        assert(np0.rmdir_did(f0, m1, nb, Ok(())));
                    }
                    r
                } else if dest.ty == DirEntryType::Directory {
                    Err(Error::IsADirectory)
                } else if src.ty == DirEntryType::Directory {
                    Err(Error::NotADirectory)
                } else {
                    proof { assert(false); }
                    Err(Error::NotADirectory)
                }
            },
        }
    }

    /// Moving an item never answers [`Error::NotFound`].
    proof fn lemma_moved_found<D: BlockDevice>(
        &self,
        before: FatFileSystem<D>,
        after: FatFileSystem<D>,
        src: Inode,
        dir: Inode,
        name: Seq<u8>,
        short: ShortDirEntry,
        r: Result<(), Error>,
    )
        requires
            self.moved(before, after, src, dir, name, short, r),
        ensures
            r != Err::<(), Error>(Error::NotFound),
    {
        let (mid, short2, longs, rr) = choose|mid: FatFileSystem<D>, short2: ShortDirEntry, longs: Seq<LongDirEntry>, rr: Result<DirEntryRange, Error>|
            #[trigger] self.moved_through(before, after, src, dir, name, short, r, mid, short2, longs, rr);
    }

    /// [`Inode::renamed`] follows from what happened to the item first
    /// named `old_name`, where the answer is not [`Error::NotFound`].
    proof fn lemma_renamed_of_item<D: BlockDevice>(
        &self,
        before: FatFileSystem<D>,
        after: FatFileSystem<D>,
        old_name: Seq<u8>,
        parent: Option<Inode>,
        new_name: Seq<u8>,
        r: Result<(), Error>,
        p: int,
        q: int,
    )
        requires
            first_named(before.sectors(), self.dir_sectors(before), old_name, p, q),
            r != Err::<(), Error>(Error::NotFound),
            self.renamed_item(before, after, inode_at(before.sectors(), self.dir_sectors(before), p, q, spec_checksum(old_name)),
                parent, new_name, r),
        ensures
            self.renamed(before, after, old_name, parent, new_name, r),
    {
        let disk = before.sectors();
        let secs = self.dir_sectors(before);
        assert forall|a: int, b: int| #[trigger] first_named(disk, secs, old_name, a, b) implies a == p && b == q by {
            crate::fat::path::lemma_first_unique(disk, secs, old_name, a, b, p, q);
        }
    }

    /// Renames the item `old_name` of this directory `new_name`: where
    /// `new_parent` is given, into that directory, and only over a directory
    /// of that name there, which must be empty (nothing happens where the
    /// name is free there); otherwise in this directory. Answers
    /// [`Error::NotFound`] where nothing has the old name, and the errors
    /// of [`Inode::rmdir`] and [`Inode::create`].
    #[verifier::rlimit(80)]
    #[verifier::spinoff_prover]
    pub fn rename<D: BlockDevice>(
        &self,
        old_name: &str,
        new_parent: Option<&mut Inode>,
        new_name: &str,
        fs: &mut FatFileSystem<D>,
    ) -> (r: Result<(), Error>)
        requires
            old(fs).wf(),
            self.can_rename(*old(fs), old_name.spec_bytes(), match new_parent { Some(np) => Some(*np), None => None }, new_name.spec_bytes()),
        ensures
            final(fs).wf(),
            final(fs).bpb == old(fs).bpb,
            final(fs).fat == old(fs).fat,
            final(fs).data_area == old(fs).data_area,
            self.renamed(*old(fs), *final(fs), old_name.spec_bytes(), match new_parent { Some(np) => Some(*np), None => None },
                new_name.spec_bytes(), r),
    {
        let ghost f0 = *fs;
        let ghost disk = fs.sectors();
        let ghost secs = self.dir_sectors(*fs);
        let ghost ob = old_name.spec_bytes();
        let src = match self.find_cwd(old_name, fs) {
            None => return Err(Error::NotFound),
            Some(s) => s,
        };
        let ghost (p, q) = choose|p: int, q: int| {
            &&& #[trigger] named(disk, secs, p, q, ob)
            &&& forall|p2: int, q2: int| slot_before(p2, q2, p, q) ==> !#[trigger] named(disk, secs, p2, q2, ob)
            &&& src == inode_at(disk, secs, p, q, spec_checksum(ob))
        };
        proof {
            assert(first_named(disk, secs, ob, p, q));
        }
        let short = src.range.short.access(&mut fs.cache);
        let ghost f2 = *fs;
        proof { assert(f2.same_volume(f0)); }
        match new_parent {
            None => {
                proof {
                    assert(self.can_rename_item(f0, src, None, new_name.spec_bytes()));
                    self.lemma_can_move_same(f0, *fs, src, *self, new_name.spec_bytes());
                }
                let r = self.move_item(src, &short, self, new_name, fs);
                proof {
                    self.lemma_moved_same(f0, f2, *fs, src, *self, new_name.spec_bytes(), short, r);
                    self.lemma_moved_found(f0, *fs, src, *self, new_name.spec_bytes(), short, r);
                    assert(self.renamed_item(f0, *fs, src, None, new_name.spec_bytes(), r));
                    self.lemma_renamed_of_item(f0, *fs, ob, None, new_name.spec_bytes(), r, p, q);
                }
                r
            },
            Some(np) => {
                let ghost np0 = *np;
                proof {
                    assert(self.can_rename_item(f0, src, Some(np0), new_name.spec_bytes()));
                    self.lemma_can_rename_item_same(f0, f2, src, np0, new_name.spec_bytes());
                }
                let r = self.rename_into(src, &short, np, new_name, fs);
                proof {
                    self.lemma_renamed_into_same(f0, f2, *fs, src, np0, new_name.spec_bytes(), short, r);
                    assert(self.renamed_item(f0, *fs, src, Some(np0), new_name.spec_bytes(), r));
                    self.lemma_renamed_of_item(f0, *fs, ob, Some(np0), new_name.spec_bytes(), r, p, q);
                }
                r
            },
        }
    }
}

} // verus!
