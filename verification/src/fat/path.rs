//! Finding an item by a path of names separated by `/`.

use vstd::prelude::*;

use crate::block_dev::BlockDevice;
use crate::fat::control::FatFileSystem;
use crate::fat::dir_entry::spec_checksum;
use crate::fat::inode::{inode_at, longs_found, named, slot_before, DirEntryType, Inode};
use crate::fat::remove::first_named;
use vstd::string::StringSliceAdditionalSpecFns;

verus! {

/// The parts of `path` between the bytes `/`, in order; a path without
/// one is one part.
pub open spec fn split_path(path: Seq<u8>) -> Seq<Seq<u8>>
    decreases path.len(),
{
    if path.len() == 0 {
        seq![Seq::empty()]
    } else {
        let prev = split_path(path.drop_last());
        if path.last() == 0x2F {
            prev.push(Seq::empty())
        } else {
            prev.update(prev.len() - 1, prev.last().push(path.last()))
        }
    }
}

/// Splitting a path gives at least one part.
proof fn lemma_split_nonempty(path: Seq<u8>)
    ensures
        split_path(path).len() >= 1,
    decreases path.len(),
{
    if path.len() > 0 {
        lemma_split_nonempty(path.drop_last());
    }
}

/// The item of the directory `dir` on `fs` named `name`: the first in
/// scan order.
#[verifier::opaque]
pub open spec fn lookup<D: BlockDevice>(fs: FatFileSystem<D>, dir: Inode, name: Seq<u8>) -> Option<Inode> {
    let disk = fs.sectors();
    let secs = dir.dir_sectors(fs);
    if exists|p: int, q: int| #[trigger] first_named(disk, secs, name, p, q) {
        let (p, q) = choose|p: int, q: int| #[trigger] first_named(disk, secs, name, p, q);
        Some(inode_at(disk, secs, p, q, spec_checksum(name)))
    } else {
        None
    }
}

/// Following the names `segs` from the directory `dir`: each but the last
/// must name a directory.
pub open spec fn walk_path<D: BlockDevice>(fs: FatFileSystem<D>, dir: Inode, segs: Seq<Seq<u8>>) -> Option<Inode>
    decreases segs.len(),
{
    if segs.len() == 0 {
        None
    } else if segs.len() == 1 {
        lookup(fs, dir, segs[0])
    } else {
        match lookup(fs, dir, segs[0]) {
            None => None,
            Some(x) => if x.ty == DirEntryType::Directory {
                walk_path(fs, x, segs.drop_first())
            } else {
                None
            },
        }
    }
}

/// Every directory the walk through `segs` from `dir` looks into has a
/// whole chain and the long entries of its items.
pub open spec fn path_ok<D: BlockDevice>(fs: FatFileSystem<D>, dir: Inode, segs: Seq<Seq<u8>>) -> bool
    decreases segs.len(),
{
    &&& fs.good_chain(dir.start_id)
    &&& segs.len() >= 1 ==> longs_found(fs.sectors(), dir.dir_sectors(fs), spec_checksum(segs[0]))
    &&& segs.len() > 1 ==> match lookup(fs, dir, segs[0]) {
        None => true,
        Some(x) => x.ty == DirEntryType::Directory ==> path_ok(fs, x, segs.drop_first()),
    }
}

/// The first item with a name is unique.
pub(crate) proof fn lemma_first_unique(disk: Seq<Seq<u8>>, secs: Seq<crate::fat::sector::SectorId>, name: Seq<u8>, p: int, q: int, p2: int, q2: int)
    requires
        first_named(disk, secs, name, p, q),
        first_named(disk, secs, name, p2, q2),
    ensures
        p == p2 && q == q2,
{
    if slot_before(p, q, p2, q2) {
        assert(!named(disk, secs, p, q, name));
    } else if slot_before(p2, q2, p, q) {
        assert(!named(disk, secs, p2, q2, name));
    }
}

/// Splits `path` at the bytes `/`.
fn split_exec(path: &[u8]) -> (r: Vec<Vec<u8>>)
    ensures
        r@.len() == split_path(path@).len(),
        forall|i: int| 0 <= i < r@.len() ==> (#[trigger] r@[i])@ == split_path(path@)[i],
{
    let mut parts: Vec<Vec<u8>> = Vec::new();
    let mut cur: Vec<u8> = Vec::new();
    let mut i: usize = 0;
    proof { assert(path@.subrange(0, 0) =~= Seq::<u8>::empty()); }
    while i < path.len()
        invariant
            i <= path@.len(),
            parts@.len() + 1 == split_path(path@.subrange(0, i as int)).len(),
            forall|j: int| 0 <= j < parts@.len() ==> (#[trigger] parts@[j])@ == split_path(path@.subrange(0, i as int))[j],
            cur@ == split_path(path@.subrange(0, i as int)).last(),
        decreases path@.len() - i,
    {
        let ghost prev = path@.subrange(0, i as int);
        proof {
            assert(path@.subrange(0, i + 1).drop_last() =~= prev);
            assert(path@.subrange(0, i + 1).last() == path@[i as int]);
            lemma_split_nonempty(prev);
        }
        if path[i] == 0x2F {
            let done = cur;
            parts.push(done);
            cur = Vec::new();
        } else {
            cur.push(path[i]);
        }
        i = i + 1;
    }
    proof {
        assert(path@.subrange(0, path@.len() as int) =~= path@);
        lemma_split_nonempty(path@);
    }
    parts.push(cur);
    parts
}

impl Inode {
    /// The item that the path `relat_path`, names separated by `/`, leads
    /// to from this directory: each name but the last must name a
    /// directory; `None` where a name leads nowhere.
    #[verifier::rlimit(60)]
    #[verifier::spinoff_prover]
    pub fn find<D: BlockDevice>(&self, relat_path: &str, fs: &mut FatFileSystem<D>) -> (r: Option<Inode>)
        requires
            old(fs).wf(),
            path_ok(*old(fs), *self, split_path(relat_path.spec_bytes())),
        ensures
            final(fs).same_volume(*old(fs)),
            r == walk_path(*old(fs), *self, split_path(relat_path.spec_bytes())),
    {
        let ghost f0 = *fs;
        let ghost segs = split_path(relat_path.spec_bytes());
        let parts = split_exec(relat_path.as_bytes());
        proof { lemma_split_nonempty(relat_path.spec_bytes()); }
        let k = parts.len() - 1;
        let mut inode = *self;
        let mut i: usize = 0;
        proof { assert(segs.skip(0) =~= segs); }
        while i < k
            invariant
                fs.wf(),
                fs.same_volume(f0),
                f0 == *old(fs),
                segs == split_path(relat_path.spec_bytes()),
                k + 1 == parts@.len(),
                parts@.len() == segs.len(),
                forall|j: int| 0 <= j < parts@.len() ==> (#[trigger] parts@[j])@ == segs[j],
                i <= k,
                path_ok(f0, inode, segs.skip(i as int)),
                walk_path(f0, *self, segs) == walk_path(f0, inode, segs.skip(i as int)),
            decreases k - i,
        {
            let ghost rest = segs.skip(i as int);
            proof {
                assert(rest[0] == segs[i as int]);
                assert(rest.drop_first() =~= segs.skip(i + 1));
                assert(rest.len() > 1);
            }
            let found = inode.find_name(parts[i].as_slice(), fs);
            proof {
                self.lemma_found_lookup(f0, inode, segs[i as int], found);
                assert(found == lookup(f0, inode, rest[0]));
                assert(walk_path(f0, inode, rest) == match lookup(f0, inode, rest[0]) {
                    None => None,
                    Some(x) => if x.ty == DirEntryType::Directory {
                        walk_path(f0, x, rest.drop_first())
                    } else {
                        None
                    },
                });
            }
            let x = match found {
                None => {
                    proof {
                        assert(walk_path(f0, inode, rest) is None);
                        assert(walk_path(f0, *self, segs) is None);
                        assert(segs == split_path(relat_path.spec_bytes()));
                    }
                    return None;
                },
                Some(x) => x,
            };
            if x.ty != DirEntryType::Directory {
                proof {
                    assert(walk_path(f0, inode, rest) is None);
                    assert(walk_path(f0, *self, segs) is None);
                }
                return None;
            }
            inode = x;
            i = i + 1;
        }
        let ghost rest = segs.skip(k as int);
        proof { assert(rest[0] == segs[k as int]); }
        let found = inode.find_name(parts[k].as_slice(), fs);
        proof { self.lemma_found_lookup(f0, inode, segs[k as int], found); }
        found
    }

    /// What [`Inode::find_name`] answers is [`lookup`].
    proof fn lemma_found_lookup<D: BlockDevice>(&self, fs: FatFileSystem<D>, dir: Inode, name: Seq<u8>, found: Option<Inode>)
        requires
            ({
                let disk = fs.sectors();
                let secs = dir.dir_sectors(fs);
                match found {
                    None => forall|p: int, q: int| !#[trigger] named(disk, secs, p, q, name),
                    Some(inode) => exists|p: int, q: int| {
                        &&& #[trigger] named(disk, secs, p, q, name)
                        &&& forall|p2: int, q2: int| slot_before(p2, q2, p, q) ==> !#[trigger] named(disk, secs, p2, q2, name)
                        &&& inode == inode_at(disk, secs, p, q, spec_checksum(name))
                    },
                }
            }),
        ensures
            found == lookup(fs, dir, name),
    {
        reveal(lookup);
        let disk = fs.sectors();
        let secs = dir.dir_sectors(fs);
        match found {
            None => {
                if exists|p: int, q: int| #[trigger] first_named(disk, secs, name, p, q) {
                    let (p, q) = choose|p: int, q: int| #[trigger] first_named(disk, secs, name, p, q);
                    assert(named(disk, secs, p, q, name));
                }
            },
            Some(inode) => {
                let (p, q) = choose|p: int, q: int| {
                    &&& #[trigger] named(disk, secs, p, q, name)
                    &&& forall|p2: int, q2: int| slot_before(p2, q2, p, q) ==> !#[trigger] named(disk, secs, p2, q2, name)
                    &&& inode == inode_at(disk, secs, p, q, spec_checksum(name))
                };
                assert(first_named(disk, secs, name, p, q));
                let (p2, q2) = choose|p: int, q: int| #[trigger] first_named(disk, secs, name, p, q);
                lemma_first_unique(disk, secs, name, p, q, p2, q2);
            },
        }
    }
}

} // verus!
