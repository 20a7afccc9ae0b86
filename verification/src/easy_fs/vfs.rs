//! Inodes as files and directories: a directory is a file of 32-byte
//! entries, each a name and the number of the inode it names.

use vstd::prelude::*;

use crate::block_cache::{splice, sync_all};
use crate::block_dev::{blocks_wf, BlockDevice};
use crate::easy_fs::dir_entry::{name_prefix, DirEntry};
use crate::easy_fs::efs::{zeros, EasyFileSystem};
use crate::easy_fs::bitmap::Bitmap;
use crate::easy_fs::inode::{
    all_below, all_distinct, grow_needed, spec_count_data_block, spec_total_blocks, DiskInode, DiskInodeKind,
    INDIRECT1_CAP, INDIRECT3_CAP, INODE_SIZE,
};
use crate::layout::u32_at;
use crate::BLOCK_SIZE;
use vstd::std_specs::convert::FromSpecImpl;
use vstd::string::StringSliceAdditionalSpecFns;

verus! {

/// What kind of file [`Stat`] describes.
#[allow(clippy::upper_case_acronyms)]
#[derive(Debug, Clone, Copy, PartialEq, Eq, Structural)]
pub enum StatKind {
    DIR,
    FILE,
}

impl StatKind {
    pub open spec fn spec_bits(self) -> u32 {
        match self {
            StatKind::DIR => 0o040000,
            StatKind::FILE => 0o100000,
        }
    }

    /// The mode bits of the kind.
    pub fn bits(self) -> (r: u32)
        ensures
            r == self.spec_bits(),
    {
        match self {
            StatKind::DIR => 0o040000,
            StatKind::FILE => 0o100000,
        }
    }
}

impl Default for StatKind {
    fn default() -> (r: Self)
        ensures
            r == StatKind::FILE,
    {
        StatKind::FILE
    }
}

/// The kind a status reports for an inode of kind `kind`.
pub open spec fn stat_kind(kind: DiskInodeKind) -> StatKind {
    match kind {
        DiskInodeKind::Directory => StatKind::DIR,
        DiskInodeKind::File => StatKind::FILE,
    }
}

impl From<DiskInodeKind> for StatKind {
    fn from(kind: DiskInodeKind) -> (r: Self) {
        match kind {
            DiskInodeKind::Directory => StatKind::DIR,
            DiskInodeKind::File => StatKind::FILE,
        }
    }
}

impl FromSpecImpl<DiskInodeKind> for StatKind {
    open spec fn obeys_from_spec() -> bool {
        true
    }

    open spec fn from_spec(kind: DiskInodeKind) -> StatKind {
        stat_kind(kind)
    }
}

/// What [`Inode::stat`] tells of a file.
#[derive(Debug, Clone, Copy)]
pub struct Stat {
    /// The device; always 0.
    pub dev: u64,
    /// The inode number.
    pub inode: u64,
    pub kind: StatKind,
    /// Number of hard links.
    pub links: u32,
    pub pad: [u64; 7],
}

impl Stat {
    /// The status of inode `inode` of kind `kind` with `links` links.
    pub fn new(inode: u64, kind: StatKind, links: u32) -> (r: Self)
        ensures
            r.dev == 0,
            r.inode == inode,
            r.kind == kind,
            r.links == links,
    {
        Stat { dev: 0, inode, kind, links, pad: [0u64; 7] }
    }
}

impl Default for Stat {
    fn default() -> (r: Self)
        ensures
            r.dev == 0,
            r.inode == 0,
            r.kind == StatKind::FILE,
            r.links == 0,
    {
        Stat { dev: 0, inode: 0, kind: StatKind::FILE, links: 0, pad: [0u64; 7] }
    }
}

/// Entry `k` of the directory `ino`: 32 bytes of its contents.
pub open spec fn dir_entry_at(ino: DiskInode, view: Seq<Seq<u8>>, k: int) -> Seq<u8> {
    Seq::new(32, |j: int| ino.file_byte(view, 32 * k + j))
}

/// The directory `root` on `v` became `root2` on `v2` by recording an
/// entry for inode `id` named `name` at entry `e`: the first entry with an
/// empty name, or a new entry past the end where there was none, the
/// directory then one entry longer; every other entry is kept.
pub open spec fn placed_at(root: DiskInode, v: Seq<Seq<u8>>, root2: DiskInode, v2: Seq<Seq<u8>>, id: u32, e: int, name: Seq<u8>) -> bool {
    let n = root.size as int / 32;
    &&& 0 <= e <= n
    &&& forall|j: int| 0 <= j < e ==> entry_name(#[trigger] dir_entry_at(root, v, j)).len() != 0
    &&& e < n ==> entry_name(dir_entry_at(root, v, e)).len() == 0 && root2.size == root.size
    &&& e == n ==> root2.size == root.size + 32
    &&& entry_id(dir_entry_at(root2, v2, e)) == id
    &&& (forall|i: int| 0 <= i < name.len() ==> name[i] != 0) ==> entry_name(dir_entry_at(root2, v2, e)) == name
    &&& forall|j: int| 0 <= j < n && j != e ==> #[trigger] dir_entry_at(root2, v2, j) == dir_entry_at(root, v, j)
}

/// Views in which a directory's bytes agree hold the same recording.
proof fn lemma_placed_frame(root: DiskInode, v: Seq<Seq<u8>>, va: Seq<Seq<u8>>, root2: DiskInode, v2: Seq<Seq<u8>>, id: u32, e: int, name: Seq<u8>)
    requires
        placed_at(root, va, root2, v2, id, e, name),
        forall|p: int| 0 <= p < root.size ==> #[trigger] root.file_byte(va, p) == root.file_byte(v, p),
    ensures
        placed_at(root, v, root2, v2, id, e, name),
{
    assert forall|j: int| 0 <= j < root.size as int / 32 implies #[trigger] dir_entry_at(root, va, j) == dir_entry_at(root, v, j) by {
        assert forall|t: int| 0 <= t < 32 implies #[trigger] dir_entry_at(root, va, j)[t] == dir_entry_at(root, v, j)[t] by {
            assert(32 * j + t < root.size);
        }
        assert(dir_entry_at(root, va, j) =~= dir_entry_at(root, v, j));
    }
    let n = root.size as int / 32;
    assert forall|j: int| 0 <= j < e implies entry_name(#[trigger] dir_entry_at(root, v, j)).len() != 0 by {
        assert(dir_entry_at(root, va, j) == dir_entry_at(root, v, j));
    }
    if e < n {
        assert(dir_entry_at(root, va, e) == dir_entry_at(root, v, e));
    }
    assert forall|j: int| 0 <= j < n && j != e implies #[trigger] dir_entry_at(root2, v2, j) == dir_entry_at(root, v, j) by {
        assert(dir_entry_at(root, va, j) == dir_entry_at(root, v, j));
    }
}

/// The name an entry holds: its first 28 bytes up to the first zero.
pub open spec fn entry_name(e: Seq<u8>) -> Seq<u8> {
    name_prefix(e.subrange(0, 28))
}

/// The inode number an entry holds.
pub open spec fn entry_id(e: Seq<u8>) -> u32 {
    u32_at(e, 28)
}

/// The file `ino` can be read whole: its tree is sound and every block of
/// it is on the device.
pub open spec fn file_ok(ino: DiskInode, view: Seq<Seq<u8>>) -> bool {
    &&& ino.tree_wf(view, spec_count_data_block(ino.size))
    &&& forall|i: int| 0 <= i < spec_count_data_block(ino.size) ==> #[trigger] ino.readable(view, i)
}

/// `ino` is a directory of whole entries that can be read.
pub open spec fn dir_ok(ino: DiskInode, view: Seq<Seq<u8>>) -> bool {
    &&& ino.kind == DiskInodeKind::Directory
    &&& ino.size % 32 == 0
    &&& file_ok(ino, view)
}

/// Entry `k` of the directory `ino` is named `name`.
pub open spec fn names_at(ino: DiskInode, view: Seq<Seq<u8>>, k: int, name: Seq<u8>) -> bool {
    &&& 0 <= k < ino.size / 32
    &&& entry_name(dir_entry_at(ino, view, k)) == name
}

/// What looking up `name` in the directory `ino` answers: the inode number
/// of its first entry named `name`.
pub open spec fn is_lookup(ino: DiskInode, view: Seq<Seq<u8>>, name: Seq<u8>, r: Option<u32>) -> bool {
    match r {
        None => forall|k: int| !#[trigger] names_at(ino, view, k, name),
        Some(id) => exists|k: int| {
            &&& #[trigger] names_at(ino, view, k, name)
            &&& forall|j: int| 0 <= j < k ==> !#[trigger] names_at(ino, view, j, name)
            &&& id == entry_id(dir_entry_at(ino, view, k))
        },
    }
}

/// An inode of an easy-fs volume: where its bytes lie.
#[derive(Debug, Clone, Copy, PartialEq, Eq, Structural)]
pub struct Inode {
    /// The block that holds the inode.
    pub block_id: usize,
    /// The inode's offset in its block.
    pub block_offset: usize,
}

impl Inode {
    /// The inode at byte `block_offset` of block `block_id`.
    pub fn new(block_id: u32, block_offset: usize) -> (r: Self)
        ensures
            r.block_id == block_id,
            r.block_offset == block_offset,
    {
        Inode { block_id: block_id as usize, block_offset }
    }

    /// The inode's bytes lie on a device of `len` blocks.
    pub open spec fn fits(&self, len: nat) -> bool {
        &&& self.block_id < len
        &&& self.block_offset + INODE_SIZE <= BLOCK_SIZE
    }

    /// The inode's bytes in `view`.
    pub open spec fn bytes(&self, view: Seq<Seq<u8>>) -> Seq<u8> {
        view[self.block_id as int].subrange(self.block_offset as int, self.block_offset + INODE_SIZE)
    }

    /// `view` with the inode's bytes replaced by those of `ino`.
    pub open spec fn with_disk(&self, view: Seq<Seq<u8>>, ino: DiskInode) -> Seq<Seq<u8>> {
        view.update(self.block_id as int, splice(view[self.block_id as int], self.block_offset as int, ino.spec_to_bytes()))
    }

    /// Reads the inode.
    fn disk<D: BlockDevice>(&self, fs: &mut EasyFileSystem<D>) -> (r: DiskInode)
        requires
            old(fs).wf(),
            self.fits(old(fs).blocks().len()),
        ensures
            final(fs).wf(),
            final(fs).same_layout(*old(fs)),
            final(fs).blocks() == old(fs).blocks(),
            r.decodes_from(self.bytes(old(fs).blocks())),
    {
        proof { fs.cache.lemma_wf_view(); }
        let bytes = fs.cache.read(self.block_id, self.block_offset, INODE_SIZE);
        DiskInode::from_bytes(bytes.as_slice())
    }

    /// Writes `ino` over the inode.
    fn set_disk<D: BlockDevice>(&self, fs: &mut EasyFileSystem<D>, ino: &DiskInode)
        requires
            old(fs).wf(),
            self.fits(old(fs).blocks().len()),
        ensures
            final(fs).wf(),
            final(fs).same_layout(*old(fs)),
            final(fs).blocks() == self.with_disk(old(fs).blocks(), *ino),
    {
        let bytes = ino.to_bytes();
        fs.cache.write(self.block_id, self.block_offset, bytes.as_slice());
    }
}


/// Reads entry `k` of the directory `ino`.
fn read_entry<D: BlockDevice>(ino: &DiskInode, k: usize, fs: &mut EasyFileSystem<D>) -> (r: DirEntry)
    requires
        old(fs).wf(),
        dir_ok(*ino, old(fs).blocks()),
        k < ino.size / 32,
    ensures
        final(fs).wf(),
        final(fs).same_layout(*old(fs)),
        final(fs).blocks() == old(fs).blocks(),
        r.raw_name() == dir_entry_at(*ino, old(fs).blocks(), k as int).subrange(0, 28),
        r.spec_inode_id() == entry_id(dir_entry_at(*ino, old(fs).blocks(), k as int)),
{
    let mut buf = [0u8; 32];
    let offset = k * DirEntry::SIZE;
    proof {
        assert(offset + 32 <= ino.size);
        assert(offset / 512 < spec_count_data_block(ino.size)) by (nonlinear_arith)
            requires
                offset + 32 <= ino.size,
        ;
    }
    let n = ino.read_at(offset, &mut buf, &mut fs.cache);
    proof {
        assert(n == 32);
        assert(buf@ =~= dir_entry_at(*ino, old(fs).blocks(), k as int));
    }
    DirEntry::from_bytes(buf.as_slice())
}

/// Looks `name` up in the directory `ino`.
fn get<D: BlockDevice>(ino: &DiskInode, name: &str, fs: &mut EasyFileSystem<D>) -> (r: Option<u32>)
    requires
        old(fs).wf(),
        dir_ok(*ino, old(fs).blocks()),
    ensures
        final(fs).wf(),
        final(fs).same_layout(*old(fs)),
        final(fs).blocks() == old(fs).blocks(),
        is_lookup(*ino, old(fs).blocks(), name.spec_bytes(), r),
{
    let ghost view = fs.blocks();
    let n = ino.size as usize / DirEntry::SIZE;
    let nb = name.as_bytes();
    let mut k: usize = 0;
    while k < n
        invariant
            fs.wf(),
            fs.same_layout(*old(fs)),
            fs.blocks() == view,
            view == old(fs).blocks(),
            dir_ok(*ino, view),
            n == ino.size / 32,
            nb@ == name.spec_bytes(),
            k <= n,
            forall|j: int| 0 <= j < k ==> !#[trigger] names_at(*ino, view, j, nb@),
        decreases n - k,
    {
        let e = read_entry(ino, k, fs);
        if crate::layout::same_bytes(e.name_bytes(), nb) {
            proof {
                assert(names_at(*ino, view, k as int, nb@));
            }
            return Some(e.inode_id());
        }
        k = k + 1;
    }
    None
}

impl<D: BlockDevice> EasyFileSystem<D> {
    /// The root directory: inode 0.
    pub fn root_inode(&self) -> (r: Inode)
        requires
            self.inode_area_start_block <= u32::MAX,
        ensures
            r.block_id == self.spec_inode_pos(0).0,
            r.block_offset == self.spec_inode_pos(0).1,
    {
        let (block_id, block_offset) = self.disk_inode_pos(0);
        Inode::new(block_id, block_offset)
    }
}

impl Inode {
    /// The inode holds the directory `ino` on disk.
    pub open spec fn holds<D: BlockDevice>(&self, fs: EasyFileSystem<D>, ino: DiskInode) -> bool {
        ino.decodes_from(self.bytes(fs.blocks()))
    }

    /// Looking `name` up in this directory on `fs` answers `r`: the inode
    /// whose number the directory's first entry named `name` holds.
    pub open spec fn finds<D: BlockDevice>(&self, fs: EasyFileSystem<D>, name: Seq<u8>, r: Option<Inode>) -> bool {
        exists|ino: DiskInode, id: Option<u32>| {
            &&& #[trigger] self.holds(fs, ino)
            &&& #[trigger] is_lookup(ino, fs.blocks(), name, id)
            &&& match id {
                None => r is None,
                Some(id) => r == Some(Inode {
                    block_id: (fs.spec_inode_pos(id).0 as u32) as usize,
                    block_offset: fs.spec_inode_pos(id).1 as usize,
                }),
            }
        }
    }

    /// The inode that entry `name` of this directory names: the inode
    /// whose number the directory's first entry named `name` holds.
    pub fn find<D: BlockDevice>(&self, name: &str, fs: &mut EasyFileSystem<D>) -> (r: Option<Inode>)
        requires
            old(fs).wf(),
            self.fits(old(fs).blocks().len()),
            forall|ino: DiskInode| #[trigger] self.holds(*old(fs), ino) ==> dir_ok(ino, old(fs).blocks()),
        ensures
            final(fs).wf(),
            final(fs).same_layout(*old(fs)),
            final(fs).blocks() == old(fs).blocks(),
            self.finds(*old(fs), name.spec_bytes(), r),
    {
        let ino = self.disk(fs);
        proof { assert(self.holds(*old(fs), ino)); }
        let id = get(&ino, name, fs);
        proof { assert(is_lookup(ino, old(fs).blocks(), name.spec_bytes(), id)); }
        let r = match id {
            None => None,
            Some(id) => {
                let (block_id, block_offset) = fs.disk_inode_pos_any(id);
                Some(Inode::new(block_id, block_offset))
            },
        };
        proof { assert(self.finds(*old(fs), name.spec_bytes(), r)); }
        r
    }

    /// Reads the file from byte `offset` into `buf`, up to its end; answers
    /// the bytes read.
    pub fn read_at<D: BlockDevice>(&self, offset: usize, buf: &mut [u8], fs: &mut EasyFileSystem<D>) -> (r: usize)
        requires
            old(fs).wf(),
            self.fits(old(fs).blocks().len()),
            offset + old(buf)@.len() <= usize::MAX,
            forall|ino: DiskInode| #[trigger] self.holds(*old(fs), ino) ==> {
                let end = ino.io_end(offset as int, old(buf)@.len() as int);
                offset <= end ==> forall|i: int| DiskInode::touched(offset as int, end, i) ==> #[trigger] ino.readable(old(fs).blocks(), i)
            },
        ensures
            final(fs).wf(),
            final(fs).same_layout(*old(fs)),
            final(fs).blocks() == old(fs).blocks(),
            final(buf)@.len() == old(buf)@.len(),
            self.read_into(*old(fs), offset as int, old(buf)@, final(buf)@, r as int),
    {
        let ino = self.disk(fs);
        proof {
            assert(self.holds(*old(fs), ino));
        }
        let r = ino.read_at(offset, buf, &mut fs.cache);
        proof { assert(self.read_into(*old(fs), offset as int, old(buf)@, buf@, r as int)); }
        r
    }

    /// The inode's number, kind and links.
    pub fn stat<D: BlockDevice>(&self, fs: &mut EasyFileSystem<D>) -> (r: Stat)
        requires
            old(fs).wf(),
            self.fits(old(fs).blocks().len()),
        ensures
            final(fs).wf(),
            final(fs).same_layout(*old(fs)),
            final(fs).blocks() == old(fs).blocks(),
            exists|ino: DiskInode| {
                &&& #[trigger] self.holds(*old(fs), ino)
                &&& r.dev == 0
                &&& r.inode == ino.id
                &&& r.kind == stat_kind(ino.kind)
                &&& r.links == ino.links
            },
    {
        let ino = self.disk(fs);
        proof { assert(self.holds(*old(fs), ino)); }
        Stat::new(ino.id as u64, StatKind::from(ino.kind), ino.links)
    }
}

/// A file reads the same from two views that agree on the blocks of its tree.
pub proof fn lemma_file_frame(ino: DiskInode, v: Seq<Seq<u8>>, v2: Seq<Seq<u8>>)
    requires
        ino.tree_wf(v, spec_count_data_block(ino.size)),
        v2.len() == v.len(),
        forall|k: int| 0 <= k < ino.blocks(v).len() ==> #[trigger] v2[ino.blocks(v)[k] as int] == v[ino.blocks(v)[k] as int],
    ensures
        ino.blocks(v2) == ino.blocks(v),
        ino.tree_wf(v2, spec_count_data_block(ino.size)),
        forall|i: int| 0 <= i < spec_count_data_block(ino.size) ==> #[trigger] ino.spec_block_id(v2, i) == ino.spec_block_id(v, i),
        forall|i: int| 0 <= i < spec_count_data_block(ino.size) ==> #[trigger] ino.readable(v2, i),
        forall|p: int| 0 <= p < ino.size ==> #[trigger] ino.file_byte(v2, p) == ino.file_byte(v, p),
{
    let n = spec_count_data_block(ino.size);
    let blocks = ino.alloc_order(v, n);
    ino.lemma_alloc_positions(v, n);
    ino.lemma_tree_distinct(v, n);
    assert forall|k: int| 0 <= k < ino.alloc_order(v, n).len() implies #[trigger] v2[ino.alloc_order(v, n)[k] as int] == v[ino.alloc_order(v, n)[k] as int] by {
        assert(ino.blocks(v)[k] == ino.alloc_order(v, n)[k]);
    }
    ino.lemma_same_blocks_index(v, v2, n);
    ino.lemma_same_index(v, v2, n);
    assert forall|p: int| 0 <= p < ino.size implies #[trigger] ino.file_byte(v2, p) == ino.file_byte(v, p) by {
        let i = p / 512;
        assert(i < n) by (nonlinear_arith)
            requires
                0 <= p < ino.size,
                i == p / 512,
                n == (ino.size + 511) / 512,
        ;
        assert(ino.blocks(v)[crate::easy_fs::inode::pos_data(i)] == ino.spec_block_id(v, i));
    }
}

/// Setting an entry of a bitmap writes only the bitmap's blocks.
proof fn lemma_bit_frame(bm: Bitmap, view: Seq<Seq<u8>>, k: int)
    requires
        0 <= k < bm.spec_capacity(),
        bm.start() + bm.block_count() <= view.len(),
    ensures
        bm.with_bit_set(view, k).len() == view.len(),
        forall|b: int| 0 <= b < view.len() && !(bm.start() <= b < bm.start() + bm.block_count())
            ==> #[trigger] bm.with_bit_set(view, k)[b] == view[b],
{
    vstd::arithmetic::div_mod::lemma_div_is_ordered(k, bm.spec_capacity() as int, crate::BLOCK_BITS as int);
    vstd::arithmetic::div_mod::lemma_div_by_multiple(bm.block_count() as int, crate::BLOCK_BITS as int);
}

/// A bitmap reads the same from views that agree on the blocks before `start`,
/// where the bitmap lies.
proof fn lemma_bitmap_untouched(bm: Bitmap, v1: Seq<Seq<u8>>, v2: Seq<Seq<u8>>, j: int, start: int)
    requires
        0 <= j < bm.spec_capacity(),
        bm.start() + bm.block_count() <= start <= v1.len(),
        v2.len() == v1.len(),
        forall|b: int| 0 <= b < v1.len() && b < start ==> #[trigger] v2[b] == v1[b],
    ensures
        bm.is_set(v2, j) == bm.is_set(v1, j),
{
    vstd::arithmetic::div_mod::lemma_div_is_ordered(j, bm.spec_capacity() as int, crate::BLOCK_BITS as int);
    vstd::arithmetic::div_mod::lemma_div_by_multiple(bm.block_count() as int, crate::BLOCK_BITS as int);
    let blk = bm.start() + j / (crate::BLOCK_BITS as int);
    assert(v2[blk] == v1[blk]);
}

/// Counts of free entries agree between views that agree on every entry.
proof fn lemma_count_same(bm: Bitmap, v: Seq<Seq<u8>>, v2: Seq<Seq<u8>>, n: int)
    requires
        forall|j: int| 0 <= j < n ==> #[trigger] bm.is_set(v2, j) == bm.is_set(v, j),
    ensures
        count_free(bm, v2, n) == count_free(bm, v, n),
    decreases n,
{
    if n > 0 {
        lemma_count_same(bm, v, v2, n - 1);
    }
}

/// How many of the first `n` entries of `bm` are free in `view`.
pub open spec fn count_free(bm: Bitmap, view: Seq<Seq<u8>>, n: int) -> nat
    decreases n,
{
    if n <= 0 {
        0
    } else {
        count_free(bm, view, n - 1) + if bm.is_set(view, n - 1) { 0nat } else { 1nat }
    }
}

/// A bitmap with a free entry among its first `n` has a free entry there.
proof fn lemma_some_free(bm: Bitmap, view: Seq<Seq<u8>>, n: int)
    requires
        count_free(bm, view, n) > 0,
    ensures
        exists|k: int| 0 <= k < n && !#[trigger] bm.is_set(view, k),
    decreases n,
{
    if n > 0 && bm.is_set(view, n - 1) {
        lemma_some_free(bm, view, n - 1);
    }
}

/// Setting one free entry takes one from the count of free entries.
proof fn lemma_count_set(bm: Bitmap, view: Seq<Seq<u8>>, view2: Seq<Seq<u8>>, k: int, n: int)
    requires
        !bm.is_set(view, k),
        bm.is_set(view2, k),
        forall|j: int| 0 <= j < n && j != k ==> #[trigger] bm.is_set(view2, j) == bm.is_set(view, j),
        0 <= k,
    ensures
        count_free(bm, view2, n) + (if k < n { 1nat } else { 0nat }) == count_free(bm, view, n),
    decreases n,
{
    if n > 0 {
        lemma_count_set(bm, view, view2, k, n - 1);
    }
}

impl<D: BlockDevice> EasyFileSystem<D> {
    /// The data area lies on the device, after the bitmaps and the inode area.
    pub open spec fn sound(&self) -> bool {
        &&& self.data_area_start_block + self.data_area_blocks <= self.blocks().len()
        &&& self.inode_bitmap.start() + self.inode_bitmap.block_count() <= self.data_bitmap.start()
    }

    /// Block `b` holds part of the inode bitmap.
    pub open spec fn in_inode_bitmap(&self, b: int) -> bool {
        self.inode_bitmap.start() <= b < self.inode_bitmap.start() + self.inode_bitmap.block_count()
    }

    /// Inode `k` is the first free one.
    pub open spec fn first_free_inode(&self, k: int) -> bool {
        &&& 0 <= k < self.inode_bitmap.spec_capacity()
        &&& !self.inode_bitmap.is_set(self.blocks(), k)
        &&& forall|j: int| 0 <= j < k ==> #[trigger] self.inode_bitmap.is_set(self.blocks(), j)
    }

    /// Every block of the file `ino` lies in the data area and is marked used.
    pub open spec fn owns(&self, ino: DiskInode) -> bool {
        forall|k: int| 0 <= k < ino.blocks(self.blocks()).len() ==> {
            let b = #[trigger] ino.blocks(self.blocks())[k];
            &&& self.data_area_start_block <= b
            &&& b - self.data_area_start_block < self.data_area_blocks
            &&& self.data_bitmap.is_set(self.blocks(), b - self.data_area_start_block)
        }
    }

    /// Takes `n` data blocks, the lowest free first.
    fn alloc_blocks(&mut self, n: usize) -> (r: Vec<u32>)
        requires
            old(self).wf(),
            old(self).sound(),
            count_free(old(self).data_bitmap, old(self).blocks(), old(self).data_area_blocks as int) >= n,
        ensures
            final(self).wf(),
            final(self).sound(),
            final(self).same_layout(*old(self)),
            final(self).blocks().len() == old(self).blocks().len(),
            r@.len() == n,
            all_distinct(r@),
            forall|k: int| 0 <= k < n ==> {
                &&& old(self).data_area_start_block <= #[trigger] r@[k]
                &&& r@[k] - old(self).data_area_start_block < old(self).data_area_blocks
                &&& !old(self).data_bitmap.is_set(old(self).blocks(), r@[k] - old(self).data_area_start_block)
                &&& final(self).data_bitmap.is_set(final(self).blocks(), r@[k] - old(self).data_area_start_block)
            },
            forall|j: int| 0 <= j < old(self).data_bitmap.spec_capacity() && old(self).data_bitmap.is_set(old(self).blocks(), j)
                ==> #[trigger] final(self).data_bitmap.is_set(final(self).blocks(), j),
            count_free(final(self).data_bitmap, final(self).blocks(), final(self).data_area_blocks as int) + n
                == count_free(old(self).data_bitmap, old(self).blocks(), old(self).data_area_blocks as int),
            forall|b: int| 0 <= b < old(self).blocks().len() && !old(self).in_data_bitmap(b)
                ==> #[trigger] final(self).blocks()[b] == old(self).blocks()[b],
    {
        let ghost v0 = self.blocks();
        let ghost cap = self.data_area_blocks as int;
        let ghost start = self.data_area_start_block as int;
        let mut r: Vec<u32> = Vec::new();
        let mut i: usize = 0;
        while i < n
            invariant
                self.wf(),
                self.sound(),
                self.same_layout(*old(self)),
                v0 == old(self).blocks(),
                cap == self.data_area_blocks,
                start == self.data_area_start_block,
                self.blocks().len() == v0.len(),
                i <= n,
                count_free(old(self).data_bitmap, v0, cap) >= n,
                r@.len() == i,
                all_distinct(r@),
                forall|k: int| 0 <= k < i ==> {
                    &&& start <= #[trigger] r@[k]
                    &&& r@[k] - start < cap
                    &&& !old(self).data_bitmap.is_set(v0, r@[k] - start)
                    &&& self.data_bitmap.is_set(self.blocks(), r@[k] - start)
                },
                forall|j: int| 0 <= j < old(self).data_bitmap.spec_capacity() && old(self).data_bitmap.is_set(v0, j) ==> #[trigger] self.data_bitmap.is_set(self.blocks(), j),
                count_free(self.data_bitmap, self.blocks(), cap) + i == count_free(old(self).data_bitmap, v0, cap),
                forall|b: int| 0 <= b < v0.len() && !old(self).in_data_bitmap(b) ==> #[trigger] self.blocks()[b] == v0[b],
            decreases n - i,
        {
            proof { lemma_some_free(self.data_bitmap, self.blocks(), cap); }
            let ghost before = self.blocks();
            let b = self.alloc_data();
            proof {
                let k = b - start;
                lemma_count_set(self.data_bitmap, before, self.blocks(), k, cap);
                lemma_bit_frame(self.data_bitmap, before, k);
                assert forall|q: int| 0 <= q < i implies #[trigger] r@[q] != b by {
                    assert(self.data_bitmap.is_set(before, r@[q] - start));
                }
                assert(!old(self).data_bitmap.is_set(v0, k));
            }
            let ghost before_r = r@;
            r.push(b);
            proof {
                assert forall|x: int, y: int| 0 <= x < y < r@.len() implies #[trigger] r@[x] != #[trigger] r@[y] by {
                    if y == i {
                        assert(r@[x] == before_r[x]);
                    } else {
                        assert(r@[x] == before_r[x]);
                        assert(r@[y] == before_r[y]);
                    }
                }
                assert forall|k: int| 0 <= k < i + 1 implies {
                    &&& start <= #[trigger] r@[k]
                    &&& r@[k] - start < cap
                    &&& !old(self).data_bitmap.is_set(v0, r@[k] - start)
                    &&& self.data_bitmap.is_set(self.blocks(), r@[k] - start)
                } by {
                    if k < i {
                        assert(r@[k] == before_r[k]);
                    }
                }
            }
            i = i + 1;
        }
        r
    }

    /// Block `b` holds part of the data bitmap.
    pub open spec fn in_data_bitmap(&self, b: int) -> bool {
        self.data_bitmap.start() <= b < self.data_bitmap.start() + self.data_bitmap.block_count()
    }
}

impl<D: BlockDevice> EasyFileSystem<D> {
    /// Grows the file `ino` to `larger_size` bytes, taking the blocks it
    /// needs, lowest free first, from the data area.
    #[verifier::rlimit(50)]
    fn grow(&mut self, ino: &mut DiskInode, larger_size: u32)
        requires
            old(self).wf(),
            old(self).sound(),
            old(ino).size < larger_size,
            spec_count_data_block(larger_size) <= INDIRECT3_CAP,
            old(ino).tree_wf(old(self).blocks(), spec_count_data_block(old(ino).size)),
            old(self).owns(*old(ino)),
            count_free(old(self).data_bitmap, old(self).blocks(), old(self).data_area_blocks as int)
                >= grow_needed(old(ino).size, larger_size),
        ensures
            final(self).wf(),
            final(self).sound(),
            final(self).same_layout(*old(self)),
            final(self).blocks().len() == old(self).blocks().len(),
            final(ino).size == larger_size,
            final(ino).id == old(ino).id,
            final(ino).links == old(ino).links,
            final(ino).kind == old(ino).kind,
            final(ino).tree_wf(final(self).blocks(), spec_count_data_block(larger_size)),
            final(self).owns(*final(ino)),
            forall|p: int| 0 <= p < old(ino).size ==> #[trigger] final(ino).file_byte(final(self).blocks(), p)
                == old(ino).file_byte(old(self).blocks(), p),
            count_free(final(self).data_bitmap, final(self).blocks(), final(self).data_area_blocks as int)
                + grow_needed(old(ino).size, larger_size)
                == count_free(old(self).data_bitmap, old(self).blocks(), old(self).data_area_blocks as int),
            forall|b: int| 0 <= b < old(self).data_area_start_block && !old(self).in_data_bitmap(b)
                ==> #[trigger] final(self).blocks()[b] == old(self).blocks()[b],
            forall|b: int| 0 <= b < old(self).blocks().len() && !old(self).in_data_bitmap(b)
                && (forall|k: int| 0 <= k < final(ino).blocks(final(self).blocks()).len() ==> #[trigger] final(ino).blocks(final(self).blocks())[k] != b)
                ==> #[trigger] final(self).blocks()[b] == old(self).blocks()[b],
    {
        let ghost v0 = self.blocks();
        let ghost ino0 = *ino;
        let needed = DiskInode::count_total_block(larger_size) - DiskInode::count_total_block(ino.size);
        proof {
            crate::easy_fs::inode::lemma_total_mono(spec_count_data_block(ino0.size) as int, spec_count_data_block(larger_size) as int);
            assert(spec_count_data_block(ino0.size) <= spec_count_data_block(larger_size)) by (nonlinear_arith)
                requires
                    ino0.size < larger_size,
            ;
        }
        let new_blocks = self.alloc_blocks(needed);
        let ghost v1 = self.blocks();
        let ghost start = self.data_area_start_block as int;
        proof {
            assert forall|k: int| 0 <= k < ino0.blocks(v0).len() implies #[trigger] v1[ino0.blocks(v0)[k] as int] == v0[ino0.blocks(v0)[k] as int] by {
                assert(start <= ino0.blocks(v0)[k]);
            }
            lemma_file_frame(ino0, v0, v1);
            let all = ino0.blocks(v1) + new_blocks@.subrange(0, needed as int);
            assert(new_blocks@.subrange(0, needed as int) =~= new_blocks@);
            assert forall|k: int, l: int| 0 <= k < l < all.len() implies #[trigger] all[k] != #[trigger] all[l] by {
                let nb = ino0.blocks(v0).len() as int;
                if l < nb {
                } else if k < nb {
                    assert(self.data_bitmap.is_set(v0, all[k] - start));
                    assert(all[l] == new_blocks@[l - nb]);
                } else {
                    assert(all[k] == new_blocks@[k - nb]);
                    assert(all[l] == new_blocks@[l - nb]);
                }
            }
            assert forall|k: int| 0 <= k < all.len() implies (#[trigger] all[k]) < v1.len() by {
                let nb = ino0.blocks(v0).len() as int;
                if k >= nb {
                    assert(all[k] == new_blocks@[k - nb]);
                }
            }
            self.cache.lemma_wf_view();
        }
        ino.expand_to(larger_size, new_blocks, &mut self.cache);
        proof {
            let v2 = self.blocks();
            let nb = ino0.blocks(v0).len() as int;
            let all = ino0.blocks(v1) + new_blocks@.subrange(0, needed as int);
            assert forall|b: int| 0 <= b < v0.len() && b < start implies #[trigger] v2[b] == v1[b] by {
                assert forall|k: int| 0 <= k < all.len() implies (#[trigger] all[k]) != b by {
                    if k < nb {
                        assert(start <= ino0.blocks(v0)[k]);
                    } else {
                        assert(all[k] == new_blocks@[k - nb]);
                    }
                }
            }
            assert forall|j: int| 0 <= j < self.data_bitmap.spec_capacity() implies
                #[trigger] self.data_bitmap.is_set(v2, j) == self.data_bitmap.is_set(v1, j) by {
                lemma_bitmap_untouched(self.data_bitmap, v1, v2, j, start);
            }
            assert forall|k: int| 0 <= k < ino.blocks(v2).len() implies {
                let b = #[trigger] ino.blocks(v2)[k];
                &&& start <= b
                &&& b - start < self.data_area_blocks
                &&& self.data_bitmap.is_set(v2, b - start)
            } by {
                assert(ino.blocks(v2)[k] == all[k]);
                if k < nb {
                    assert(ino0.blocks(v1)[k] == ino0.blocks(v0)[k]);
                } else {
                    assert(all[k] == new_blocks@[k - nb]);
                }
            }
            lemma_count_same(self.data_bitmap, v1, v2, self.data_area_blocks as int);
            assert forall|b: int| 0 <= b < v0.len() && !self.in_data_bitmap(b)
                && (forall|k: int| 0 <= k < ino.blocks(v2).len() ==> #[trigger] ino.blocks(v2)[k] != b)
                implies #[trigger] v2[b] == v0[b] by {
                assert forall|k: int| 0 <= k < all.len() implies (#[trigger] all[k]) != b by {
                    assert(ino.blocks(v2)[k] == all[k]);
                }
            }
        }
    }
}

impl Inode {
    /// What [`Inode::read_at`] did, reading the file on `fs` from byte
    /// `offset` into a buffer that held `buf` and now holds `buf2`: it read
    /// `r` bytes, up to the end of the file, and left the rest of the buffer.
    pub open spec fn read_into<D: BlockDevice>(&self, fs: EasyFileSystem<D>, offset: int, buf: Seq<u8>, buf2: Seq<u8>, r: int) -> bool {
        exists|ino: DiskInode| {
            &&& #[trigger] self.holds(fs, ino)
            &&& r == if offset > ino.io_end(offset, buf.len() as int) { 0 } else { ino.io_end(offset, buf.len() as int) - offset }
            &&& forall|p: int| 0 <= p < r ==> #[trigger] buf2[p] == ino.file_byte(fs.blocks(), offset + p)
            &&& forall|p: int| r <= p < buf.len() ==> #[trigger] buf2[p] == buf[p]
        }
    }

    /// What [`Inode::write_at`] did, from `before` to `after`, writing
    /// `data` at byte `offset`: the file, `ino` before and `ino2` after, now
    /// ends where the write ends, holds `data` there and its old bytes
    /// before `offset`.
    pub open spec fn written_with<D: BlockDevice>(
        &self,
        before: EasyFileSystem<D>,
        after: EasyFileSystem<D>,
        offset: int,
        data: Seq<u8>,
        ino: DiskInode,
        ino2: DiskInode,
    ) -> bool {
        &&& self.holds(before, ino)
        &&& self.holds(after, ino2)
        &&& ino2.size == offset + data.len()
        &&& ino2.id == ino.id
        &&& ino2.links == ino.links
        &&& ino2.kind == ino.kind
        &&& file_ok(ino2, after.blocks())
        &&& after.owns(ino2)
        &&& forall|p: int| 0 <= p < data.len() ==> #[trigger] ino2.file_byte(after.blocks(), offset + p) == data[p]
        &&& forall|p: int| 0 <= p < offset && p < ino.size ==> #[trigger] ino2.file_byte(after.blocks(), p)
            == ino.file_byte(before.blocks(), p)
        &&& forall|b: int| 0 <= b < before.blocks().len() && !before.in_data_bitmap(b) && b != self.block_id
            && (forall|k: int| 0 <= k < ino2.blocks(after.blocks()).len() ==> #[trigger] ino2.blocks(after.blocks())[k] != b)
            ==> #[trigger] after.blocks()[b] == before.blocks()[b]
    }

    /// Some file before and after witness [`Inode::written_with`].
    pub open spec fn written<D: BlockDevice>(&self, before: EasyFileSystem<D>, after: EasyFileSystem<D>, offset: int, data: Seq<u8>) -> bool {
        exists|ino: DiskInode, ino2: DiskInode| #[trigger] self.written_with(before, after, offset, data, ino, ino2)
    }
}

impl Inode {
    /// The inode's block lies before the data area and outside the data bitmap.
    pub open spec fn in_inode_area<D: BlockDevice>(&self, fs: EasyFileSystem<D>) -> bool {
        &&& self.fits(fs.blocks().len())
        &&& self.block_id < fs.data_area_start_block
        &&& !fs.in_data_bitmap(self.block_id as int)
    }

    /// What a write of `len` bytes at `offset` needs of the file `ino`: it
    /// grows the file, within the sizes this layout serves, and enough data
    /// blocks are free.
    pub open spec fn can_write<D: BlockDevice>(fs: EasyFileSystem<D>, ino: DiskInode, offset: int, len: int) -> bool {
        &&& ino.size < offset + len
        &&& spec_count_data_block((offset + len) as u32) <= INDIRECT3_CAP
        &&& file_ok(ino, fs.blocks())
        &&& fs.owns(ino)
        &&& count_free(fs.data_bitmap, fs.blocks(), fs.data_area_blocks as int) >= grow_needed(ino.size, (offset + len) as u32)
    }

    /// Writes `buf` at byte `offset` of the file, which grows to end where
    /// the write ends; then writes every cached block back. Answers the bytes written.
    pub fn write_at<D: BlockDevice>(&self, offset: usize, buf: &[u8], fs: &mut EasyFileSystem<D>) -> (r: usize)
        requires
            old(fs).wf(),
            old(fs).sound(),
            self.in_inode_area(*old(fs)),
            offset + buf@.len() <= u32::MAX,
            forall|ino: DiskInode| #[trigger] self.holds(*old(fs), ino) ==> Self::can_write(*old(fs), ino, offset as int, buf@.len() as int),
        ensures
            final(fs).wf(),
            final(fs).sound(),
            final(fs).same_layout(*old(fs)),
            final(fs).cache.device_blocks() == final(fs).blocks(),
            r == buf@.len(),
            self.written(*old(fs), *final(fs), offset as int, buf@),
    {
        let mut ino = self.disk(fs);
        let ghost ino0 = ino;
        let ghost v0 = fs.blocks();
        proof { assert(self.holds(*old(fs), ino0)); }
        let larger = (offset + buf.len()) as u32;
        fs.grow(&mut ino, larger);
        let ghost v1 = fs.blocks();
        let ghost fs1 = *fs;
        proof {
            ino.lemma_tree_distinct(v1, spec_count_data_block(larger));
            fs.cache.lemma_wf_view();
        }
        let n = ino.write_at(offset, buf, &mut fs.cache);
        let ghost v2 = fs.blocks();
        proof { fs.cache.lemma_wf_view(); }
        let ghost start = fs.data_area_start_block as int;
        proof {
            let nblk = spec_count_data_block(larger);
            assert(ino.tree_wf(v2, nblk));
            ino.lemma_tree_distinct(v2, nblk);
            ino.lemma_alloc_positions(v1, nblk);
            assert(fs1.blocks() == v1);
            assert(fs1.owns(ino));
            assert forall|j: int| 0 <= j < fs.data_bitmap.spec_capacity() implies
                #[trigger] fs.data_bitmap.is_set(v2, j) == fs.data_bitmap.is_set(v1, j) by {
                assert forall|b: int| 0 <= b < v1.len() && b < start implies #[trigger] v2[b] == v1[b] by {
                    assert forall|i: int| 0 <= i < nblk implies #[trigger] ino.spec_block_id(v1, i) != b by {
                        let k = crate::easy_fs::inode::pos_data(i);
                        assert(ino.blocks(v1)[k] == ino.spec_block_id(v1, i));
                        assert(k < ino.blocks(v1).len());
                        assert(start <= ino.blocks(fs1.blocks())[k]);
                    }
                }
                lemma_bitmap_untouched(fs.data_bitmap, v1, v2, j, start);
            }
        }
        self.set_disk(fs, &ino);
        let ghost v3 = fs.blocks();
        proof {
            let nblk = spec_count_data_block(larger);
            assert forall|k: int| 0 <= k < ino.blocks(v2).len() implies #[trigger] v3[ino.blocks(v2)[k] as int] == v2[ino.blocks(v2)[k] as int] by {
                assert(fs1.owns(ino));
                assert(start <= ino.blocks(fs1.blocks())[k]);
            }
            lemma_file_frame(ino, v2, v3);
            ino.lemma_bytes_roundtrip();
            assert(v2[self.block_id as int].len() == BLOCK_SIZE);
            assert(self.bytes(v3) =~= ino.spec_to_bytes());
            assert(self.holds(*fs, ino));
            assert forall|j: int| 0 <= j < fs.data_bitmap.spec_capacity() implies
                #[trigger] fs.data_bitmap.is_set(v3, j) == fs.data_bitmap.is_set(v2, j) by {
                vstd::arithmetic::div_mod::lemma_div_is_ordered(j, fs.data_bitmap.spec_capacity() as int, crate::BLOCK_BITS as int);
                vstd::arithmetic::div_mod::lemma_div_by_multiple(fs.data_bitmap.block_count() as int, crate::BLOCK_BITS as int);
                let blk = fs.data_bitmap.start() + j / (crate::BLOCK_BITS as int);
                assert(v3[blk] == v2[blk]);
            }
            assert forall|p: int| 0 <= p < offset && p < ino0.size implies #[trigger] ino.file_byte(v3, p)
                == ino0.file_byte(v0, p) by {
                assert(ino.file_byte(v2, p) == ino.file_byte(v1, p));
            }
            assert forall|p: int| 0 <= p < buf@.len() implies #[trigger] ino.file_byte(v3, offset + p) == buf@[p] by {
                assert(ino.file_byte(v2, offset + p) == buf@[p]);
            }
        }
        proof {
            let nblk = spec_count_data_block(larger);
            ino.lemma_alloc_positions(v1, nblk);
            assert forall|b: int| 0 <= b < v0.len() && !fs.in_data_bitmap(b) && b != self.block_id
                && (forall|k: int| 0 <= k < ino.blocks(v3).len() ==> #[trigger] ino.blocks(v3)[k] != b)
                implies #[trigger] v3[b] == v0[b] by {
                assert forall|i: int| 0 <= i < nblk implies #[trigger] ino.spec_block_id(v1, i) != b by {
                    let k = crate::easy_fs::inode::pos_data(i);
                    assert(ino.blocks(v1)[k] == ino.spec_block_id(v1, i));
                    assert(ino.blocks(v3)[k] != b);
                }
                assert(v2[b] == v1[b]);
                assert forall|k: int| 0 <= k < ino.blocks(v1).len() implies #[trigger] ino.blocks(v1)[k] != b by {
                    assert(ino.blocks(v3)[k] != b);
                }
                assert(v1[b] == v0[b]);
            }
        }
        sync_all(&mut fs.cache);
        proof {
            assert(self.holds(*old(fs), ino0));
            assert(self.holds(*fs, ino));
            assert(self.written_with(*old(fs), *fs, offset as int, buf@, ino0, ino));
        }
        n
    }
}

/// Finds the first slot of the directory `ino` whose entry has an empty
/// name; where there is none, grows the directory by one slot and answers
/// the new slot. Answers the slot's byte offset.
fn find_or_new_slot<D: BlockDevice>(ino: &mut DiskInode, fs: &mut EasyFileSystem<D>) -> (r: usize)
    requires
        old(fs).wf(),
        old(fs).sound(),
        dir_ok(*old(ino), old(fs).blocks()),
        old(fs).owns(*old(ino)),
        old(ino).size + 32 <= u32::MAX,
        spec_count_data_block((old(ino).size + 32) as u32) <= INDIRECT3_CAP,
        count_free(old(fs).data_bitmap, old(fs).blocks(), old(fs).data_area_blocks as int)
            >= grow_needed(old(ino).size, (old(ino).size + 32) as u32),
    ensures
        final(fs).wf(),
        final(fs).sound(),
        final(fs).same_layout(*old(fs)),
        final(fs).blocks().len() == old(fs).blocks().len(),
        final(ino).id == old(ino).id,
        final(ino).links == old(ino).links,
        final(ino).kind == old(ino).kind,
        dir_ok(*final(ino), final(fs).blocks()),
        final(fs).owns(*final(ino)),
        r % 32 == 0,
        r + 32 <= final(ino).size,
        forall|p: int| 0 <= p < old(ino).size ==> #[trigger] final(ino).file_byte(final(fs).blocks(), p)
            == old(ino).file_byte(old(fs).blocks(), p),
        forall|k: int| 0 <= k < r / 32 ==> entry_name(#[trigger] dir_entry_at(*old(ino), old(fs).blocks(), k)).len() != 0,
        r < old(ino).size ==> {
            &&& entry_name(dir_entry_at(*old(ino), old(fs).blocks(), (r / 32) as int)).len() == 0
            &&& *final(ino) == *old(ino)
            &&& final(fs).blocks() == old(fs).blocks()
        },
        r >= old(ino).size ==> r == old(ino).size && final(ino).size == old(ino).size + 32,
        forall|b: int| 0 <= b < old(fs).data_area_start_block && !old(fs).in_data_bitmap(b)
            ==> #[trigger] final(fs).blocks()[b] == old(fs).blocks()[b],
        forall|b: int| 0 <= b < old(fs).blocks().len() && !old(fs).in_data_bitmap(b)
            && (forall|k: int| 0 <= k < final(ino).blocks(final(fs).blocks()).len() ==> #[trigger] final(ino).blocks(final(fs).blocks())[k] != b)
            ==> #[trigger] final(fs).blocks()[b] == old(fs).blocks()[b],
{
    let ghost v0 = fs.blocks();
    let ghost ino0 = *ino;
    let n = ino.size as usize / DirEntry::SIZE;
    let mut k: usize = 0;
    while k < n
        invariant
            fs.wf(),
            fs.sound(),
            fs.same_layout(*old(fs)),
            fs.blocks() == v0,
            v0 == old(fs).blocks(),
            *ino == ino0,
            ino0 == *old(ino),
            dir_ok(ino0, v0),
            fs.owns(ino0),
            n == ino0.size / 32,
            k <= n,
            forall|j: int| 0 <= j < k ==> entry_name(#[trigger] dir_entry_at(ino0, v0, j)).len() != 0,
        decreases n - k,
    {
        let e = read_entry(ino, k, fs);
        if e.name_bytes().len() == 0 {
            proof {
                assert(e.spec_name() == entry_name(dir_entry_at(ino0, v0, k as int)));
            }
            return k * DirEntry::SIZE;
        }
        proof {
            assert(e.spec_name() == entry_name(dir_entry_at(ino0, v0, k as int)));
        }
        k = k + 1;
    }
    let size = ino.size;
    fs.grow(ino, size + 32);
    proof {
        ino.lemma_tree_distinct(fs.blocks(), spec_count_data_block(ino.size));
        assert((ino0.size + 32) % 32 == 0);
        assert(size as int / 32 * 32 == size as int);
    }
    size as usize
}

/// The name bytes of `name` padded with zeros read back as the name, when
/// the name has no zero byte.
proof fn lemma_padded_name(name: Seq<u8>)
    requires
        name.len() <= 28,
        forall|i: int| 0 <= i < name.len() ==> name[i] != 0,
    ensures
        name_prefix(crate::easy_fs::dir_entry::pad_zero(name, 28)) == name,
{
    let p = crate::easy_fs::dir_entry::pad_zero(name, 28);
    crate::easy_fs::dir_entry::lemma_name_prefix(p, name.len() as int);
    assert(p.subrange(0, name.len() as int) =~= name);
}

/// Writing over bytes `[a, a + x.len())` leaves bytes `[b, b + len)` alone
/// when the two ranges are apart.
proof fn lemma_splice_apart(s: Seq<u8>, a: int, x: Seq<u8>, b: int, len: int)
    requires
        0 <= a,
        a + x.len() <= s.len(),
        0 <= b,
        0 <= len,
        b + len <= s.len(),
        b + len <= a || a + x.len() <= b,
    ensures
        splice(s, a, x).subrange(b, b + len) == s.subrange(b, b + len),
        splice(s, a, x).len() == s.len(),
{
    assert(splice(s, a, x).subrange(b, b + len) =~= s.subrange(b, b + len));
}

/// A file owned by a volume stays owned, and reads the same, on a volume
/// that agrees with it on the data area and on the data bitmap.
proof fn lemma_owned_frame<D: BlockDevice>(a: EasyFileSystem<D>, b: EasyFileSystem<D>, ino: DiskInode)
    requires
        a.owns(ino),
        file_ok(ino, a.blocks()),
        b.blocks().len() == a.blocks().len(),
        b.data_area_start_block == a.data_area_start_block,
        b.data_area_blocks == a.data_area_blocks,
        a.data_area_blocks <= a.data_bitmap.spec_capacity(),
        b.data_bitmap == a.data_bitmap,
        forall|blk: int| 0 <= blk < a.blocks().len() && a.data_area_start_block <= blk ==> #[trigger] b.blocks()[blk] == a.blocks()[blk],
        forall|j: int| 0 <= j < a.data_bitmap.spec_capacity() ==> #[trigger] b.data_bitmap.is_set(b.blocks(), j) == a.data_bitmap.is_set(a.blocks(), j),
    ensures
        b.owns(ino),
        file_ok(ino, b.blocks()),
        ino.blocks(b.blocks()) == ino.blocks(a.blocks()),
        forall|p: int| 0 <= p < ino.size ==> #[trigger] ino.file_byte(b.blocks(), p) == ino.file_byte(a.blocks(), p),
{
    let v = a.blocks();
    let v2 = b.blocks();
    assert forall|k: int| 0 <= k < ino.blocks(v).len() implies #[trigger] v2[ino.blocks(v)[k] as int] == v[ino.blocks(v)[k] as int] by {
        assert(a.data_area_start_block <= ino.blocks(v)[k]);
        assert(ino.blocks(v)[k] < v.len());
    }
    lemma_file_frame(ino, v, v2);
    assert forall|k: int| 0 <= k < ino.blocks(v2).len() implies {
        let blk = #[trigger] ino.blocks(v2)[k];
        &&& b.data_area_start_block <= blk
        &&& blk - b.data_area_start_block < b.data_area_blocks
        &&& b.data_bitmap.is_set(v2, blk - b.data_area_start_block)
    } by {
        assert(ino.blocks(v2)[k] == ino.blocks(v)[k]);
    }
}

/// After recording `name` for inode `id` at entry `s` of a directory that
/// had no entry named `name`, looking `name` up finds `id`.
proof fn lemma_lookup_after(root0: DiskInode, v0: Seq<Seq<u8>>, v2: Seq<Seq<u8>>, root: DiskInode, v5: Seq<Seq<u8>>, name: Seq<u8>, s: int, id: u32)
    requires
        is_lookup(root0, v0, name, None),
        forall|p: int| 0 <= p < root0.size ==> #[trigger] root0.file_byte(v2, p) == root0.file_byte(v0, p),
        0 <= s,
        32 * s <= root0.size,
        32 * s + 32 <= root.size,
        forall|j: int| 0 <= j < s ==> #[trigger] dir_entry_at(root, v5, j) == dir_entry_at(root0, v2, j),
        entry_name(dir_entry_at(root, v5, s)) == name,
        entry_id(dir_entry_at(root, v5, s)) == id,
    ensures
        is_lookup(root, v5, name, Some(id)),
{
    assert(names_at(root, v5, s, name));
    assert forall|j: int| 0 <= j < s implies !#[trigger] names_at(root, v5, j, name) by {
        assert(dir_entry_at(root0, v2, j) =~= dir_entry_at(root0, v0, j)) by {
            assert forall|t: int| 0 <= t < 32 implies #[trigger] dir_entry_at(root0, v2, j)[t] == dir_entry_at(root0, v0, j)[t] by {
                assert(32 * j + t < root0.size);
            }
        }
        assert(!names_at(root0, v0, j, name));
    }
}

impl Inode {
    /// The new inode `k` can be written: its bytes lie in the inode area,
    /// outside the bitmaps, apart from this inode's bytes.
    pub open spec fn new_inode_ok<D: BlockDevice>(&self, fs: EasyFileSystem<D>, k: int) -> bool {
        let (b, off) = fs.spec_inode_pos(k as u32);
        &&& b < fs.data_area_start_block
        &&& b <= u32::MAX
        &&& !fs.in_data_bitmap(b)
        &&& !fs.in_inode_bitmap(b)
        &&& (b != self.block_id || off + INODE_SIZE <= self.block_offset || self.block_offset + INODE_SIZE <= off)
    }

    /// What [`Inode::create`] did, from `before` to `after`: `root` was this
    /// directory, without an entry named `name`; inode `k`, the first free,
    /// now holds `fresh`, an empty file, at `inode`; the directory, now
    /// `root2`, recorded `k` under `name` in its first entry with an empty
    /// name (or a new entry), keeping every other entry, and finds `k`
    /// under `name` when the name has no zero byte.
    pub open spec fn created<D: BlockDevice>(
        &self,
        before: EasyFileSystem<D>,
        after: EasyFileSystem<D>,
        inode: Inode,
        name: Seq<u8>,
        root: DiskInode,
        k: int,
        fresh: DiskInode,
        root2: DiskInode,
    ) -> bool {
        &&& after.same_layout(before)
        &&& self.holds(before, root)
        &&& is_lookup(root, before.blocks(), name, None)
        &&& before.first_free_inode(k)
        &&& inode.block_id <= u32::MAX
        &&& after.inode_bitmap.is_set(after.blocks(), k)
        &&& inode.block_id == before.spec_inode_pos(k as u32).0
        &&& inode.block_offset == before.spec_inode_pos(k as u32).1
        &&& inode.holds(after, fresh)
        &&& fresh.id == k && fresh.size == 0 && fresh.links == 1 && fresh.kind == DiskInodeKind::File
        &&& self.holds(after, root2)
        &&& root2.id == root.id && root2.links == root.links
        &&& dir_ok(root2, after.blocks())
        &&& after.owns(root2)
        &&& (forall|i: int| 0 <= i < name.len() ==> name[i] != 0) ==> is_lookup(root2, after.blocks(), name, Some(k as u32))
        &&& exists|e: int| #[trigger] placed_at(root, before.blocks(), root2, after.blocks(), k as u32, e, name)
        &&& forall|b: int| 0 <= b < before.blocks().len() && !before.in_inode_bitmap(b) && !before.in_data_bitmap(b)
            && b != inode.block_id && b != self.block_id
            && (forall|j: int| 0 <= j < root2.blocks(after.blocks()).len() ==> #[trigger] root2.blocks(after.blocks())[j] != b)
            ==> #[trigger] after.blocks()[b] == before.blocks()[b]
    }

    /// This directory has an entry named `name`.
    pub open spec fn has_name<D: BlockDevice>(&self, fs: EasyFileSystem<D>, name: Seq<u8>) -> bool {
        exists|root: DiskInode, id: u32| #[trigger] self.holds(fs, root) && #[trigger] is_lookup(root, fs.blocks(), name, Some(id))
    }

    /// Some directory, inode, new file and grown directory witness [`Inode::created`].
    pub open spec fn created_by<D: BlockDevice>(&self, before: EasyFileSystem<D>, after: EasyFileSystem<D>, inode: Inode, name: Seq<u8>) -> bool {
        exists|root: DiskInode, k: int, fresh: DiskInode, root2: DiskInode|
            #[trigger] self.created(before, after, inode, name, root, k, fresh, root2)
    }

    /// Takes the first free inode and writes a fresh file inode there.
    /// Answers its number, where it lies, and the inode written.
    #[verifier::rlimit(60)]
    #[verifier::spinoff_prover]
    fn add_inode<D: BlockDevice>(&self, fs: &mut EasyFileSystem<D>) -> (r: (u32, Inode, DiskInode))
        requires
            old(fs).wf(),
            old(fs).sound(),
            self.in_inode_area(*old(fs)),
            !old(fs).in_inode_bitmap(self.block_id as int),
            exists|k: int| 0 <= k < old(fs).inode_bitmap.spec_capacity() && !#[trigger] old(fs).inode_bitmap.is_set(old(fs).blocks(), k),
            forall|k: int| #[trigger] old(fs).first_free_inode(k) ==> self.new_inode_ok(*old(fs), k),
        ensures
            final(fs).wf(),
            final(fs).sound(),
            final(fs).same_layout(*old(fs)),
            final(fs).blocks().len() == old(fs).blocks().len(),
            old(fs).first_free_inode(r.0 as int),
            final(fs).inode_bitmap.is_set(final(fs).blocks(), r.0 as int),
            r.1.block_id == old(fs).spec_inode_pos(r.0).0,
            r.1.block_offset == old(fs).spec_inode_pos(r.0).1,
            self.new_inode_ok(*old(fs), r.0 as int),
            r.1.fits(final(fs).blocks().len()),
            r.1.holds(*final(fs), r.2),
            r.1.bytes(final(fs).blocks()) == r.2.spec_to_bytes(),
            r.2.id == r.0 && r.2.size == 0 && r.2.links == 1 && r.2.kind == DiskInodeKind::File,
            self.bytes(final(fs).blocks()) == self.bytes(old(fs).blocks()),
            forall|b: int| 0 <= b < old(fs).blocks().len() && old(fs).data_area_start_block <= b
                ==> #[trigger] final(fs).blocks()[b] == old(fs).blocks()[b],
            forall|b: int| 0 <= b < old(fs).blocks().len() && !old(fs).in_inode_bitmap(b) && b != r.1.block_id
                ==> #[trigger] final(fs).blocks()[b] == old(fs).blocks()[b],
            forall|j: int| 0 <= j < old(fs).data_bitmap.spec_capacity()
                ==> #[trigger] final(fs).data_bitmap.is_set(final(fs).blocks(), j) == old(fs).data_bitmap.is_set(old(fs).blocks(), j),
            count_free(final(fs).data_bitmap, final(fs).blocks(), final(fs).data_area_blocks as int)
                == count_free(old(fs).data_bitmap, old(fs).blocks(), old(fs).data_area_blocks as int),
    {
        let ghost v0 = fs.blocks();
        let ghost start = fs.data_area_start_block as int;
        let id = fs.alloc_inode();
        let ghost v1 = fs.blocks();
        proof {
            lemma_bit_frame(fs.inode_bitmap, v0, id as int);
            assert(old(fs).first_free_inode(id as int));
            assert(self.new_inode_ok(*old(fs), id as int));
        }
        let (blk, off) = fs.disk_inode_pos(id);
        let fresh = DiskInode::new(id, DiskInodeKind::File);
        let inode = Inode::new(blk, off);
        proof { fs.cache.lemma_wf_view(); }
        inode.set_disk(fs, &fresh);
        let ghost v2 = fs.blocks();
        proof {
            assert forall|b: int| 0 <= b < v0.len() && start <= b implies #[trigger] v2[b] == v0[b] by {}
            assert forall|j: int| 0 <= j < fs.data_bitmap.spec_capacity() implies
                #[trigger] fs.data_bitmap.is_set(v2, j) == fs.data_bitmap.is_set(v0, j) by {
                vstd::arithmetic::div_mod::lemma_div_is_ordered(j, fs.data_bitmap.spec_capacity() as int, crate::BLOCK_BITS as int);
                vstd::arithmetic::div_mod::lemma_div_by_multiple(fs.data_bitmap.block_count() as int, crate::BLOCK_BITS as int);
                let bb = fs.data_bitmap.start() + j / (crate::BLOCK_BITS as int);
                assert(v2[bb] == v0[bb]);
            }
            lemma_count_same(fs.data_bitmap, v0, v2, fs.data_area_blocks as int);
            fresh.lemma_bytes_roundtrip();
            assert(v1[blk as int].len() == BLOCK_SIZE);
            assert(inode.bytes(v2) =~= fresh.spec_to_bytes());
            assert(inode.holds(*fs, fresh));
            if blk as int == self.block_id as int {
                lemma_splice_apart(v1[blk as int], off as int, fresh.spec_to_bytes(), self.block_offset as int, INODE_SIZE as int);
            }
            assert(self.bytes(v2) == self.bytes(v1));
            assert(fs.inode_bitmap.is_set(v2, id as int)) by {
                vstd::arithmetic::div_mod::lemma_div_is_ordered(id as int, fs.inode_bitmap.spec_capacity() as int, crate::BLOCK_BITS as int);
                vstd::arithmetic::div_mod::lemma_div_by_multiple(fs.inode_bitmap.block_count() as int, crate::BLOCK_BITS as int);
                let bb = fs.inode_bitmap.start() + (id as int) / (crate::BLOCK_BITS as int);
                assert(v2[bb] == v1[bb]);
            }
        }
        (id, inode, fresh)
    }

    /// Records `name` for inode `id` in this directory, whose inode is
    /// `root`: in its first slot with an empty name or in a new slot, then
    /// writes `root` back.
    #[verifier::rlimit(80)]
    #[verifier::spinoff_prover]
    fn add_entry<D: BlockDevice>(&self, root: &mut DiskInode, name: &str, id: u32, fs: &mut EasyFileSystem<D>) -> (slot: usize)
        requires
            old(fs).wf(),
            old(fs).sound(),
            self.in_inode_area(*old(fs)),
            name.spec_bytes().len() <= crate::easy_fs::dir_entry::NAME_MAX_LEN,
            dir_ok(*old(root), old(fs).blocks()),
            old(fs).owns(*old(root)),
            old(root).size + 32 <= u32::MAX,
            spec_count_data_block((old(root).size + 32) as u32) <= INDIRECT3_CAP,
            count_free(old(fs).data_bitmap, old(fs).blocks(), old(fs).data_area_blocks as int)
                >= grow_needed(old(root).size, (old(root).size + 32) as u32),
        ensures
            final(fs).wf(),
            final(fs).sound(),
            final(fs).same_layout(*old(fs)),
            final(fs).blocks().len() == old(fs).blocks().len(),
            self.holds(*final(fs), *final(root)),
            final(root).id == old(root).id,
            final(root).links == old(root).links,
            final(root).kind == old(root).kind,
            dir_ok(*final(root), final(fs).blocks()),
            final(fs).owns(*final(root)),
            slot % 32 == 0,
            slot <= old(root).size,
            slot + 32 <= final(root).size,
            forall|j: int| 0 <= j < slot / 32 ==> #[trigger] dir_entry_at(*final(root), final(fs).blocks(), j)
                == dir_entry_at(*old(root), old(fs).blocks(), j),
            entry_id(dir_entry_at(*final(root), final(fs).blocks(), (slot / 32) as int)) == id,
            (forall|i: int| 0 <= i < name.spec_bytes().len() ==> name.spec_bytes()[i] != 0)
                ==> entry_name(dir_entry_at(*final(root), final(fs).blocks(), (slot / 32) as int)) == name.spec_bytes(),
            placed_at(*old(root), old(fs).blocks(), *final(root), final(fs).blocks(), id, (slot / 32) as int, name.spec_bytes()),
            forall|b: int| 0 <= b < old(fs).blocks().len() && b < old(fs).data_area_start_block && b != self.block_id
                && !old(fs).in_data_bitmap(b) ==> #[trigger] final(fs).blocks()[b] == old(fs).blocks()[b],
            final(fs).blocks()[self.block_id as int] == splice(old(fs).blocks()[self.block_id as int], self.block_offset as int, final(root).spec_to_bytes()),
            final(fs).inode_bitmap == old(fs).inode_bitmap,
            forall|b: int| 0 <= b < old(fs).blocks().len() && !old(fs).in_data_bitmap(b) && b != self.block_id
                && (forall|k: int| 0 <= k < final(root).blocks(final(fs).blocks()).len() ==> #[trigger] final(root).blocks(final(fs).blocks())[k] != b)
                ==> #[trigger] final(fs).blocks()[b] == old(fs).blocks()[b],
    {
        let ghost v0 = fs.blocks();
        let ghost root0 = *root;
        let ghost start = fs.data_area_start_block as int;
        let slot = find_or_new_slot(root, fs);
        let ghost v3 = fs.blocks();
        let entry = DirEntry::new(name, id);
        let bytes = entry.as_bytes();
        proof {
            root.lemma_tree_distinct(v3, spec_count_data_block(root.size));
            assert(slot / 512 < spec_count_data_block(root.size)) by (nonlinear_arith)
                requires
                    slot + 32 <= root.size,
            ;
            fs.cache.lemma_wf_view();
        }
        let ghost fs3 = *fs;
        let n = root.write_at(slot, bytes.as_slice(), &mut fs.cache);
        let ghost v4 = fs.blocks();
        proof {
            fs.cache.lemma_wf_view();
            let nblk = spec_count_data_block(root.size);
            root.lemma_tree_distinct(v4, nblk);
            root.lemma_alloc_positions(v3, nblk);
            assert(fs3.owns(*root));
            assert forall|b: int| 0 <= b < v3.len() && b < start implies #[trigger] v4[b] == v3[b] by {
                assert forall|i: int| 0 <= i < nblk implies #[trigger] root.spec_block_id(v3, i) != b by {
                    let kk = crate::easy_fs::inode::pos_data(i);
                    assert(root.blocks(v3)[kk] == root.spec_block_id(v3, i));
                    assert(start <= root.blocks(fs3.blocks())[kk]);
                }
            }
        }
        self.set_disk(fs, root);
        let ghost v5 = fs.blocks();
        proof {
            assert forall|k: int| 0 <= k < root.blocks(v4).len() implies #[trigger] v5[root.blocks(v4)[k] as int] == v4[root.blocks(v4)[k] as int] by {
                assert(start <= root.blocks(fs3.blocks())[k]);
            }
            lemma_file_frame(*root, v4, v5);
            root.lemma_bytes_roundtrip();
            assert(v4[self.block_id as int].len() == BLOCK_SIZE);
            assert(self.bytes(v5) =~= root.spec_to_bytes());
            assert forall|j: int| 0 <= j < fs.data_bitmap.spec_capacity() implies
                #[trigger] fs.data_bitmap.is_set(v5, j) == fs.data_bitmap.is_set(v3, j) by {
                vstd::arithmetic::div_mod::lemma_div_is_ordered(j, fs.data_bitmap.spec_capacity() as int, crate::BLOCK_BITS as int);
                vstd::arithmetic::div_mod::lemma_div_by_multiple(fs.data_bitmap.block_count() as int, crate::BLOCK_BITS as int);
                let bb = fs.data_bitmap.start() + j / (crate::BLOCK_BITS as int);
                assert(v5[bb] == v3[bb]);
            }
            assert(fs.owns(*root)) by {
                assert forall|k: int| 0 <= k < root.blocks(v5).len() implies {
                    let b = #[trigger] root.blocks(v5)[k];
                    &&& start <= b
                    &&& b - start < fs.data_area_blocks
                    &&& fs.data_bitmap.is_set(v5, b - start)
                } by {
                    assert(root.blocks(v5)[k] == root.blocks(fs3.blocks())[k]);
                }
            }
            let e = dir_entry_at(*root, v5, (slot / 32) as int);
            assert(e =~= bytes@) by {
                assert forall|j: int| 0 <= j < 32 implies #[trigger] e[j] == bytes@[j] by {
                    assert(32 * (slot / 32) + j == slot + j);
                    assert(root.file_byte(v4, slot + j) == bytes@[j]);
                }
            }
            assert(entry_id(e) == id) by {
                vstd::bytes::lemma_auto_spec_u32_to_from_le_bytes();
                assert(bytes@.subrange(28, 32) =~= vstd::bytes::spec_u32_to_le_bytes(id));
            }
            if forall|i: int| 0 <= i < name.spec_bytes().len() ==> name.spec_bytes()[i] != 0 {
                lemma_padded_name(name.spec_bytes());
                assert(e.subrange(0, 28) =~= crate::easy_fs::dir_entry::pad_zero(name.spec_bytes(), 28));
            }
            let nblk2 = spec_count_data_block(root.size);
            root.lemma_alloc_positions(v3, nblk2);
            assert forall|b: int| 0 <= b < v0.len() && !fs.in_data_bitmap(b) && b != self.block_id
                && (forall|k: int| 0 <= k < root.blocks(v5).len() ==> #[trigger] root.blocks(v5)[k] != b)
                implies #[trigger] v5[b] == v0[b] by {
                assert forall|i: int| 0 <= i < nblk2 implies #[trigger] root.spec_block_id(v3, i) != b by {
                    let kk = crate::easy_fs::inode::pos_data(i);
                    assert(root.blocks(v3)[kk] == root.spec_block_id(v3, i));
                    assert(root.blocks(v5)[kk] != b);
                }
                assert(v4[b] == v3[b]);
                assert forall|k: int| 0 <= k < root.blocks(v3).len() implies #[trigger] root.blocks(v3)[k] != b by {
                    assert(root.blocks(v5)[k] != b);
                }
                assert(v3[b] == v0[b]);
            }
            assert forall|j: int| 0 <= j < root0.size as int / 32 && j != slot / 32 implies #[trigger] dir_entry_at(*root, v5, j) == dir_entry_at(root0, v0, j) by {
                assert forall|t: int| 0 <= t < 32 implies #[trigger] dir_entry_at(*root, v5, j)[t] == dir_entry_at(root0, v0, j)[t] by {
                    assert(32 * j + t < root0.size);
                    assert(32 * j + t < slot || 32 * j + t >= slot + 32);
                    assert(root.file_byte(v4, 32 * j + t) == root.file_byte(v3, 32 * j + t));
                }
                assert(dir_entry_at(*root, v5, j) =~= dir_entry_at(root0, v0, j));
            }
            assert forall|j: int| 0 <= j < slot / 32 implies #[trigger] dir_entry_at(*root, v5, j) == dir_entry_at(root0, v0, j) by {
                assert(j < root0.size as int / 32);
            }
            assert(placed_at(root0, v0, *root, v5, id, (slot / 32) as int, name.spec_bytes()));
        }
        slot
    }

    /// Creates an empty file named `name` in this directory: takes the
    /// first free inode, records it in a slot of the directory, writes every
    /// cached block back and answers the new inode; answers `None`, changing
    /// nothing, when the directory has an entry named `name`.
    #[verifier::rlimit(100)]
    #[verifier::spinoff_prover]
    pub fn create<D: BlockDevice>(&self, name: &str, fs: &mut EasyFileSystem<D>) -> (r: Option<Inode>)
        requires
            old(fs).wf(),
            old(fs).sound(),
            self.in_inode_area(*old(fs)),
            !old(fs).in_inode_bitmap(self.block_id as int),
            name.spec_bytes().len() <= crate::easy_fs::dir_entry::NAME_MAX_LEN,
            exists|k: int| 0 <= k < old(fs).inode_bitmap.spec_capacity() && !#[trigger] old(fs).inode_bitmap.is_set(old(fs).blocks(), k),
            forall|k: int| #[trigger] old(fs).first_free_inode(k) ==> self.new_inode_ok(*old(fs), k),
            forall|ino: DiskInode| #[trigger] self.holds(*old(fs), ino) ==> {
                &&& dir_ok(ino, old(fs).blocks())
                &&& old(fs).owns(ino)
                &&& ino.size + 32 <= u32::MAX
                &&& spec_count_data_block((ino.size + 32) as u32) <= INDIRECT3_CAP
                &&& count_free(old(fs).data_bitmap, old(fs).blocks(), old(fs).data_area_blocks as int)
                    >= grow_needed(ino.size, (ino.size + 32) as u32)
            },
        ensures
            final(fs).wf(),
            final(fs).sound(),
            final(fs).same_layout(*old(fs)),
            r is None ==> final(fs).blocks() == old(fs).blocks(),
            r is None ==> self.has_name(*old(fs), name.spec_bytes()),
            r is Some ==> final(fs).cache.device_blocks() == final(fs).blocks(),
            r is Some ==> self.created_by(*old(fs), *final(fs), r->0, name.spec_bytes()),
    {
        let mut root = self.disk(fs);
        let ghost root0 = root;
        let ghost v0 = fs.blocks();
        proof { assert(self.holds(*old(fs), root0)); }
        let found = get(&root, name, fs);
        if found.is_some() {
            proof {
                let id = found->0;
                assert(is_lookup(root0, v0, name.spec_bytes(), Some(id)));
                assert(self.has_name(*old(fs), name.spec_bytes()));
            }
            return None;
        }
        proof {
            assert forall|k: int| #[trigger] fs.first_free_inode(k) implies self.new_inode_ok(*fs, k) by {
                assert(old(fs).first_free_inode(k));
            }
        }
        let (id, inode, fresh) = self.add_inode(fs);
        let ghost v2 = fs.blocks();
        proof {
            fs.cache.lemma_wf_view();
            lemma_owned_frame(*old(fs), *fs, root0);
        }
        let slot = self.add_entry(&mut root, name, id, fs);
        let ghost v5 = fs.blocks();
        proof {
            let (b, off) = old(fs).spec_inode_pos(id);
            assert(b < old(fs).data_area_start_block);
            root.lemma_bytes_roundtrip();
            assert(v2[b as int].len() == BLOCK_SIZE);
            if b == self.block_id {
                lemma_splice_apart(v2[b as int], self.block_offset as int, root.spec_to_bytes(), off as int, INODE_SIZE as int);
            }
            assert(inode.bytes(v5) == inode.bytes(v2));
            assert(inode.holds(*fs, fresh));
            assert(fs.inode_bitmap.is_set(v5, id as int)) by {
                vstd::arithmetic::div_mod::lemma_div_is_ordered(id as int, fs.inode_bitmap.spec_capacity() as int, crate::BLOCK_BITS as int);
                vstd::arithmetic::div_mod::lemma_div_by_multiple(fs.inode_bitmap.block_count() as int, crate::BLOCK_BITS as int);
                let bb = fs.inode_bitmap.start() + (id as int) / (crate::BLOCK_BITS as int);
                assert(v5[bb] == v2[bb]);
            }
            if forall|i: int| 0 <= i < name.spec_bytes().len() ==> name.spec_bytes()[i] != 0 {
                lemma_lookup_after(root0, v0, v2, root, v5, name.spec_bytes(), (slot / 32) as int, id);
            }
            lemma_placed_frame(root0, v0, v2, root, v5, id, (slot / 32) as int, name.spec_bytes());
        }
        let ghost fs5 = *fs;
        proof { fs.cache.lemma_wf_view(); }
        sync_all(&mut fs.cache);
        proof {
            fs.cache.lemma_wf_view();
            assert(fs.same_layout(fs5));
            assert(fs.same_layout(*old(fs)));
            assert(inode.holds(*fs, fresh));
            assert(self.holds(*fs, root));
            assert(old(fs).first_free_inode(id as int));
            assert(fs.blocks() == v5);
            assert(self.holds(*old(fs), root0));
            assert(is_lookup(root0, old(fs).blocks(), name.spec_bytes(), None));
            assert(fs.owns(root)) by {
                assert(fs5.owns(root));
            }
            assert(dir_ok(root, fs.blocks()));
            assert(fs.inode_bitmap.is_set(fs.blocks(), id as int));
            assert((forall|i: int| 0 <= i < name.spec_bytes().len() ==> name.spec_bytes()[i] != 0)
                ==> is_lookup(root, fs.blocks(), name.spec_bytes(), Some(id)));
            let k = id as int;
            assert(inode.block_id == old(fs).spec_inode_pos(k as u32).0);
            assert(inode.block_offset == old(fs).spec_inode_pos(k as u32).1);
            assert(root.id == root0.id && root.links == root0.links);
            assert(self.created(*old(fs), *fs, inode, name.spec_bytes(), root0, k, fresh, root));
            assert(fs.cache.device_blocks() == fs.blocks());
            assert(self.created_by(*old(fs), *fs, inode, name.spec_bytes()));
        }
        Some(inode)
    }
}

/// Finds the first entry of the directory `ino` named `name`, clears its
/// 32 bytes and answers the inode number it held.
fn remove<D: BlockDevice>(ino: &mut DiskInode, name: &str, fs: &mut EasyFileSystem<D>) -> (r: Option<u32>)
    requires
        old(fs).wf(),
        dir_ok(*old(ino), old(fs).blocks()),
    ensures
        *final(ino) == *old(ino),
        final(fs).wf(),
        final(fs).same_layout(*old(fs)),
        final(fs).blocks().len() == old(fs).blocks().len(),
        is_lookup(*old(ino), old(fs).blocks(), name.spec_bytes(), r),
        r is None ==> final(fs).blocks() == old(fs).blocks(),
        dir_ok(*old(ino), final(fs).blocks()),
        old(ino).blocks(final(fs).blocks()) == old(ino).blocks(old(fs).blocks()),
        r is Some ==> exists|k: int| {
            &&& #[trigger] names_at(*old(ino), old(fs).blocks(), k, name.spec_bytes())
            &&& forall|j: int| 0 <= j < k ==> !#[trigger] names_at(*old(ino), old(fs).blocks(), j, name.spec_bytes())
            &&& dir_entry_at(*old(ino), final(fs).blocks(), k) == Seq::new(32, |t: int| 0u8)
            &&& forall|p: int| 0 <= p < old(ino).size && (p < 32 * k || p >= 32 * k + 32)
                ==> #[trigger] old(ino).file_byte(final(fs).blocks(), p) == old(ino).file_byte(old(fs).blocks(), p)
        },
        forall|b: int| 0 <= b < old(fs).blocks().len() && (forall|i: int| 0 <= i < spec_count_data_block(old(ino).size)
            ==> #[trigger] old(ino).spec_block_id(old(fs).blocks(), i) != b) ==> #[trigger] final(fs).blocks()[b] == old(fs).blocks()[b],
{
    let ghost view = fs.blocks();
    let n = ino.size as usize / DirEntry::SIZE;
    let nb = name.as_bytes();
    let mut k: usize = 0;
    while k < n
        invariant
            fs.wf(),
            fs.same_layout(*old(fs)),
            fs.blocks() == view,
            view == old(fs).blocks(),
            dir_ok(*ino, view),
            *ino == *old(ino),
            n == ino.size / 32,
            nb@ == name.spec_bytes(),
            k <= n,
            forall|j: int| 0 <= j < k ==> !#[trigger] names_at(*ino, view, j, nb@),
        decreases n - k,
    {
        let e = read_entry(ino, k, fs);
        if crate::layout::same_bytes(e.name_bytes(), nb) {
            proof {
                assert(names_at(*ino, view, k as int, nb@));
                ino.lemma_tree_distinct(view, spec_count_data_block(ino.size));
                assert((32 * k) / 512 < spec_count_data_block(ino.size)) by (nonlinear_arith)
                    requires
                        k < n,
                        n == ino.size / 32,
                ;
                fs.cache.lemma_wf_view();
            }
            let zeros = [0u8; 32];
            ino.write_at(k * DirEntry::SIZE, zeros.as_slice(), &mut fs.cache);
            proof {
                let v2 = fs.blocks();
                ino.lemma_tree_distinct(v2, spec_count_data_block(ino.size));
                assert(dir_entry_at(*ino, v2, k as int) =~= Seq::new(32, |t: int| 0u8)) by {
                    assert forall|t: int| 0 <= t < 32 implies #[trigger] dir_entry_at(*ino, v2, k as int)[t] == 0u8 by {
                        assert(ino.file_byte(v2, 32 * k + t) == zeros@[t]);
                    }
                }
            }
            return Some(e.inode_id());
        }
        k = k + 1;
    }
    None
}

/// `view` after each block of `blocks` in turn is zeroed and marked free in
/// the data bitmap `bm`, whose entry 0 stands for block `start`.
pub open spec fn released(bm: Bitmap, start: int, view: Seq<Seq<u8>>, blocks: Seq<u32>) -> Seq<Seq<u8>>
    decreases blocks.len(),
{
    if blocks.len() == 0 {
        view
    } else {
        let b = blocks.last();
        bm.with_bit_cleared(released(bm, start, view, blocks.drop_last()).update(b as int, zeros()), b - start)
    }
}

/// Releasing blocks leaves every other block outside the bitmap as it was.
proof fn lemma_released_frame(bm: Bitmap, start: int, view: Seq<Seq<u8>>, blocks: Seq<u32>, x: int)
    requires
        0 <= x < view.len(),
        bm.start() + bm.block_count() <= view.len(),
        !(bm.start() <= x < bm.start() + bm.block_count()),
        forall|k: int| 0 <= k < blocks.len() ==> {
            &&& #[trigger] blocks[k] != x
            &&& start <= blocks[k] < view.len()
            &&& blocks[k] - start < bm.spec_capacity()
        },
    ensures
        released(bm, start, view, blocks).len() == view.len(),
        released(bm, start, view, blocks)[x] == view[x],
    decreases blocks.len(),
{
    if blocks.len() > 0 {
        let rest = blocks.drop_last();
        assert forall|k: int| 0 <= k < rest.len() implies {
            &&& #[trigger] rest[k] != x
            &&& start <= rest[k] < view.len()
            &&& rest[k] - start < bm.spec_capacity()
        } by {
            assert(rest[k] == blocks[k]);
        }
        lemma_released_frame(bm, start, view, rest, x);
        let b = blocks.last();
        assert(blocks[blocks.len() - 1] == b);
        let kb = b - start;
        vstd::arithmetic::div_mod::lemma_div_is_ordered(kb, bm.spec_capacity() as int, crate::BLOCK_BITS as int);
        vstd::arithmetic::div_mod::lemma_div_by_multiple(bm.block_count() as int, crate::BLOCK_BITS as int);
    }
}

impl Inode {
    /// From `before` to `after`, the file was emptied: every block of its
    /// tree was zeroed and marked free in the data bitmap `bm` (entry 0
    /// standing for block `start`), one after the other, and the inode
    /// reset to size 0 with no direct or index blocks; nothing else
    /// changed.
    pub open spec fn cleared(&self, bm: Bitmap, start: int, before: Seq<Seq<u8>>, after: Seq<Seq<u8>>) -> bool {
        exists|ino: DiskInode, ino2: DiskInode| {
            &&& #[trigger] ino.decodes_from(self.bytes(before))
            &&& #[trigger] ino2.decodes_from(self.bytes(after))
            &&& ino2.size == 0 && ino2.id == ino.id && ino2.links == ino.links && ino2.kind == ino.kind
            &&& ino2.direct@ == Seq::new(26, |i: int| 0u32)
            &&& ino2.indirect1 == 0 && ino2.indirect2 == 0 && ino2.indirect3 == 0
            &&& after == self.with_disk(released(bm, start, before, ino.blocks(before)), ino2)
            &&& forall|k: int| 0 <= k < ino.blocks(before).len() ==> {
                &&& after[#[trigger] ino.blocks(before)[k] as int] == zeros()
                &&& !bm.is_set(after, ino.blocks(before)[k] - start)
            }
        }
    }

    /// The inode numbered `id` on `fs`.
    fn inode<D: BlockDevice>(fs: &EasyFileSystem<D>, id: u32) -> (r: Inode)
        ensures
            r.block_id == (fs.spec_inode_pos(id).0 as u32) as usize,
            r.block_offset == fs.spec_inode_pos(id).1,
    {
        let (block_id, block_offset) = fs.disk_inode_pos_any(id);
        Inode::new(block_id, block_offset)
    }

    /// Empties the file: its block pointers are reset and every block of its
    /// tree is freed; its inode is rewritten.
    fn internal_clear<D: BlockDevice>(&self, fs: &mut EasyFileSystem<D>)
        requires
            old(fs).wf(),
            self.in_inode_area(*old(fs)),
            forall|ino: DiskInode| #[trigger] self.holds(*old(fs), ino) ==> file_ok(ino, old(fs).blocks()) && old(fs).owns(ino),
        ensures
            final(fs).wf(),
            final(fs).same_layout(*old(fs)),
            self.cleared(old(fs).data_bitmap, old(fs).data_area_start_block as int, old(fs).blocks(), final(fs).blocks()),
    {
        proof { fs.cache.lemma_wf_view(); }
        let mut ino = self.disk(fs);
        let ghost ino0 = ino;
        let ghost v0 = fs.blocks();
        proof { assert(self.holds(*old(fs), ino0)); }
        let freed = ino.clear(&mut fs.cache);
        let ghost start = fs.data_area_start_block as int;
        let ghost bm = fs.data_bitmap;
        let mut j: usize = 0;
        while j < freed.len()
            invariant
                fs.wf(),
                fs.same_layout(*old(fs)),
                bm == fs.data_bitmap,
                start == fs.data_area_start_block,
                v0 == old(fs).blocks(),
                freed@ == ino0.blocks(v0),
                all_distinct(freed@),
                j <= freed@.len(),
                fs.blocks().len() == v0.len(),
                fs.blocks() == released(bm, start, v0, freed@.subrange(0, j as int)),
                forall|k: int| j <= k < freed@.len() ==> {
                    &&& start <= #[trigger] freed@[k]
                    &&& freed@[k] < v0.len()
                    &&& freed@[k] - start < fs.data_area_blocks
                    &&& bm.is_set(fs.blocks(), freed@[k] - start)
                },
                forall|k: int| 0 <= k < j ==> {
                    &&& start <= #[trigger] freed@[k]
                    &&& freed@[k] < v0.len()
                    &&& freed@[k] - start < fs.data_area_blocks
                    &&& fs.blocks()[freed@[k] as int] == zeros()
                    &&& !bm.is_set(fs.blocks(), freed@[k] - start)
                },
                ino.size == 0,
                ino.id == ino0.id,
                ino.links == ino0.links,
                ino.kind == ino0.kind,
                ino.direct@ == Seq::new(26, |i: int| 0u32),
                ino.indirect1 == 0,
                ino.indirect2 == 0,
                ino.indirect3 == 0,
            decreases freed@.len() - j,
        {
            let b = freed[j];
            let ghost before = fs.blocks();
            fs.dealloc_data(b);
            proof {
                let sub = freed@.subrange(0, j + 1);
                assert(sub.drop_last() =~= freed@.subrange(0, j as int));
                assert(sub.last() == b);
                assert forall|k: int| j + 1 <= k < freed@.len() implies {
                    &&& start <= #[trigger] freed@[k]
                    &&& freed@[k] < v0.len()
                    &&& freed@[k] - start < fs.data_area_blocks
                    &&& bm.is_set(fs.blocks(), freed@[k] - start)
                } by {
                    assert(freed@[k] != freed@[j as int]);
                    assert(bm.is_set(before, freed@[k] - start));
                }
                assert forall|k: int| 0 <= k < j + 1 implies {
                    &&& start <= #[trigger] freed@[k]
                    &&& freed@[k] < v0.len()
                    &&& freed@[k] - start < fs.data_area_blocks
                    &&& fs.blocks()[freed@[k] as int] == zeros()
                    &&& !bm.is_set(fs.blocks(), freed@[k] - start)
                } by {
                    if k < j {
                        assert(bm.start() + bm.block_count() <= start);
                        assert(freed@[k] != freed@[j as int]);
                        assert(before[freed@[k] as int] == zeros());
                        assert(!bm.is_set(before, freed@[k] - start));
                    }
                }
            }
            j = j + 1;
        }
        proof { fs.cache.lemma_wf_view(); }
        let ghost v1 = fs.blocks();
        self.set_disk(fs, &ino);
        proof {
            fs.cache.lemma_wf_view();
            assert(freed@.subrange(0, freed@.len() as int) =~= freed@);
            ino.lemma_bytes_roundtrip();
            assert(v1[self.block_id as int].len() == BLOCK_SIZE);
            assert(self.bytes(fs.blocks()) =~= ino.spec_to_bytes());
            assert(ino0.decodes_from(self.bytes(old(fs).blocks())));
            assert(ino.decodes_from(self.bytes(fs.blocks())));
            assert forall|k: int| 0 <= k < ino0.blocks(v0).len() implies {
                &&& fs.blocks()[#[trigger] ino0.blocks(v0)[k] as int] == zeros()
                &&& !bm.is_set(fs.blocks(), ino0.blocks(v0)[k] - start)
            } by {
                assert(freed@[k] == ino0.blocks(v0)[k]);
                assert(fs.blocks()[freed@[k] as int] == v1[freed@[k] as int]);
                crate::easy_fs::efs::lemma_bitmap_frame(v1, fs.blocks(), bm);
            }
        }
    }

    /// Empties the file: frees every block of its tree, resets its block
    /// pointers, and writes every cached block back.
    pub fn clear<D: BlockDevice>(&self, fs: &mut EasyFileSystem<D>)
        requires
            old(fs).wf(),
            self.in_inode_area(*old(fs)),
            forall|ino: DiskInode| #[trigger] self.holds(*old(fs), ino) ==> file_ok(ino, old(fs).blocks()) && old(fs).owns(ino),
        ensures
            final(fs).wf(),
            final(fs).same_layout(*old(fs)),
            final(fs).cache.device_blocks() == final(fs).blocks(),
            self.cleared(old(fs).data_bitmap, old(fs).data_area_start_block as int, old(fs).blocks(), final(fs).blocks()),
    {
        self.internal_clear(fs);
        proof { fs.cache.lemma_wf_view(); }
        sync_all(&mut fs.cache);
        proof { fs.cache.lemma_wf_view(); }
    }
}

impl Inode {
    /// Inode `id` of `fs` lies in the inode area, apart from this inode's
    /// bytes unless it is this inode.
    pub open spec fn other_ok<D: BlockDevice>(&self, fs: EasyFileSystem<D>, id: u32) -> bool {
        let t = Self::numbered(fs, id);
        &&& t.in_inode_area(fs)
        &&& t == *self || t.block_id != self.block_id || t.block_offset + INODE_SIZE <= self.block_offset
            || self.block_offset + INODE_SIZE <= t.block_offset
    }

    /// The inode that inode number `id` of `fs` names.
    pub open spec fn numbered<D: BlockDevice>(fs: EasyFileSystem<D>, id: u32) -> Inode {
        Inode { block_id: (fs.spec_inode_pos(id).0 as u32) as usize, block_offset: fs.spec_inode_pos(id).1 as usize }
    }

    /// This directory has no entry named `name`.
    pub open spec fn lacks_name<D: BlockDevice>(&self, fs: EasyFileSystem<D>, name: Seq<u8>) -> bool {
        exists|root: DiskInode| #[trigger] self.holds(fs, root) && #[trigger] is_lookup(root, fs.blocks(), name, None)
    }

    /// What [`Inode::link_at`] did, from `before` to `after`: `root` was
    /// this directory, whose entry `name` named inode `id`; that inode, `a`
    /// before and `b` after, has one link more and is otherwise the same;
    /// the directory, now `root2`, recorded `id` under `new_path` in its
    /// first entry with an empty name (or a new entry), keeping every other
    /// entry, and finds `id` under `new_path` when it had no such entry and
    /// the name has no zero byte.
    pub open spec fn linked_with<D: BlockDevice>(
        &self,
        before: EasyFileSystem<D>,
        after: EasyFileSystem<D>,
        name: Seq<u8>,
        new_path: Seq<u8>,
        root: DiskInode,
        id: u32,
        a: DiskInode,
        b: DiskInode,
        root2: DiskInode,
    ) -> bool {
        let t = Self::numbered(before, id);
        &&& self.holds(before, root)
        &&& is_lookup(root, before.blocks(), name, Some(id))
        &&& t.holds(before, a)
        &&& t.holds(after, b)
        &&& b.links == a.links + 1 && b.id == a.id && b.size == a.size && b.kind == a.kind
        &&& self.holds(after, root2)
        &&& root2.id == root.id && root2.links == root.links && root2.kind == root.kind
        &&& dir_ok(root2, after.blocks())
        &&& after.owns(root2)
        &&& (is_lookup(root, before.blocks(), new_path, None) && forall|i: int| 0 <= i < new_path.len() ==> new_path[i] != 0)
            ==> is_lookup(root2, after.blocks(), new_path, Some(id))
        &&& exists|e: int| #[trigger] placed_at(root, before.blocks(), root2, after.blocks(), id, e, new_path)
        &&& forall|x: int| 0 <= x < before.blocks().len() && !before.in_data_bitmap(x) && x != self.block_id && x != t.block_id
            && (forall|j: int| 0 <= j < root2.blocks(after.blocks()).len() ==> #[trigger] root2.blocks(after.blocks())[j] != x)
            ==> #[trigger] after.blocks()[x] == before.blocks()[x]
    }

    /// Some directory, inode and new directory witness [`Inode::linked_with`].
    pub open spec fn linked<D: BlockDevice>(&self, before: EasyFileSystem<D>, after: EasyFileSystem<D>, name: Seq<u8>, new_path: Seq<u8>) -> bool {
        exists|root: DiskInode, id: u32, a: DiskInode, b: DiskInode, root2: DiskInode|
            #[trigger] self.linked_with(before, after, name, new_path, root, id, a, b, root2)
    }

    /// Adds to this directory an entry `new_path` for the inode that entry
    /// `name` names, whose link count rises by one; writes every cached
    /// block back. Answers `None`, changing nothing, when no entry is named `name`.
    #[verifier::rlimit(80)]
    #[verifier::spinoff_prover]
    pub fn link_at<D: BlockDevice>(&self, name: &str, new_path: &str, fs: &mut EasyFileSystem<D>) -> (r: Option<()>)
        requires
            old(fs).wf(),
            old(fs).sound(),
            self.in_inode_area(*old(fs)),
            new_path.spec_bytes().len() <= crate::easy_fs::dir_entry::NAME_MAX_LEN,
            forall|ino: DiskInode| #[trigger] self.holds(*old(fs), ino) ==> {
                &&& dir_ok(ino, old(fs).blocks())
                &&& old(fs).owns(ino)
                &&& ino.size + 32 <= u32::MAX
                &&& spec_count_data_block((ino.size + 32) as u32) <= INDIRECT3_CAP
                &&& count_free(old(fs).data_bitmap, old(fs).blocks(), old(fs).data_area_blocks as int)
                    >= grow_needed(ino.size, (ino.size + 32) as u32)
                &&& forall|id: u32| #[trigger] is_lookup(ino, old(fs).blocks(), name.spec_bytes(), Some(id)) ==> {
                    &&& self.other_ok(*old(fs), id)
                    &&& Self::numbered(*old(fs), id) != *self
                    &&& forall|t: DiskInode| #[trigger] Self::numbered(*old(fs), id).holds(*old(fs), t) ==> t.links < u32::MAX
                }
            },
        ensures
            final(fs).wf(),
            final(fs).sound(),
            final(fs).same_layout(*old(fs)),
            r is None ==> self.lacks_name(*old(fs), name.spec_bytes()),
            r is None ==> final(fs).blocks() == old(fs).blocks(),
            r is Some ==> final(fs).cache.device_blocks() == final(fs).blocks(),
            r is Some ==> self.linked(*old(fs), *final(fs), name.spec_bytes(), new_path.spec_bytes()),
    {
        let mut root = self.disk(fs);
        let ghost root0 = root;
        let ghost v0 = fs.blocks();
        proof { assert(self.holds(*old(fs), root0)); }
        let found = get(&root, name, fs);
        let id = match found {
            None => {
                proof { assert(self.lacks_name(*old(fs), name.spec_bytes())); }
                return None;
            },
            Some(id) => id,
        };
        let target = Self::inode(fs, id);
        proof {
            assert(is_lookup(root0, v0, name.spec_bytes(), Some(id)));
            assert(self.other_ok(*old(fs), id));
            assert(target == Self::numbered(*old(fs), id));
            fs.cache.lemma_wf_view();
        }
        let mut t = target.disk(fs);
        let ghost a = t;
        proof { assert(target.holds(*old(fs), a)); }
        t.links = t.links + 1;
        target.set_disk(fs, &t);
        let ghost v1 = fs.blocks();
        let ghost fs1 = *fs;
        proof {
            fs.cache.lemma_wf_view();
            assert(v0[target.block_id as int].len() == BLOCK_SIZE);
            if target.block_id == self.block_id {
                lemma_splice_apart(v0[target.block_id as int], target.block_offset as int, t.spec_to_bytes(), self.block_offset as int, INODE_SIZE as int);
            }
            assert(self.bytes(v1) == self.bytes(v0));
            assert(self.holds(*fs, root0));
            assert forall|j: int| 0 <= j < fs.data_bitmap.spec_capacity() implies
                #[trigger] fs.data_bitmap.is_set(v1, j) == fs.data_bitmap.is_set(v0, j) by {
                vstd::arithmetic::div_mod::lemma_div_is_ordered(j, fs.data_bitmap.spec_capacity() as int, crate::BLOCK_BITS as int);
                vstd::arithmetic::div_mod::lemma_div_by_multiple(fs.data_bitmap.block_count() as int, crate::BLOCK_BITS as int);
                let bb = fs.data_bitmap.start() + j / (crate::BLOCK_BITS as int);
                assert(v1[bb] == v0[bb]);
            }
            lemma_count_same(fs.data_bitmap, v0, v1, fs.data_area_blocks as int);
            lemma_owned_frame(*old(fs), *fs, root0);
            t.lemma_bytes_roundtrip();
            assert(target.bytes(v1) =~= t.spec_to_bytes());
            assert(target.holds(*fs, t));
        }
        let slot = self.add_entry(&mut root, new_path, id, fs);
        let ghost v5 = fs.blocks();
        proof {
            assert(v1[self.block_id as int].len() == BLOCK_SIZE);
            if target.block_id == self.block_id {
                lemma_splice_apart(v1[self.block_id as int], self.block_offset as int, root.spec_to_bytes(), target.block_offset as int, INODE_SIZE as int);
            }
            assert(target.bytes(v5) == target.bytes(v1));
            assert(target.holds(*fs, t));
            root.lemma_bytes_roundtrip();
            if is_lookup(root0, v0, new_path.spec_bytes(), None) && forall|i: int| 0 <= i < new_path.spec_bytes().len() ==> new_path.spec_bytes()[i] != 0 {
                lemma_lookup_after(root0, v0, v1, root, v5, new_path.spec_bytes(), (slot / 32) as int, id);
            }
            lemma_placed_frame(root0, v0, v1, root, v5, id, (slot / 32) as int, new_path.spec_bytes());
        }
        let ghost fs5 = *fs;
        proof { fs.cache.lemma_wf_view(); }
        sync_all(&mut fs.cache);
        proof {
            fs.cache.lemma_wf_view();
            assert(fs.blocks() == v5);
            assert(fs.owns(root)) by {
                assert(fs5.owns(root));
            }
            assert(self.holds(*fs, root));
            assert(target.holds(*fs, t));
            assert(self.linked_with(*old(fs), *fs, name.spec_bytes(), new_path.spec_bytes(), root0, id, a, t, root));
        }
        Some(())
    }
}


/// The first entry of the directory `root` named `name` read from `view`
/// holds only zero bytes in `view2`, where every other byte of the
/// directory reads as before.
pub open spec fn entry_cleared(root: DiskInode, view: Seq<Seq<u8>>, view2: Seq<Seq<u8>>, name: Seq<u8>) -> bool {
    exists|k: int| {
        &&& #[trigger] names_at(root, view, k, name)
        &&& forall|j: int| 0 <= j < k ==> !#[trigger] names_at(root, view, j, name)
        &&& dir_entry_at(root, view2, k) == Seq::new(32, |t: int| 0u8)
        &&& forall|p: int| 0 <= p < root.size && (p < 32 * k || p >= 32 * k + 32)
            ==> #[trigger] root.file_byte(view2, p) == root.file_byte(view, p)
    }
}

impl Inode {
    /// What [`Inode::unlink_at`] did, from `before` to `after`: `root` was
    /// this directory, whose first entry named `name` named inode `id`;
    /// that entry is cleared; the inode, `a` before and `b` after, has one
    /// link less and is otherwise the same; when no link is left, its size
    /// and block pointers are reset and every block of its tree is zero and
    /// marked free.
    pub open spec fn unlinked_with<D: BlockDevice>(
        &self,
        before: EasyFileSystem<D>,
        after: EasyFileSystem<D>,
        name: Seq<u8>,
        root: DiskInode,
        id: u32,
        a: DiskInode,
        b: DiskInode,
    ) -> bool {
        let t = Self::numbered(before, id);
        &&& self.holds(before, root)
        &&& is_lookup(root, before.blocks(), name, Some(id))
        &&& self.holds(after, root)
        &&& dir_ok(root, after.blocks())
        &&& entry_cleared(root, before.blocks(), after.blocks(), name)
        &&& t.holds(before, a)
        &&& t.holds(after, b)
        &&& b.links == a.links - 1 && b.id == a.id && b.kind == a.kind
        &&& b.links > 0 ==> b.size == a.size
        &&& b.links == 0 ==> {
            &&& b.size == 0
            &&& b.direct@ == Seq::new(26, |i: int| 0u32)
            &&& b.indirect1 == 0
            &&& b.indirect2 == 0
            &&& b.indirect3 == 0
            &&& forall|k: int| 0 <= k < a.blocks(before.blocks()).len() ==> {
                &&& after.blocks()[#[trigger] a.blocks(before.blocks())[k] as int] == zeros()
                &&& !after.data_bitmap.is_set(after.blocks(), a.blocks(before.blocks())[k] - after.data_area_start_block)
            }
        }
    }

    /// Some directory and inode witness [`Inode::unlinked_with`].
    pub open spec fn unlinked<D: BlockDevice>(&self, before: EasyFileSystem<D>, after: EasyFileSystem<D>, name: Seq<u8>) -> bool {
        exists|root: DiskInode, id: u32, a: DiskInode, b: DiskInode|
            #[trigger] self.unlinked_with(before, after, name, root, id, a, b)
    }

    /// Removes this directory's first entry named `name`; the inode it
    /// named loses a link and, left with none, is emptied, every block of
    /// its tree freed; writes every cached block back. Answers `None`, changing nothing, when no entry
    /// is named `name`.
    #[verifier::rlimit(80)]
    #[verifier::spinoff_prover]
    pub fn unlink_at<D: BlockDevice>(&self, name: &str, fs: &mut EasyFileSystem<D>) -> (r: Option<()>)
        requires
            old(fs).wf(),
            self.in_inode_area(*old(fs)),
            forall|ino: DiskInode| #[trigger] self.holds(*old(fs), ino) ==> {
                &&& dir_ok(ino, old(fs).blocks())
                &&& old(fs).owns(ino)
                &&& forall|id: u32| #[trigger] is_lookup(ino, old(fs).blocks(), name.spec_bytes(), Some(id)) ==> {
                    &&& self.other_ok(*old(fs), id)
                    &&& Self::numbered(*old(fs), id) != *self
                    &&& forall|t: DiskInode| #[trigger] Self::numbered(*old(fs), id).holds(*old(fs), t)
                        ==> t.links > 0 && (t.links == 1 ==> {
                            &&& file_ok(t, old(fs).blocks())
                            &&& old(fs).owns(t)
                            &&& forall|i: int, j: int| 0 <= i < t.blocks(old(fs).blocks()).len() && 0 <= j < ino.blocks(old(fs).blocks()).len()
                                ==> #[trigger] t.blocks(old(fs).blocks())[i] != #[trigger] ino.blocks(old(fs).blocks())[j]
                        })
                }
            },
        ensures
            final(fs).wf(),
            final(fs).same_layout(*old(fs)),
            r is None ==> self.lacks_name(*old(fs), name.spec_bytes()),
            r is None ==> final(fs).blocks() == old(fs).blocks(),
            r is Some ==> final(fs).cache.device_blocks() == final(fs).blocks(),
            r is Some ==> self.unlinked(*old(fs), *final(fs), name.spec_bytes()),
    {
        let mut root = self.disk(fs);
        let ghost root0 = root;
        let ghost v0 = fs.blocks();
        proof { assert(self.holds(*old(fs), root0)); }
        let found = remove(&mut root, name, fs);
        let id = match found {
            None => {
                proof { assert(self.lacks_name(*old(fs), name.spec_bytes())); }
                return None;
            },
            Some(id) => id,
        };
        let ghost v1 = fs.blocks();
        let ghost start = fs.data_area_start_block as int;
        let target = Self::inode(fs, id);
        proof {
            assert(self.other_ok(*old(fs), id));
            assert(target == Self::numbered(*old(fs), id));
            fs.cache.lemma_wf_view();
            assert forall|b: int| 0 <= b < v0.len() && b < start implies #[trigger] v1[b] == v0[b] by {
                {
                    assert forall|i: int| 0 <= i < spec_count_data_block(root0.size) implies
                        #[trigger] root0.spec_block_id(v0, i) != b by {
                        root0.lemma_alloc_positions(v0, spec_count_data_block(root0.size));
                        let kk = crate::easy_fs::inode::pos_data(i);
                        assert(root0.blocks(v0)[kk] == root0.spec_block_id(v0, i));
                        assert(start <= root0.blocks(v0)[kk]);
                    }
                }
            }
            assert(self.bytes(v1) == self.bytes(v0));
            assert(target.bytes(v1) == target.bytes(v0));
        }
        let mut t = target.disk(fs);
        let ghost a = t;
        proof { assert(target.holds(*old(fs), a)); }
        t.links = t.links - 1;
        target.set_disk(fs, &t);
        let ghost v2 = fs.blocks();
        proof {
            fs.cache.lemma_wf_view();
            assert(v1[target.block_id as int].len() == BLOCK_SIZE);
            if target.block_id == self.block_id {
                lemma_splice_apart(v1[target.block_id as int], target.block_offset as int, t.spec_to_bytes(), self.block_offset as int, INODE_SIZE as int);
            }
            assert(self.bytes(v2) == self.bytes(v1));
            t.lemma_bytes_roundtrip();
            assert(target.bytes(v2) =~= t.spec_to_bytes());
            assert(target.holds(*fs, t));
        }
        let ghost bm = fs.data_bitmap;
        let ghost fs2 = *fs;
        proof {
            if t.links == 0 {
                // the file's blocks are neither the directory's nor the inode's
                let n = spec_count_data_block(a.size);
                assert forall|j: int| 0 <= j < n implies #[trigger] t.step_blocks(v0, j) == a.step_blocks(v0, j) by {}
                crate::easy_fs::inode::lemma_prefix_frame(a, v0, t, v0, n);
                let n0 = spec_count_data_block(root0.size);
                root0.lemma_alloc_positions(v0, n0);
                assert forall|k: int| 0 <= k < a.blocks(v0).len() implies #[trigger] v2[a.blocks(v0)[k] as int] == v0[a.blocks(v0)[k] as int] by {
                    let x = a.blocks(v0)[k];
                    assert forall|i: int| 0 <= i < n0 implies #[trigger] root0.spec_block_id(v0, i) != x by {
                        let kk = crate::easy_fs::inode::pos_data(i);
                        assert(root0.blocks(v0)[kk] == root0.spec_block_id(v0, i));
                        assert(a.blocks(v0)[k] != root0.blocks(v0)[kk]);
                    }
                    assert(v1[x as int] == v0[x as int]);
                    assert(start <= x);
                }
                lemma_file_frame(a, v0, v2);
                lemma_file_frame(t, v0, v2);
                crate::easy_fs::efs::lemma_bitmap_frame(v0, v2, bm);
                assert(fs2.owns(t)) by {
                    assert forall|k: int| 0 <= k < t.blocks(v2).len() implies {
                        let x = #[trigger] t.blocks(v2)[k];
                        &&& fs2.data_area_start_block <= x
                        &&& x - fs2.data_area_start_block < fs2.data_area_blocks
                        &&& fs2.data_bitmap.is_set(v2, x - fs2.data_area_start_block)
                    } by {
                        assert(t.blocks(v2)[k] == a.blocks(v0)[k]);
                    }
                }
            }
        }
        if t.links == 0 {
            proof {
                assert forall|ino: DiskInode| #[trigger] target.holds(fs2, ino) implies file_ok(ino, v2) && fs2.owns(ino) by {
                    lemma_decodes_unique(ino, t, target.bytes(v2));
                }
            }
            target.internal_clear(fs);
        }
        let ghost v3 = fs.blocks();
        let ghost b: DiskInode = if t.links == 0 {
            choose|b: DiskInode| exists|ino: DiskInode| {
                &&& #[trigger] ino.decodes_from(target.bytes(v2))
                &&& #[trigger] b.decodes_from(target.bytes(v3))
                &&& b.size == 0 && b.id == ino.id && b.links == ino.links && b.kind == ino.kind
                &&& b.direct@ == Seq::new(26, |i: int| 0u32)
                &&& b.indirect1 == 0 && b.indirect2 == 0 && b.indirect3 == 0
                &&& v3 == target.with_disk(released(bm, start, v2, ino.blocks(v2)), b)
                &&& forall|k: int| 0 <= k < ino.blocks(v2).len() ==> {
                    &&& v3[#[trigger] ino.blocks(v2)[k] as int] == zeros()
                    &&& !bm.is_set(v3, ino.blocks(v2)[k] - start)
                }
            }
        } else {
            t
        };
        let ghost rel = released(bm, start, v2, t.blocks(v2));
        proof {
            if t.links == 0 {
                let ino = choose|ino: DiskInode| {
                    &&& #[trigger] ino.decodes_from(target.bytes(v2))
                    &&& #[trigger] b.decodes_from(target.bytes(v3))
                    &&& b.size == 0 && b.id == ino.id && b.links == ino.links && b.kind == ino.kind
                    &&& b.direct@ == Seq::new(26, |i: int| 0u32)
                    &&& b.indirect1 == 0 && b.indirect2 == 0 && b.indirect3 == 0
                    &&& v3 == target.with_disk(released(bm, start, v2, ino.blocks(v2)), b)
                    &&& forall|k: int| 0 <= k < ino.blocks(v2).len() ==> {
                        &&& v3[#[trigger] ino.blocks(v2)[k] as int] == zeros()
                        &&& !bm.is_set(v3, ino.blocks(v2)[k] - start)
                    }
                };
                lemma_decodes_unique(ino, t, target.bytes(v2));
                assert(v3 == target.with_disk(rel, b));
                // the released blocks lie in the data area, apart from the directory's
                let n = spec_count_data_block(a.size);
                assert forall|j: int| 0 <= j < n implies #[trigger] t.step_blocks(v0, j) == a.step_blocks(v0, j) by {}
                crate::easy_fs::inode::lemma_prefix_frame(a, v0, t, v0, n);
                lemma_file_frame(t, v0, v2);
                assert(t.blocks(v2) == a.blocks(v0));
                assert forall|k: int| 0 <= k < t.blocks(v2).len() implies {
                    &&& start <= #[trigger] t.blocks(v2)[k] < v2.len()
                    &&& t.blocks(v2)[k] - start < bm.spec_capacity()
                } by {
                    assert(t.blocks(v2)[k] == a.blocks(v0)[k]);
                }
                assert forall|k: int| 0 <= k < t.blocks(v2).len() implies #[trigger] t.blocks(v2)[k] != self.block_id by {
                    assert(start <= t.blocks(v2)[k]);
                }
                lemma_released_frame(bm, start, v2, t.blocks(v2), self.block_id as int);
                assert forall|k: int| 0 <= k < t.blocks(v2).len() implies #[trigger] t.blocks(v2)[k] != target.block_id by {
                    assert(start <= t.blocks(v2)[k]);
                }
                lemma_released_frame(bm, start, v2, t.blocks(v2), target.block_id as int);
                assert forall|j: int| 0 <= j < root0.blocks(v1).len() implies #[trigger] rel[root0.blocks(v1)[j] as int] == v2[root0.blocks(v1)[j] as int] by {
                    let x = root0.blocks(v1)[j];
                    assert(x == root0.blocks(v0)[j]);
                    assert(start <= x);
                    assert forall|k: int| 0 <= k < t.blocks(v2).len() implies #[trigger] t.blocks(v2)[k] != x by {
                        assert(t.blocks(v2)[k] == a.blocks(v0)[k]);
                        assert(a.blocks(v0)[k] != root0.blocks(v0)[j]);
                    }
                    lemma_released_frame(bm, start, v2, t.blocks(v2), x as int);
                }
            }
        }
        proof {
            fs.cache.lemma_wf_view();
            assert(target.holds(*fs, b));
            assert(b.links == a.links - 1 && b.id == a.id && b.kind == a.kind);
            assert(b.links > 0 ==> b.size == a.size);
            if t.links == 0 {
                assert(rel[target.block_id as int].len() == BLOCK_SIZE);
                if target.block_id == self.block_id {
                    lemma_splice_apart(rel[target.block_id as int], target.block_offset as int, b.spec_to_bytes(), self.block_offset as int, INODE_SIZE as int);
                }
            }
            assert(self.bytes(v3) == self.bytes(v0));
            assert(self.holds(*fs, root0));
            assert forall|k: int| 0 <= k < root0.blocks(v1).len() implies #[trigger] v3[root0.blocks(v1)[k] as int] == v1[root0.blocks(v1)[k] as int] by {
                assert(start <= root0.blocks(v0)[k]);
                if t.links == 0 {
                    assert(rel[root0.blocks(v1)[k] as int] == v2[root0.blocks(v1)[k] as int]);
                }
            }
            lemma_file_frame(root0, v1, v3);
            let k = choose|k: int| {
                &&& #[trigger] names_at(root0, v0, k, name.spec_bytes())
                &&& forall|j: int| 0 <= j < k ==> !#[trigger] names_at(root0, v0, j, name.spec_bytes())
                &&& dir_entry_at(root0, v1, k) == Seq::new(32, |t: int| 0u8)
                &&& forall|p: int| 0 <= p < root0.size && (p < 32 * k || p >= 32 * k + 32)
                    ==> #[trigger] root0.file_byte(v1, p) == root0.file_byte(v0, p)
            };
            assert(dir_entry_at(root0, v3, k) =~= dir_entry_at(root0, v1, k)) by {
                assert forall|j: int| 0 <= j < 32 implies #[trigger] dir_entry_at(root0, v3, k)[j] == dir_entry_at(root0, v1, k)[j] by {
                    assert(32 * k + j < root0.size);
                }
            }
            assert(entry_cleared(root0, v0, v3, name.spec_bytes()));
        }
        let ghost fs3 = *fs;
        sync_all(&mut fs.cache);
        proof {
            fs.cache.lemma_wf_view();
            assert(fs.blocks() == v3);
            assert(self.holds(*fs, root0));
            assert(target.holds(*fs, b));
            assert(dir_ok(root0, fs.blocks()));
            assert(self.unlinked_with(*old(fs), *fs, name.spec_bytes(), root0, id, a, b));
        }
        Some(())
    }
}

/// Inodes read from the same bytes are the same.
proof fn lemma_decodes_unique(a: DiskInode, b: DiskInode, bytes: Seq<u8>)
    requires
        a.decodes_from(bytes),
        b.decodes_from(bytes),
    ensures
        a == b,
{
    assert(a.direct =~= b.direct) by {
        assert forall|i: int| 0 <= i < 26 implies a.direct[i] == b.direct[i] by {
            assert(a.direct@[i] == b.direct@[i]);
        }
    }
}

/// A lookup in a directory has one answer.
proof fn lemma_lookup_unique(ino: DiskInode, view: Seq<Seq<u8>>, name: Seq<u8>, r1: Option<u32>, r2: Option<u32>)
    requires
        is_lookup(ino, view, name, r1),
        is_lookup(ino, view, name, r2),
    ensures
        r1 == r2,
{
    if r1 is Some {
        let k1 = choose|k: int| {
            &&& #[trigger] names_at(ino, view, k, name)
            &&& forall|j: int| 0 <= j < k ==> !#[trigger] names_at(ino, view, j, name)
            &&& r1->0 == entry_id(dir_entry_at(ino, view, k))
        };
        if r2 is Some {
            let k2 = choose|k: int| {
                &&& #[trigger] names_at(ino, view, k, name)
                &&& forall|j: int| 0 <= j < k ==> !#[trigger] names_at(ino, view, j, name)
                &&& r2->0 == entry_id(dir_entry_at(ino, view, k))
            };
            assert(k1 == k2) by {
                if k1 < k2 {
                    assert(!names_at(ino, view, k1, name));
                } else if k2 < k1 {
                    assert(!names_at(ino, view, k2, name));
                }
            }
        } else {
            assert(!names_at(ino, view, k1, name));
        }
    } else if r2 is Some {
        let k2 = choose|k: int| {
            &&& #[trigger] names_at(ino, view, k, name)
            &&& forall|j: int| 0 <= j < k ==> !#[trigger] names_at(ino, view, j, name)
            &&& r2->0 == entry_id(dir_entry_at(ino, view, k))
        };
        assert(!names_at(ino, view, k2, name));
    }
}

/// A file that [`Inode::create`] made in a directory under `name`, a name
/// without a zero byte, is what looking `name` up in that directory answers
/// afterwards.
pub proof fn lemma_created_found<D: BlockDevice>(
    dir: Inode,
    before: EasyFileSystem<D>,
    after: EasyFileSystem<D>,
    inode: Inode,
    name: Seq<u8>,
    r: Option<Inode>,
)
    requires
        dir.created_by(before, after, inode, name),
        forall|i: int| 0 <= i < name.len() ==> name[i] != 0,
        dir.finds(after, name, r),
    ensures
        r == Some(inode),
{
    let (root, k, fresh, root2) = choose|root: DiskInode, k: int, fresh: DiskInode, root2: DiskInode|
        #[trigger] dir.created(before, after, inode, name, root, k, fresh, root2);
    let (ino, id) = choose|ino: DiskInode, id: Option<u32>| {
        &&& #[trigger] dir.holds(after, ino)
        &&& #[trigger] is_lookup(ino, after.blocks(), name, id)
        &&& match id {
            None => r is None,
            Some(id) => r == Some(Inode {
                block_id: (after.spec_inode_pos(id).0 as u32) as usize,
                block_offset: after.spec_inode_pos(id).1 as usize,
            }),
        }
    };
    lemma_decodes_unique(ino, root2, dir.bytes(after.blocks()));
    lemma_lookup_unique(root2, after.blocks(), name, id, Some(k as u32));
}

/// Reading a file right after writing `data` at byte `offset`, from that
/// offset into a buffer as long as `data`, gives back `data` whole.
pub proof fn lemma_write_then_read<D: BlockDevice>(
    file: Inode,
    before: EasyFileSystem<D>,
    after: EasyFileSystem<D>,
    offset: int,
    data: Seq<u8>,
    buf: Seq<u8>,
    buf2: Seq<u8>,
    r: int,
)
    requires
        0 <= offset,
        file.written(before, after, offset, data),
        file.read_into(after, offset, buf, buf2, r),
        buf.len() == data.len(),
        buf2.len() == buf.len(),
    ensures
        r == data.len(),
        buf2 == data,
{
    let (ino, ino2) = choose|ino: DiskInode, ino2: DiskInode| #[trigger] file.written_with(before, after, offset, data, ino, ino2);
    let ino3 = choose|ino3: DiskInode| {
        &&& #[trigger] file.holds(after, ino3)
        &&& r == if offset > ino3.io_end(offset, buf.len() as int) { 0 } else { ino3.io_end(offset, buf.len() as int) - offset }
        &&& forall|p: int| 0 <= p < r ==> #[trigger] buf2[p] == ino3.file_byte(after.blocks(), offset + p)
        &&& forall|p: int| r <= p < buf.len() ==> #[trigger] buf2[p] == buf[p]
    };
    lemma_decodes_unique(ino2, ino3, file.bytes(after.blocks()));
    assert forall|p: int| 0 <= p < data.len() implies #[trigger] buf2[p] == data[p] by {
        assert(ino2.file_byte(after.blocks(), offset + p) == data[p]);
    }
    assert(buf2 =~= data);
}

/// Once [`Inode::unlink_at`] removed `name`, a name that no other entry of
/// the directory held, looking `name` up there finds nothing.
pub proof fn lemma_unlinked_not_found<D: BlockDevice>(
    dir: Inode,
    before: EasyFileSystem<D>,
    after: EasyFileSystem<D>,
    name: Seq<u8>,
)
    requires
        dir.unlinked(before, after, name),
        name.len() > 0,
        forall|root: DiskInode, k: int, l: int| #[trigger] dir.holds(before, root)
            && #[trigger] names_at(root, before.blocks(), k, name) && #[trigger] names_at(root, before.blocks(), l, name) ==> k == l,
    ensures
        dir.lacks_name(after, name),
{
    let (root, id, a, b) = choose|root: DiskInode, id: u32, a: DiskInode, b: DiskInode|
        #[trigger] dir.unlinked_with(before, after, name, root, id, a, b);
    let v = before.blocks();
    let v2 = after.blocks();
    let k = choose|k: int| {
        &&& #[trigger] names_at(root, v, k, name)
        &&& forall|j: int| 0 <= j < k ==> !#[trigger] names_at(root, v, j, name)
        &&& dir_entry_at(root, v2, k) == Seq::new(32, |t: int| 0u8)
        &&& forall|p: int| 0 <= p < root.size && (p < 32 * k || p >= 32 * k + 32)
            ==> #[trigger] root.file_byte(v2, p) == root.file_byte(v, p)
    };
    assert forall|j: int| !#[trigger] names_at(root, v2, j, name) by {
        if 0 <= j < root.size / 32 {
            if j == k {
                let z = dir_entry_at(root, v2, k).subrange(0, 28);
                assert(z[0] == 0);
                assert(entry_name(dir_entry_at(root, v2, k)) =~= Seq::<u8>::empty());
            } else {
                assert(dir_entry_at(root, v2, j) =~= dir_entry_at(root, v, j)) by {
                    assert forall|t: int| 0 <= t < 32 implies #[trigger] root.file_byte(v2, 32 * j + t) == root.file_byte(v, 32 * j + t) by {
                        assert(32 * j + t < root.size);
                    }
                }
                if names_at(root, v, j, name) {
                    assert(dir.holds(before, root));
                }
            }
        }
    }
    assert(is_lookup(root, v2, name, None));
    assert(dir.holds(after, root));
}

} // verus!
