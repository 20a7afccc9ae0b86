//! Directory entries of the data area, 32 bytes each. A file or directory
//! has one short entry (an 8.3 name, its attributes, first cluster and
//! size), preceded by long entries that hold its full name, 26 bytes each,
//! last part first.

use vstd::prelude::*;

use crate::fat::cluster::{join_halves, ClusterId};
use crate::layout::str_from_utf8;
use crate::BLOCK_SIZE;
use vstd::bytes::{spec_u32_to_le_bytes, u32_to_le_bytes};
use vstd::string::StringSliceAdditionalSpecFns;
use vstd::utf8::{encode_utf8, valid_utf8};
use crate::easy_fs::dir_entry::name_prefix;
use crate::fat::bpb::{le16, push_bytes, push_u16, push_u32};

verus! {

/// Bytes of one directory entry.
pub const DIR_ENTRY_SIZE: usize = 32;

/// Attributes of a directory entry, one bit each.
#[derive(Debug, Clone, Copy, PartialEq, Eq, Structural)]
pub enum AttrFlag {
    ReadOnly,
    Hidden,
    /// The entry belongs to the operating system.
    System,
    /// The entry holds the volume label.
    VolumeID,
    Directory,
    /// The entry was modified.
    Archive,
}

impl AttrFlag {
    pub open spec fn spec_bits(self) -> u8 {
        match self {
            AttrFlag::ReadOnly => 0x01,
            AttrFlag::Hidden => 0x02,
            AttrFlag::System => 0x04,
            AttrFlag::VolumeID => 0x08,
            AttrFlag::Directory => 0x10,
            AttrFlag::Archive => 0x20,
        }
    }

    /// The flag's bit.
    pub fn bits(self) -> (r: u8)
        ensures
            r == self.spec_bits(),
    {
        match self {
            AttrFlag::ReadOnly => 0x01,
            AttrFlag::Hidden => 0x02,
            AttrFlag::System => 0x04,
            AttrFlag::VolumeID => 0x08,
            AttrFlag::Directory => 0x10,
            AttrFlag::Archive => 0x20,
        }
    }
}

/// What the first byte of a short entry says of its slot.
#[derive(Debug, Clone, Copy, PartialEq, Eq, Structural)]
pub enum DirEntryStatus {
    /// The first byte is 0xE5.
    Free,
    /// The first byte is 0: this slot and all after it are free.
    TailFree,
    /// The slot is in use.
    Occupied,
}

/// The status a slot whose first byte is `b` has.
pub open spec fn status_of(b: u8) -> DirEntryStatus {
    if b == 0xE5 {
        DirEntryStatus::Free
    } else if b == 0 {
        DirEntryStatus::TailFree
    } else {
        DirEntryStatus::Occupied
    }
}

/// `b` in upper case where it is an ASCII lower-case letter.
pub open spec fn ascii_upper(b: u8) -> u8 {
    if 0x61 <= b <= 0x7A { (b - 32) as u8 } else { b }
}

/// `b` in upper case where it is an ASCII lower-case letter.
pub fn to_ascii_upper(b: u8) -> (r: u8)
    ensures
        r == ascii_upper(b),
{
    if 0x61 <= b && b <= 0x7A { b - 32 } else { b }
}

/// The eleven name bytes derived from `bytes`: its first eleven bytes in
/// upper case, padded with zeros.
pub open spec fn short_name_of(bytes: Seq<u8>) -> Seq<u8> {
    Seq::new(11, |i: int| if i < bytes.len() { ascii_upper(bytes[i]) } else { 0u8 })
}

/// One step of the checksum: rotate `sum` right by one bit, add `b`.
pub open spec fn checksum_step(sum: u8, b: u8) -> u8 {
    (((if sum % 2 == 1 { 0x80int } else { 0int }) + sum / 2 + b) % 256) as u8
}

/// The checksum of name bytes `s`, folded from the left.
pub open spec fn checksum_fold(s: Seq<u8>) -> u8
    decreases s.len(),
{
    if s.len() == 0 {
        0
    } else {
        checksum_step(checksum_fold(s.drop_last()), s.last())
    }
}

/// The checksum that ties long entries to the short entry of the name `bytes`.
pub open spec fn spec_checksum(bytes: Seq<u8>) -> u8 {
    checksum_fold(short_name_of(bytes))
}

/// The name of the current directory's entry: `.` and ten zeros.
pub open spec fn cwd_name() -> Seq<u8> {
    seq![0x2Eu8] + Seq::new(10, |i: int| 0u8)
}

/// The name of the parent directory's entry: `..` and nine zeros.
pub open spec fn parent_name() -> Seq<u8> {
    seq![0x2Eu8, 0x2Eu8] + Seq::new(9, |i: int| 0u8)
}

/// A short directory entry.
#[derive(Debug, Clone, Copy)]
pub struct ShortDirEntry {
    pub name: [u8; 11],
    pub attr: u8,
    /// Reserved, 0.
    pub ntres: u8,
    pub crt_time_tenth: u8,
    pub crt_time: u16,
    pub crt_date: u16,
    pub lst_acc_date: u16,
    /// High half of the first cluster's number.
    pub fst_clus_hi: u16,
    pub wrt_time: u16,
    pub wrt_date: u16,
    /// Low half of the first cluster's number.
    pub fst_clus_lo: u16,
    /// Size in bytes of the file.
    pub file_size: u32,
}

impl Default for ShortDirEntry {
    fn default() -> (r: Self)
        ensures
            r.is_zero(),
    {
        let r = ShortDirEntry {
            name: [0u8; 11],
            attr: 0,
            ntres: 0,
            crt_time_tenth: 0,
            crt_time: 0,
            crt_date: 0,
            lst_acc_date: 0,
            fst_clus_hi: 0,
            wrt_time: 0,
            wrt_date: 0,
            fst_clus_lo: 0,
            file_size: 0,
        };
        assert(r.name@ =~= Seq::new(11, |i: int| 0u8));
        r
    }
}

impl ShortDirEntry {
    /// Bytes of the entry on disk.
    pub const SIZE: usize = 32;

    /// The fields besides the name, the attributes and the first cluster are zero.
    pub open spec fn rest_zero(&self) -> bool {
        &&& self.ntres == 0
        &&& self.crt_time_tenth == 0
        &&& self.crt_time == 0
        &&& self.crt_date == 0
        &&& self.lst_acc_date == 0
        &&& self.wrt_time == 0
        &&& self.wrt_date == 0
        &&& self.file_size == 0
    }

    /// Every field is zero.
    pub open spec fn is_zero(&self) -> bool {
        &&& self.rest_zero()
        &&& self.attr == 0
        &&& self.fst_clus_lo == 0
        &&& self.fst_clus_hi == 0
        &&& self.name@ == Seq::new(11, |i: int| 0u8)
    }

    /// The entry's bytes on disk.
    pub open spec fn spec_to_bytes(&self) -> Seq<u8> {
        self.name@ + seq![self.attr, self.ntres, self.crt_time_tenth] + le16(self.crt_time) + le16(self.crt_date)
            + le16(self.lst_acc_date) + le16(self.fst_clus_hi) + le16(self.wrt_time) + le16(self.wrt_date)
            + le16(self.fst_clus_lo) + spec_u32_to_le_bytes(self.file_size)
    }

    /// The entry's bytes on disk.
    pub fn to_bytes(&self) -> (r: Vec<u8>)
        ensures
            r@ == self.spec_to_bytes(),
            r@.len() == Self::SIZE,
    {
        proof { vstd::bytes::lemma_auto_spec_u32_to_from_le_bytes(); }
        let mut v: Vec<u8> = Vec::new();
        push_bytes(&mut v, self.name.as_slice());
        v.push(self.attr);
        v.push(self.ntres);
        v.push(self.crt_time_tenth);
        push_u16(&mut v, self.crt_time);
        push_u16(&mut v, self.crt_date);
        push_u16(&mut v, self.lst_acc_date);
        push_u16(&mut v, self.fst_clus_hi);
        push_u16(&mut v, self.wrt_time);
        push_u16(&mut v, self.wrt_date);
        push_u16(&mut v, self.fst_clus_lo);
        push_u32(&mut v, self.file_size);
        assert(v@ =~= self.spec_to_bytes());
        v
    }

    /// The entry stored in `bytes`.
    pub fn from_bytes(bytes: &[u8]) -> (r: Self)
        requires
            bytes@.len() == Self::SIZE,
        ensures
            r.spec_to_bytes() == bytes@,
    {
        let mut name = [0u8; 11];
        let mut i: usize = 0;
        while i < 11
            invariant
                bytes@.len() == 32,
                i <= 11,
                forall|k: int| 0 <= k < i ==> name@[k] == bytes@[k],
            decreases 11 - i,
        {
            name[i] = bytes[i];
            i = i + 1;
        }
        let r = ShortDirEntry {
            name,
            attr: bytes[11],
            ntres: bytes[12],
            crt_time_tenth: bytes[13],
            crt_time: u16_from(bytes, 14),
            crt_date: u16_from(bytes, 16),
            lst_acc_date: u16_from(bytes, 18),
            fst_clus_hi: u16_from(bytes, 20),
            wrt_time: u16_from(bytes, 22),
            wrt_date: u16_from(bytes, 24),
            fst_clus_lo: u16_from(bytes, 26),
            file_size: vstd::bytes::u32_from_le_bytes(&bytes[28..32]),
        };
        proof {
            vstd::bytes::lemma_auto_spec_u32_to_from_le_bytes();
            assert(bytes@.subrange(28, 32) =~= spec_u32_to_le_bytes(r.file_size));
            assert(r.spec_to_bytes() =~= bytes@);
        }
        r
    }

    /// A copy of this entry named `.`: the entry of a directory in itself.
    pub fn as_cwd(&self) -> (r: Self)
        ensures
            r == (ShortDirEntry { name: r.name, ..*self }),
            r.name@ == cwd_name(),
    {
        let mut cwd = *self;
        let mut name = [0u8; 11];
        name[0] = 0x2E;
        cwd.name = name;
        assert(cwd.name@ =~= cwd_name());
        cwd
    }

    /// The entry `..` of a directory whose parent starts at cluster `pid`;
    /// the root is written as cluster 0.
    pub fn new_parent(pid: ClusterId) -> (r: Self)
        ensures
            r.rest_zero(),
            r.attr == AttrFlag::Directory.spec_bits(),
            r.name@ == parent_name(),
            join_halves(r.fst_clus_lo, r.fst_clus_hi) == if pid.0 == 2 { 0 } else { pid.0 },
    {
        let mut dirent = Self::default();
        let pid = if pid.0 == ClusterId::min().0 { ClusterId::free() } else { pid };
        dirent.set_cluster_id(pid);
        dirent.attr = dirent.attr | AttrFlag::Directory.bits();
        let mut name = [0u8; 11];
        name[0] = 0x2E;
        name[1] = 0x2E;
        dirent.name = name;
        proof {
            assert(0u8 | 0x10u8 == 0x10u8) by (bit_vector);
            assert(dirent.name@ =~= parent_name());
        }
        dirent
    }

    /// Whether the attributes hold `flag`.
    pub open spec fn has(&self, flag: AttrFlag) -> bool {
        self.attr & flag.spec_bits() != 0
    }

    /// The entry's first cluster. A directory's `..` entry names the root
    /// as cluster 0; that reads as [`ClusterId::min`].
    pub open spec fn spec_cluster_id(&self) -> ClusterId {
        let raw = join_halves(self.fst_clus_lo, self.fst_clus_hi);
        if self.has(AttrFlag::Directory) && raw < 2 {
            ClusterId(2)
        } else {
            ClusterId(raw)
        }
    }

    /// The entry's first cluster.
    pub fn cluster_id(&self) -> (r: ClusterId)
        ensures
            r == self.spec_cluster_id(),
    {
        let id = ClusterId::from_halves(self.fst_clus_lo, self.fst_clus_hi);
        if self.attr & AttrFlag::Directory.bits() != 0 && id.0 < ClusterId::min().0 {
            ClusterId::min()
        } else {
            id
        }
    }

    /// Records `id` as the entry's first cluster.
    pub fn set_cluster_id(&mut self, id: ClusterId)
        ensures
            *final(self) == (ShortDirEntry {
                fst_clus_lo: final(self).fst_clus_lo,
                fst_clus_hi: final(self).fst_clus_hi,
                ..*old(self)
            }),
            join_halves(final(self).fst_clus_lo, final(self).fst_clus_hi) == id.0,
            final(self).fst_clus_lo == id.0 % 0x10000,
            final(self).fst_clus_hi == id.0 / 0x10000,
    {
        let (lo, hi) = id.split();
        self.fst_clus_lo = lo;
        self.fst_clus_hi = hi;
        proof { crate::fat::cluster::lemma_split_join(id); }
    }

    /// The checksum of the entry's name.
    pub fn checksum(&self) -> (r: u8)
        ensures
            r == spec_checksum(self.name@),
    {
        Self::checksum_from(self.name.as_slice())
    }

    /// The checksum of the short name derived from `bytes`.
    pub fn checksum_from(bytes: &[u8]) -> (r: u8)
        ensures
            r == spec_checksum(bytes@),
    {
        let mut arr = [0u8; 11];
        let mut i: usize = 0;
        while i < 11 && i < bytes.len()
            invariant
                i <= 11,
                i <= bytes@.len(),
                forall|k: int| 0 <= k < 11 ==> #[trigger] arr@[k] == if k < i { ascii_upper(bytes@[k]) } else { 0u8 },
            decreases 11 - i,
        {
            arr[i] = to_ascii_upper(bytes[i]);
            i = i + 1;
        }
        assert(arr@ =~= short_name_of(bytes@));
        let mut sum: u8 = 0;
        let mut j: usize = 0;
        while j < 11
            invariant
                j <= 11,
                arr@ == short_name_of(bytes@),
                sum == checksum_fold(arr@.take(j as int)),
            decreases 11 - j,
        {
            let high: u16 = if sum % 2 == 1 { 0x80 } else { 0 };
            let next = (high + (sum / 2) as u16 + arr[j] as u16) % 256;
            proof {
                assert(arr@.take(j + 1).drop_last() =~= arr@.take(j as int));
            }
            sum = next as u8;
            j = j + 1;
        }
        assert(arr@.take(11) =~= arr@);
        sum
    }

    /// A regular entry for `name` starting at cluster `id`: its name is
    /// `name`'s first eleven bytes, its attributes Archive.
    pub fn new_directory(name: &str, id: ClusterId) -> (r: Self)
        ensures
            r.rest_zero(),
            r.attr == AttrFlag::Archive.spec_bits(),
            r.name@ == Seq::new(11, |i: int| if i < name.spec_bytes().len() { name.spec_bytes()[i] } else { 0u8 }),
            join_halves(r.fst_clus_lo, r.fst_clus_hi) == id.0,
    {
        let mut dir_entry = ShortDirEntry::default();
        let bytes = name.as_bytes();
        let mut arr = [0u8; 11];
        let mut i: usize = 0;
        while i < 11 && i < bytes.len()
            invariant
                i <= 11,
                i <= bytes@.len(),
                bytes@ == name.spec_bytes(),
                forall|k: int| 0 <= k < 11 ==> #[trigger] arr@[k] == if k < i { bytes@[k] } else { 0u8 },
            decreases 11 - i,
        {
            arr[i] = bytes[i];
            i = i + 1;
        }
        dir_entry.name = arr;
        dir_entry.set_cluster_id(id);
        dir_entry.attr = dir_entry.attr | AttrFlag::Archive.bits();
        proof {
            assert(0u8 | 0x20u8 == 0x20u8) by (bit_vector);
            assert(dir_entry.name@ =~= Seq::new(11, |i: int| if i < name.spec_bytes().len() { name.spec_bytes()[i] } else { 0u8 }));
        }
        dir_entry
    }

    /// What the first name byte says of the slot.
    pub fn status(&self) -> (r: DirEntryStatus)
        ensures
            r == status_of(self.name@[0]),
    {
        if self.name[0] == 0xE5 {
            DirEntryStatus::Free
        } else if self.name[0] == 0 {
            DirEntryStatus::TailFree
        } else {
            DirEntryStatus::Occupied
        }
    }

    /// The file's size in bytes.
    pub fn size(&self) -> (r: usize)
        ensures
            r == self.file_size,
    {
        self.file_size as usize
    }

    /// Records `size` as the file's size; only its low 32 bits are kept.
    pub fn resize(&mut self, size: usize)
        ensures
            *final(self) == (ShortDirEntry { file_size: size as u32, ..*old(self) }),
    {
        self.file_size = size as u32;
    }

    /// Whether this is the `.` or the `..` entry of a directory.
    pub fn is_relative(&self) -> (r: bool)
        ensures
            r == (self.name@ == cwd_name() || self.name@ == parent_name()),
    {
        let mut rest_zero = true;
        let mut i: usize = 2;
        while i < 11
            invariant
                2 <= i <= 11,
                rest_zero == forall|k: int| 2 <= k < i ==> self.name@[k] == 0,
            decreases 11 - i,
        {
            rest_zero = rest_zero && self.name[i] == 0;
            i = i + 1;
        }
        let r = self.name[0] == 0x2E && rest_zero && (self.name[1] == 0 || self.name[1] == 0x2E);
        proof {
            if r {
                if self.name@[1] == 0 {
                    assert(self.name@ =~= cwd_name());
                } else {
                    assert(self.name@ =~= parent_name());
                }
            }
            if self.name@ == cwd_name() {
                assert(self.name@[0] == cwd_name()[0]);
                assert(self.name@[1] == cwd_name()[1]);
                assert forall|k: int| 2 <= k < 11 implies self.name@[k] == 0 by {
                    assert(self.name@[k] == cwd_name()[k]);
                }
            }
            if self.name@ == parent_name() {
                assert(self.name@[0] == parent_name()[0]);
                assert(self.name@[1] == parent_name()[1]);
                assert forall|k: int| 2 <= k < 11 implies self.name@[k] == 0 by {
                    assert(self.name@[k] == parent_name()[k]);
                }
            }
        }
        r
    }

    /// Renames the entry: its name becomes `name`'s first eleven bytes, in upper case.
    pub fn rename(&mut self, name: &str)
        ensures
            *final(self) == (ShortDirEntry { name: final(self).name, ..*old(self) }),
            final(self).name@ == short_name_of(name.spec_bytes()),
    {
        let bytes = name.as_bytes();
        let mut arr = [0u8; 11];
        let mut i: usize = 0;
        while i < 11 && i < bytes.len()
            invariant
                i <= 11,
                i <= bytes@.len(),
                bytes@ == name.spec_bytes(),
                forall|k: int| 0 <= k < 11 ==> #[trigger] arr@[k] == if k < i { ascii_upper(bytes@[k]) } else { 0u8 },
            decreases 11 - i,
        {
            arr[i] = to_ascii_upper(bytes[i]);
            i = i + 1;
        }
        self.name = arr;
        assert(self.name@ =~= short_name_of(name.spec_bytes()));
    }
}

/// The little-endian `u16` at byte `off` of `bytes`.
fn u16_from(bytes: &[u8], off: usize) -> (r: u16)
    requires
        off + 2 <= bytes@.len(),
    ensures
        le16(r) == bytes@.subrange(off as int, off + 2),
{
    let r = bytes[off] as u16 + 256 * bytes[off + 1] as u16;
    assert(le16(r) =~= bytes@.subrange(off as int, off + 2));
    r
}

/// A long directory entry: 26 bytes of a name.
#[derive(Debug, Clone, Copy)]
pub struct LongDirEntry {
    /// Position among the name's long entries, from 1; [`LongDirEntry::LAST_MASK`]
    /// marks the last.
    pub ord: u8,
    pub name1: [u8; 10],
    /// Always [`LongDirEntry::attr`].
    pub attr: u8,
    /// 0.
    pub ty: u8,
    /// Checksum of the short entry the name belongs to.
    pub chksum: u8,
    pub name2: [u8; 12],
    /// 0.
    pub fst_clus_lo: u16,
    pub name3: [u8; 4],
}

impl Default for LongDirEntry {
    fn default() -> (r: Self)
        ensures
            r.ord == 0,
            r.attr == 0x0F,
            r.ty == 0,
            r.chksum == 0,
            r.fst_clus_lo == 0,
            r.spec_name() == Seq::new(26, |i: int| 0u8),
    {
        let r = LongDirEntry {
            ord: 0,
            name1: [0u8; 10],
            attr: Self::attr(),
            ty: 0,
            chksum: 0,
            name2: [0u8; 12],
            fst_clus_lo: 0,
            name3: [0u8; 4],
        };
        assert(r.spec_name() =~= Seq::new(26, |i: int| 0u8));
        r
    }
}

impl LongDirEntry {
    /// Bytes of the entry on disk.
    pub const SIZE: usize = 32;

    /// Marks the long entry that holds the end of a name.
    pub const LAST_MASK: u8 = 0x40;

    /// Name bytes one long entry holds.
    pub const CAP: usize = 26;

    /// The attributes that mark an entry as long: ReadOnly, Hidden, System and VolumeID.
    pub fn attr() -> (r: u8)
        ensures
            r == 0x0F,
    {
        let r = AttrFlag::ReadOnly.bits() | AttrFlag::Hidden.bits() | AttrFlag::System.bits() | AttrFlag::VolumeID.bits();
        assert(0x01u8 | 0x02u8 | 0x04u8 | 0x08u8 == 0x0Fu8) by (bit_vector);
        r
    }

    /// The 26 name bytes the entry holds.
    pub open spec fn spec_name(&self) -> Seq<u8> {
        self.name1@ + self.name2@ + self.name3@
    }

    /// The entry's bytes on disk.
    pub open spec fn spec_to_bytes(&self) -> Seq<u8> {
        seq![self.ord] + self.name1@ + seq![self.attr, self.ty, self.chksum] + self.name2@ + le16(self.fst_clus_lo)
            + self.name3@
    }

    /// The entry's bytes on disk.
    pub fn to_bytes(&self) -> (r: Vec<u8>)
        ensures
            r@ == self.spec_to_bytes(),
            r@.len() == Self::SIZE,
    {
        let mut v: Vec<u8> = Vec::new();
        v.push(self.ord);
        push_bytes(&mut v, self.name1.as_slice());
        v.push(self.attr);
        v.push(self.ty);
        v.push(self.chksum);
        push_bytes(&mut v, self.name2.as_slice());
        push_u16(&mut v, self.fst_clus_lo);
        push_bytes(&mut v, self.name3.as_slice());
        assert(v@ =~= self.spec_to_bytes());
        v
    }

    /// The 26 name bytes the entry holds.
    pub fn name_bytes(&self) -> (r: Vec<u8>)
        ensures
            r@ == self.spec_name(),
    {
        let mut v: Vec<u8> = Vec::new();
        push_bytes(&mut v, self.name1.as_slice());
        push_bytes(&mut v, self.name2.as_slice());
        push_bytes(&mut v, self.name3.as_slice());
        v
    }

    /// The entry stored in `bytes`.
    pub fn from_bytes(bytes: &[u8]) -> (r: Self)
        requires
            bytes@.len() == Self::SIZE,
        ensures
            r.spec_to_bytes() == bytes@,
    {
        let mut name1 = [0u8; 10];
        let mut name2 = [0u8; 12];
        let mut name3 = [0u8; 4];
        let mut i: usize = 0;
        while i < 12
            invariant
                bytes@.len() == 32,
                i <= 12,
                forall|k: int| 0 <= k < i && k < 10 ==> name1@[k] == bytes@[1 + k],
                forall|k: int| 0 <= k < i ==> name2@[k] == bytes@[14 + k],
                forall|k: int| 0 <= k < i && k < 4 ==> name3@[k] == bytes@[28 + k],
            decreases 12 - i,
        {
            if i < 10 {
                name1[i] = bytes[1 + i];
            }
            name2[i] = bytes[14 + i];
            if i < 4 {
                name3[i] = bytes[28 + i];
            }
            i = i + 1;
        }
        let r = LongDirEntry {
            ord: bytes[0],
            name1,
            attr: bytes[11],
            ty: bytes[12],
            chksum: bytes[13],
            name2,
            fst_clus_lo: u16_from(bytes, 26),
            name3,
        };
        assert(r.spec_to_bytes() =~= bytes@);
        r
    }
}

/// Part `i` (from 0) of the name `name`: 26 of its bytes, zero-padded.
pub open spec fn name_part(name: Seq<u8>, i: int) -> Seq<u8> {
    Seq::new(26, |k: int| if 26 * i + k < name.len() { name[26 * i + k] } else { 0u8 })
}

/// Number of long entries a name of `len` bytes takes.
pub open spec fn long_count(len: int) -> int {
    (len + 25) / 26
}

/// The name bytes of `longs` in order, each entry's 26 in turn.
pub open spec fn longs_bytes(longs: Seq<LongDirEntry>) -> Seq<u8>
    decreases longs.len(),
{
    if longs.len() == 0 {
        Seq::empty()
    } else {
        longs_bytes(longs.drop_last()) + longs.last().spec_name()
    }
}

/// Copies `part` into a new long entry with ordinal `ord` and checksum `chksum`.
fn make_long(part: &[u8], ord: u8, chksum: u8) -> (r: LongDirEntry)
    requires
        part@.len() == 26,
    ensures
        r.ord == ord,
        r.chksum == chksum,
        r.attr == 0x0F,
        r.ty == 0,
        r.fst_clus_lo == 0,
        r.spec_name() == part@,
{
    let mut long = LongDirEntry::default();
    long.ord = ord;
    long.chksum = chksum;
    let mut i: usize = 0;
    while i < 12
        invariant
            part@.len() == 26,
            i <= 12,
            long.ord == ord,
            long.chksum == chksum,
            long.attr == 0x0F,
            long.ty == 0,
            long.fst_clus_lo == 0,
            forall|k: int| 0 <= k < i && k < 10 ==> long.name1@[k] == part@[k],
            forall|k: int| 0 <= k < i ==> long.name2@[k] == part@[10 + k],
            forall|k: int| 0 <= k < i && k < 4 ==> long.name3@[k] == part@[22 + k],
        decreases 12 - i,
    {
        if i < 10 {
            long.name1[i] = part[i];
        }
        long.name2[i] = part[10 + i];
        if i < 4 {
            long.name3[i] = part[22 + i];
        }
        i = i + 1;
    }
    assert(long.spec_name() =~= part@);
    long
}

/// The long entries for `bytes`, last part first, with checksum `chksum`.
fn longs_for(bytes: &[u8], chksum: u8) -> (r: Vec<LongDirEntry>)
    requires
        bytes@.len() > 0,
    ensures
        r@.len() == long_count(bytes@.len() as int),
        forall|j: int| 0 <= j < r@.len() ==> {
            let i = r@.len() - 1 - j;
            &&& (#[trigger] r@[j]).ord == (if j == 0 { ((i + 1) as u8) | 0x40 } else { (i + 1) as u8 })
            &&& r@[j].chksum == chksum
            &&& r@[j].attr == 0x0F
            &&& r@[j].ty == 0
            &&& r@[j].fst_clus_lo == 0
            &&& r@[j].spec_name() == name_part(bytes@, i)
        },
{
    let n = bytes.len() / 26 + if bytes.len() % 26 == 0 { 0 } else { 1 };
    assert(n == long_count(bytes@.len() as int));
    assert((n - 1) * 26 < bytes@.len());
    let mut parts: Vec<LongDirEntry> = Vec::new();
    let mut i: usize = 0;
    while i < n
        invariant
            n == long_count(bytes@.len() as int),
            (n - 1) * 26 < bytes@.len(),
            i <= n,
            parts@.len() == i,
            forall|p: int| 0 <= p < i ==> {
                &&& (#[trigger] parts@[p]).ord == (p + 1) as u8
                &&& parts@[p].chksum == chksum
                &&& parts@[p].attr == 0x0F
                &&& parts@[p].ty == 0
                &&& parts@[p].fst_clus_lo == 0
                &&& parts@[p].spec_name() == Seq::new(26, |k: int| if 26 * p + k < bytes@.len() { bytes@[26 * p + k] } else { 0u8 })
            },
        decreases n - i,
    {
        assert(26 * i < bytes@.len()) by (nonlinear_arith)
            requires
                i < n,
                (n - 1) * 26 < bytes@.len(),
        ;
        let mut part: Vec<u8> = Vec::new();
        let mut k: usize = 0;
        while k < 26
            invariant
                k <= 26,
                i < n,
                26 * i < bytes@.len(),
                part@ =~= Seq::new(k as nat, |q: int| if 26 * i + q < bytes@.len() { bytes@[26 * i + q] } else { 0u8 }),
            decreases 26 - k,
        {
            if k < bytes.len() - 26 * i {
                part.push(bytes[26 * i + k]);
            } else {
                part.push(0);
            }
            k = k + 1;
        }
        let long = make_long(part.as_slice(), (i + 1) as u8, chksum);
        parts.push(long);
        i = i + 1;
    }
    let mut r: Vec<LongDirEntry> = Vec::new();
    let mut j: usize = 0;
    while j < n
        invariant
            j <= n,
            parts@.len() == n,
            r@.len() == j,
            forall|q: int| 0 <= q < j ==> #[trigger] r@[q] == parts@[n - 1 - q],
        decreases n - j,
    {
        r.push(parts[n - 1 - j]);
        j = j + 1;
    }
    let mut first = r[0];
    first.ord = first.ord | LongDirEntry::LAST_MASK;
    r.set(0, first);
    r
}

/// The short entry and long entries of a new item named `name`: the short
/// entry is zero but for its name; the long entries come last part first.
pub fn name2dirents(name: &str) -> (r: (ShortDirEntry, Vec<LongDirEntry>))
    requires
        name.spec_bytes().len() > 0,
    ensures
        r.0.rest_zero(),
        r.0.attr == 0,
        r.0.fst_clus_lo == 0,
        r.0.fst_clus_hi == 0,
        r.0.name@ == short_name_of(name.spec_bytes()),
        r.1@.len() == long_count(name.spec_bytes().len() as int),
        forall|j: int| 0 <= j < r.1@.len() ==> {
            let i = r.1@.len() - 1 - j;
            &&& (#[trigger] r.1@[j]).ord == (if j == 0 { ((i + 1) as u8) | 0x40 } else { (i + 1) as u8 })
            &&& r.1@[j].chksum == spec_checksum(name.spec_bytes())
            &&& r.1@[j].chksum == spec_checksum(r.0.name@)
            &&& r.1@[j].attr == 0x0F
            &&& r.1@[j].ty == 0
            &&& r.1@[j].fst_clus_lo == 0
            &&& r.1@[j].spec_name() == name_part(name.spec_bytes(), i)
        },
{
    let mut short = ShortDirEntry::default();
    short.rename(name);
    let chksum = short.checksum();
    proof {
        let sn = short_name_of(name.spec_bytes());
        assert(short_name_of(sn) =~= sn) by {
            assert forall|i: int| 0 <= i < 11 implies ascii_upper(sn[i]) == sn[i] by {}
        }
    }
    let longs = longs_for(name.as_bytes(), chksum);
    (short, longs)
}

/// `short` renamed to `new_name`, with the long entries of the new name, last part first.
pub fn rename_dirents(short: &ShortDirEntry, new_name: &str) -> (r: (ShortDirEntry, Vec<LongDirEntry>))
    requires
        new_name.spec_bytes().len() > 0,
    ensures
        r.0 == (ShortDirEntry { name: r.0.name, ..*short }),
        r.0.name@ == short_name_of(new_name.spec_bytes()),
        r.1@.len() == long_count(new_name.spec_bytes().len() as int),
        forall|j: int| 0 <= j < r.1@.len() ==> {
            let i = r.1@.len() - 1 - j;
            &&& (#[trigger] r.1@[j]).ord == (if j == 0 { ((i + 1) as u8) | 0x40 } else { (i + 1) as u8 })
            &&& r.1@[j].chksum == spec_checksum(new_name.spec_bytes())
            &&& r.1@[j].chksum == spec_checksum(r.0.name@)
            &&& r.1@[j].attr == 0x0F
            &&& r.1@[j].ty == 0
            &&& r.1@[j].fst_clus_lo == 0
            &&& r.1@[j].spec_name() == name_part(new_name.spec_bytes(), i)
        },
{
    let mut short = *short;
    short.rename(new_name);
    let chksum = short.checksum();
    proof {
        let sn = short_name_of(new_name.spec_bytes());
        assert(short_name_of(sn) =~= sn) by {
            assert forall|i: int| 0 <= i < 11 implies ascii_upper(sn[i]) == sn[i] by {}
        }
    }
    let longs = longs_for(new_name.as_bytes(), chksum);
    (short, longs)
}

/// The name bytes the long entries `dirents` spell, taken in order: their
/// name bytes up to the first zero.
pub fn long_name_bytes(dirents: &[LongDirEntry]) -> (r: Vec<u8>)
    ensures
        r@ == name_prefix(longs_bytes(dirents@)),
{
    let mut bytes: Vec<u8> = Vec::new();
    let mut i: usize = 0;
    while i < dirents.len()
        invariant
            i <= dirents@.len(),
            bytes@ == longs_bytes(dirents@.take(i as int)),
        decreases dirents@.len() - i,
    {
        let part = dirents[i].name_bytes();
        proof {
            assert(dirents@.take(i + 1).drop_last() =~= dirents@.take(i as int));
        }
        push_bytes(&mut bytes, part.as_slice());
        i = i + 1;
    }
    assert(dirents@.take(dirents@.len() as int) =~= dirents@);
    let mut len: usize = 0;
    while len < bytes.len() && bytes[len] != 0
        invariant
            len <= bytes@.len(),
            forall|k: int| 0 <= k < len ==> bytes@[k] != 0,
        decreases bytes@.len() - len,
    {
        len = len + 1;
    }
    proof { lemma_prefix_upto(bytes@, len as int); }
    bytes.truncate(len);
    bytes
}

/// The name the long entries `dirents` spell, taken in order: their name
/// bytes up to the first zero.
pub fn dirents2name(dirents: &[LongDirEntry]) -> (r: String)
    requires
        valid_utf8(name_prefix(longs_bytes(dirents@))),
    ensures
        encode_utf8(r@) == name_prefix(longs_bytes(dirents@)),
{
    let bytes = long_name_bytes(dirents);
    match str_from_utf8(bytes.as_slice()) {
        Some(s) => s.to_owned(),
        None => {
            proof { assert(false); }
            String::new()
        },
    }
}

/// A short entry is 32 bytes on disk.
pub proof fn lemma_short_len(e: ShortDirEntry)
    ensures
        e.spec_to_bytes().len() == 32,
{
    vstd::bytes::lemma_auto_spec_u32_to_from_le_bytes();
}

/// The bytes before the first zero of `s` are its first `len`, when those
/// are not zero and the next one is or `s` ends there.
proof fn lemma_prefix_upto(s: Seq<u8>, len: int)
    requires
        0 <= len <= s.len(),
        forall|k: int| 0 <= k < len ==> s[k] != 0,
        len == s.len() || s[len] == 0,
    ensures
        name_prefix(s) == s.subrange(0, len),
    decreases len,
{
    if len == 0 {
        assert(s.subrange(0, 0) =~= Seq::<u8>::empty());
    } else {
        lemma_prefix_upto(s.drop_first(), len - 1);
        assert(s.subrange(0, len) =~= seq![s[0]] + s.drop_first().subrange(0, len - 1));
    }
}

/// The name bytes of the first `m` parts of `name`, in order, are `name`
/// padded with zeros to `26 * m` bytes.
proof fn lemma_parts_bytes(name: Seq<u8>, parts: Seq<LongDirEntry>, m: int)
    requires
        0 <= m <= parts.len(),
        forall|i: int| 0 <= i < parts.len() ==> (#[trigger] parts[i]).spec_name() == name_part(name, i),
    ensures
        longs_bytes(parts.take(m)) == Seq::new((26 * m) as nat, |k: int| if k < name.len() { name[k] } else { 0u8 }),
    decreases m,
{
    if m == 0 {
        assert(longs_bytes(parts.take(0)) =~= Seq::<u8>::empty());
    } else {
        lemma_parts_bytes(name, parts, m - 1);
        assert(parts.take(m).drop_last() =~= parts.take(m - 1));
        assert(parts.take(m).last() == parts[m - 1]);
        assert(longs_bytes(parts.take(m)) =~= Seq::new((26 * m) as nat, |k: int| if k < name.len() { name[k] } else { 0u8 }));
    }
}

/// A name survives its long entries: the long entries made for a name
/// without zero bytes, read back in name order, spell the name.
pub proof fn lemma_long_name_roundtrip(name: Seq<u8>, longs: Seq<LongDirEntry>)
    requires
        name.len() > 0,
        forall|k: int| 0 <= k < name.len() ==> name[k] != 0,
        longs.len() == long_count(name.len() as int),
        forall|j: int| 0 <= j < longs.len() ==> (#[trigger] longs[j]).spec_name() == name_part(name, longs.len() - 1 - j),
    ensures
        name_prefix(longs_bytes(longs.reverse())) == name,
{
    let parts = longs.reverse();
    let m = parts.len() as int;
    assert forall|i: int| 0 <= i < parts.len() implies (#[trigger] parts[i]).spec_name() == name_part(name, i) by {
        assert(parts[i] == longs[longs.len() - 1 - i]);
    }
    lemma_parts_bytes(name, parts, m);
    assert(parts.take(m) =~= parts);
    let all = Seq::new((26 * m) as nat, |k: int| if k < name.len() { name[k] } else { 0u8 });
    assert(name.len() <= 26 * m);
    lemma_prefix_upto(all, name.len() as int);
    assert(all.subrange(0, name.len() as int) =~= name);
}

/// Directory entries one sector holds.
pub fn sector_dirents() -> (r: usize)
    ensures
        r == BLOCK_SIZE / DIR_ENTRY_SIZE,
        r == 16,
{
    BLOCK_SIZE / ShortDirEntry::SIZE
}

} // verus!
