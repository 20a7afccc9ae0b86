//! Directory entries: a name and the inode it names, 32 bytes on disk.

use vstd::prelude::*;

use crate::layout::u32_at;
use vstd::bytes::{spec_u32_to_le_bytes, u32_from_le_bytes, u32_to_le_bytes};
use vstd::string::StringSliceAdditionalSpecFns;
use vstd::utf8::valid_utf8;
use crate::layout::str_from_utf8;

verus! {

/// Longest name, in bytes; one more byte is kept for the terminating zero.
pub const NAME_MAX_LEN: usize = 27;

/// The bytes of `raw` before its first zero byte.
pub open spec fn name_prefix(raw: Seq<u8>) -> Seq<u8>
    decreases raw.len(),
{
    if raw.len() == 0 || raw[0] == 0 {
        Seq::empty()
    } else {
        seq![raw[0]] + name_prefix(raw.drop_first())
    }
}

/// `s` padded with zero bytes to `n` bytes.
pub open spec fn pad_zero(s: Seq<u8>, n: nat) -> Seq<u8> {
    Seq::new(n, |i: int| if i < s.len() { s[i] } else { 0u8 })
}

/// Metadata of one item of a directory.
#[derive(Debug, Clone, Copy)]
pub struct DirEntry {
    /// The name, ended by a zero byte.
    name: [u8; 28],
    inode_id: u32,
}

impl DirEntry {
    /// Bytes of an entry on disk.
    pub const SIZE: usize = 32;

    /// The 28 name bytes, zero-padded.
    pub closed spec fn raw_name(&self) -> Seq<u8> {
        self.name@
    }

    pub closed spec fn spec_inode_id(&self) -> u32 {
        self.inode_id
    }

    /// The entry's name: its bytes up to the first zero.
    pub open spec fn spec_name(&self) -> Seq<u8> {
        name_prefix(self.raw_name())
    }

    /// The entry's bytes on disk: the name, then the inode number.
    pub open spec fn spec_to_bytes(&self) -> Seq<u8> {
        self.raw_name() + spec_u32_to_le_bytes(self.spec_inode_id())
    }

    /// An empty entry: no name, inode 0.
    pub fn empty() -> (r: Self)
        ensures
            r.raw_name() == Seq::new(28, |i: int| 0u8),
            r.spec_inode_id() == 0,
    {
        let r = DirEntry { name: [0u8; 28], inode_id: 0 };
        assert(r.name@ =~= Seq::new(28, |i: int| 0u8));
        r
    }

    /// An entry for inode `inode_id` under `name`.
    pub fn new(name: &str, inode_id: u32) -> (r: Self)
        requires
            name.spec_bytes().len() <= NAME_MAX_LEN,
        ensures
            r.raw_name() == pad_zero(name.spec_bytes(), 28),
            r.spec_inode_id() == inode_id,
    {
        let bytes = name.as_bytes();
        let mut raw = [0u8; 28];
        let mut i: usize = 0;
        while i < bytes.len()
            invariant
                bytes@ == name.spec_bytes(),
                bytes@.len() <= 28,
                i <= bytes@.len(),
                forall|k: int| 0 <= k < 28 ==> #[trigger] raw@[k] == if k < i { bytes@[k] } else { 0u8 },
            decreases bytes@.len() - i,
        {
            raw[i] = bytes[i];
            i = i + 1;
        }
        assert(raw@ =~= pad_zero(name.spec_bytes(), 28));
        DirEntry { name: raw, inode_id }
    }

    /// The name's bytes, up to the first zero byte.
    pub fn name_bytes(&self) -> (r: &[u8])
        ensures
            r@ == self.spec_name(),
    {
        let mut len: usize = 0;
        while len < 28 && self.name[len] != 0
            invariant
                len <= 28,
                forall|k: int| 0 <= k < len ==> self.name@[k] != 0,
            decreases 28 - len,
        {
            len = len + 1;
        }
        proof { lemma_name_prefix(self.name@, len as int); }
        &self.name.as_slice()[0..len]
    }

    /// The name as a string; the name must be valid UTF-8 and end with a zero byte.
    pub fn name(&self) -> (r: &str)
        requires
            self.raw_name().contains(0u8),
            valid_utf8(self.spec_name()),
        ensures
            r.spec_bytes() == self.spec_name(),
    {
        let bytes = self.name_bytes();
        match str_from_utf8(bytes) {
            Some(s) => s,
            None => {
                assert(false);
                ""
            },
        }
    }

    pub fn inode_id(&self) -> (r: u32)
        ensures
            r == self.spec_inode_id(),
    {
        self.inode_id
    }

    /// The entry's bytes on disk.
    pub fn as_bytes(&self) -> (r: Vec<u8>)
        ensures
            r@ == self.spec_to_bytes(),
            r@.len() == Self::SIZE,
    {
        let mut r: Vec<u8> = Vec::new();
        let mut i: usize = 0;
        while i < 28
            invariant
                i <= 28,
                r@ =~= self.name@.subrange(0, i as int),
            decreases 28 - i,
        {
            r.push(self.name[i]);
            i = i + 1;
        }
        let id = u32_to_le_bytes(self.inode_id);
        r.push(id[0]);
        r.push(id[1]);
        r.push(id[2]);
        r.push(id[3]);
        assert(r@ =~= self.spec_to_bytes());
        r
    }

    /// Reads an entry from its bytes on disk.
    pub fn from_bytes(bytes: &[u8]) -> (r: Self)
        requires
            bytes@.len() == Self::SIZE,
        ensures
            r.raw_name() == bytes@.subrange(0, 28),
            r.spec_inode_id() == u32_at(bytes@, 28),
    {
        let mut raw = [0u8; 28];
        let mut i: usize = 0;
        while i < 28
            invariant
                bytes@.len() == 32,
                i <= 28,
                forall|k: int| 0 <= k < i ==> #[trigger] raw@[k] == bytes@[k],
            decreases 28 - i,
        {
            raw[i] = bytes[i];
            i = i + 1;
        }
        assert(raw@ =~= bytes@.subrange(0, 28));
        DirEntry { name: raw, inode_id: u32_from_le_bytes(&bytes[28..32]) }
    }
}

/// The name ends where the first zero byte stands.
pub proof fn lemma_name_prefix(raw: Seq<u8>, len: int)
    requires
        0 <= len <= raw.len(),
        forall|k: int| 0 <= k < len ==> raw[k] != 0,
        len == raw.len() || raw[len] == 0,
    ensures
        name_prefix(raw) == raw.subrange(0, len),
    decreases len,
{
    if len > 0 {
        lemma_name_prefix(raw.drop_first(), len - 1);
        assert(name_prefix(raw) =~= raw.subrange(0, len));
    } else {
        assert(raw.subrange(0, 0) =~= Seq::<u8>::empty());
    }
}

} // verus!
