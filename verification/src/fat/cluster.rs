//! Cluster numbers: entries of the FAT and indices of the data area.

use vstd::prelude::*;

use vstd::std_specs::convert::FromSpecImpl;

verus! {

/// A cluster number. Its top four bits are reserved.
#[derive(Debug, Clone, Copy, PartialEq, Eq, Structural, Hash)]
pub struct ClusterId(pub u32);

/// Why a cluster number does not name a usable cluster.
#[derive(Debug, Clone, Copy, PartialEq, Eq, Structural)]
pub enum ClusterError {
    /// The cluster is not allocated.
    Free,
    /// The cluster is marked bad.
    Defective,
    /// The number is reserved.
    Reserved,
    /// The number marks the end of a chain.
    Eof,
}

/// The low 28 bits of a raw entry.
pub open spec fn mask28(raw: u32) -> u32 {
    raw & 0x0FFF_FFFF
}

/// The raw value of a number made of a low and a high half.
pub open spec fn join_halves(low: u16, high: u16) -> u32 {
    (high as u32 * 0x10000 + low as u32) as u32
}

impl ClusterId {
    /// An unallocated cluster.
    pub fn free() -> (r: Self)
        ensures
            r.0 == 0,
    {
        ClusterId(0)
    }

    /// The lowest usable cluster number.
    pub fn min() -> (r: Self)
        ensures
            r.0 == 2,
    {
        ClusterId(2)
    }

    /// The end of a chain.
    pub fn eof() -> (r: Self)
        ensures
            r.0 == 0xFFFF_FFFF,
    {
        ClusterId(0xFFFF_FFFF)
    }

    /// A bad cluster.
    pub fn bad() -> (r: Self)
        ensures
            r.0 == 0x0FFF_FFF7,
    {
        ClusterId(0x0FFF_FFF7)
    }

    /// The number stored in a FAT entry: its low 28 bits.
    pub fn new(raw: u32) -> (r: Self)
        ensures
            r.0 == mask28(raw),
    {
        ClusterId(raw & 0x0FFF_FFFF)
    }

    /// Whether the number names no usable cluster: below [`ClusterId::MIN`]
    /// or reserved. The highest usable number depends on the FAT and is not checked.
    pub fn is_unavailable(&self) -> (r: bool)
        ensures
            r == (self.0 < 2 || (0x0FFF_FFF8 <= self.0 && self.0 <= 0x0FFF_FFFE)),
    {
        self.0 < 2 || (0x0FFF_FFF8 <= self.0 && self.0 <= 0x0FFF_FFFE)
    }

    /// The number itself when it names a usable cluster, else why not.
    pub fn validate(self) -> (r: Result<Self, ClusterError>)
        ensures
            r == spec_validate(self),
    {
        if self == Self::free() {
            Err(ClusterError::Free)
        } else if self == Self::bad() {
            Err(ClusterError::Defective)
        } else if self == Self::eof() {
            Err(ClusterError::Eof)
        } else if self.is_unavailable() {
            Err(ClusterError::Reserved)
        } else {
            Ok(self)
        }
    }

    /// Distance between two numbers.
    pub fn abs_diff(&self, other: Self) -> (r: usize)
        ensures
            r == if self.0 >= other.0 { self.0 - other.0 } else { other.0 - self.0 },
    {
        if self.0 >= other.0 {
            (self.0 - other.0) as usize
        } else {
            (other.0 - self.0) as usize
        }
    }

    /// Splits into `(low, high)` halves.
    pub fn split(self) -> (r: (u16, u16))
        ensures
            r.0 == self.0 % 0x10000,
            r.1 == self.0 / 0x10000,
    {
        let low = self.0 & 0xFFFF;
        let high = self.0 >> 16;
        proof {
            let x = self.0;
            assert(x & 0xFFFF == x % 0x10000) by (bit_vector);
            assert(x >> 16 == x / 0x10000) by (bit_vector);
        }
        (low as u16, high as u16)
    }

    /// The number whose halves are `low` and `high`.
    pub fn from_halves(low: u16, high: u16) -> (r: Self)
        ensures
            r.0 == join_halves(low, high),
    {
        let h: u32 = high as u32;
        let shifted: u32 = h << 16;
        proof {
            assert((h << 16) == h * 0x10000) by (bit_vector)
                requires
                    h < 0x10000,
            ;
        }
        ClusterId(shifted + low as u32)
    }

    /// The difference of two numbers.
    pub fn sub(self, rhs: Self) -> (r: Self)
        requires
            self.0 >= rhs.0,
        ensures
            r.0 == self.0 - rhs.0,
    {
        ClusterId(self.0 - rhs.0)
    }
}

/// What [`ClusterId::validate`] answers.
pub open spec fn spec_validate(id: ClusterId) -> Result<ClusterId, ClusterError> {
    if id.0 == 0 {
        Err(ClusterError::Free)
    } else if id.0 == 0x0FFF_FFF7 {
        Err(ClusterError::Defective)
    } else if id.0 == 0xFFFF_FFFF {
        Err(ClusterError::Eof)
    } else if id.0 < 2 || (0x0FFF_FFF8 <= id.0 && id.0 <= 0x0FFF_FFFE) {
        Err(ClusterError::Reserved)
    } else {
        Ok(id)
    }
}

impl From<u32> for ClusterId {
    fn from(raw: u32) -> (r: Self) {
        ClusterId(raw & 0x0FFF_FFFF)
    }
}

impl FromSpecImpl<u32> for ClusterId {
    open spec fn obeys_from_spec() -> bool {
        true
    }

    open spec fn from_spec(raw: u32) -> Self {
        ClusterId(mask28(raw))
    }
}

impl From<ClusterId> for u32 {
    fn from(id: ClusterId) -> (r: Self) {
        id.0
    }
}

impl FromSpecImpl<ClusterId> for u32 {
    open spec fn obeys_from_spec() -> bool {
        true
    }

    open spec fn from_spec(id: ClusterId) -> Self {
        id.0
    }
}

impl From<ClusterId> for u64 {
    fn from(id: ClusterId) -> (r: Self) {
        id.0 as u64
    }
}

impl FromSpecImpl<ClusterId> for u64 {
    open spec fn obeys_from_spec() -> bool {
        true
    }

    open spec fn from_spec(id: ClusterId) -> Self {
        id.0 as u64
    }
}

impl From<ClusterId> for usize {
    fn from(id: ClusterId) -> (r: Self) {
        id.0 as usize
    }
}

impl FromSpecImpl<ClusterId> for usize {
    open spec fn obeys_from_spec() -> bool {
        true
    }

    open spec fn from_spec(id: ClusterId) -> Self {
        id.0 as usize
    }
}

impl From<usize> for ClusterId {
    fn from(raw: usize) -> (r: Self) {
        ClusterId((raw as u32) & 0x0FFF_FFFF)
    }
}

impl FromSpecImpl<usize> for ClusterId {
    open spec fn obeys_from_spec() -> bool {
        true
    }

    open spec fn from_spec(raw: usize) -> Self {
        ClusterId(mask28(raw as u32))
    }
}

impl From<(u16, u16)> for ClusterId {
    fn from(halves: (u16, u16)) -> (r: Self) {
        ClusterId::from_halves(halves.0, halves.1)
    }
}

impl FromSpecImpl<(u16, u16)> for ClusterId {
    open spec fn obeys_from_spec() -> bool {
        true
    }

    open spec fn from_spec(halves: (u16, u16)) -> Self {
        ClusterId(join_halves(halves.0, halves.1))
    }
}

/// Splitting a number and joining the halves gives the number back.
pub proof fn lemma_split_join(id: ClusterId)
    ensures
        join_halves((id.0 % 0x10000) as u16, (id.0 / 0x10000) as u16) == id.0,
{
}

/// Masking a number twice is masking it once.
pub proof fn lemma_mask_idempotent(raw: u32)
    ensures
        mask28(mask28(raw)) == mask28(raw),
{
    assert((raw & 0x0FFF_FFFF) & 0x0FFF_FFFF == raw & 0x0FFF_FFFF) by (bit_vector);
}

} // verus!
