//! Allocation bitmaps: each bit of a run of blocks records whether one
//! entry of the region it describes is in use.

use vstd::prelude::*;

use crate::block_cache::{splice, BlockCacheManager};
use crate::block_dev::{blocks_wf, BlockDevice};
use crate::{BLOCK_BITS, BLOCK_SIZE};
use vstd::arithmetic::div_mod::lemma_fundamental_div_mod_converse;
use vstd::bytes::{lemma_auto_spec_u64_to_from_le_bytes, spec_u64_from_le_bytes, spec_u64_to_le_bytes};
use vstd::std_specs::bits::{axiom_u64_trailing_zeros, u64_trailing_zeros};

verus! {

/// The 64-bit group `g` of a bitmap block, read little-endian.
pub open spec fn block_word(block: Seq<u8>, g: int) -> u64 {
    spec_u64_from_le_bytes(block.subrange(g * 8, g * 8 + 8))
}

/// Whether bit `k` of the bitmap that starts at block `start` is set.
pub open spec fn bitmap_bit(view: Seq<Seq<u8>>, start: int, k: int) -> bool {
    let word = block_word(view[start + k / (BLOCK_BITS as int)], (k % (BLOCK_BITS as int)) / 64);
    (word >> ((k % 64) as u64)) & 1 == 1
}

/// The blocks after group `g` of block `blk` is replaced by the word `w`.
pub open spec fn set_word(view: Seq<Seq<u8>>, blk: int, g: int, w: u64) -> Seq<Seq<u8>> {
    view.update(blk, splice(view[blk], g * 8, spec_u64_to_le_bytes(w)))
}

/// Bit `k` lies in group `g` of block `b` of the bitmap.
pub open spec fn bit_in_group(k: int, b: int, g: int) -> bool {
    k / (BLOCK_BITS as int) == b && (k % (BLOCK_BITS as int)) / 64 == g
}

/// The position `b * BLOCK_BITS + g * 64 + j` splits back into `b`, `g` and `j`.
pub proof fn lemma_bit_position(b: int, g: int, j: int)
    requires
        b >= 0,
        0 <= g < 64,
        0 <= j < 64,
    ensures
        ({
            let k = b * (BLOCK_BITS as int) + g * 64 + j;
            &&& k / (BLOCK_BITS as int) == b
            &&& (k % (BLOCK_BITS as int)) / 64 == g
            &&& k % 64 == j
        }),
{
    let k = b * (BLOCK_BITS as int) + g * 64 + j;
    lemma_fundamental_div_mod_converse(k, (BLOCK_BITS as int), b, g * 64 + j);
    lemma_fundamental_div_mod_converse(g * 64 + j, 64, g, j);
    lemma_fundamental_div_mod_converse(k, 64, b * 64 + g, j);
}

/// Writing one word of a bitmap block changes exactly the 64 bits of that word.
pub proof fn lemma_set_word_bits(view: Seq<Seq<u8>>, start: int, b: int, g: int, w: u64, k: int)
    requires
        blocks_wf(view),
        0 <= start,
        0 <= b,
        start + b < view.len(),
        0 <= g < 64,
        0 <= k,
        start + k / (BLOCK_BITS as int) < view.len(),
    ensures
        bitmap_bit(set_word(view, start + b, g, w), start, k) == if bit_in_group(k, b, g) {
            (w >> ((k % 64) as u64)) & 1 == 1
        } else {
            bitmap_bit(view, start, k)
        },
{
    let nv = set_word(view, start + b, g, w);
    let kb = k / (BLOCK_BITS as int);
    let kg = (k % (BLOCK_BITS as int)) / 64;
    lemma_auto_spec_u64_to_from_le_bytes();
    assert(view[start + b].len() == BLOCK_SIZE);
    if kb == b {
        let old_block = view[start + b];
        let new_block = nv[start + b];
        assert(new_block.len() == BLOCK_SIZE);
        if kg == g {
            assert(new_block.subrange(g * 8, g * 8 + 8) =~= spec_u64_to_le_bytes(w));
        } else {
            assert(new_block.subrange(kg * 8, kg * 8 + 8) =~= old_block.subrange(kg * 8, kg * 8 + 8));
        }
    }
}

/// Setting bit `j` of a word changes no other bit.
proof fn lemma_or_bit(w: u64, j: u64, i: u64)
    requires
        j < 64,
        i < 64,
    ensures
        ((w | (1u64 << j)) >> i) & 1 == if i == j { 1 } else { (w >> i) & 1 },
{
    assert(((w | (1u64 << j)) >> i) & 1 == if i == j { 1u64 } else { (w >> i) & 1 }) by (bit_vector)
        requires
            j < 64,
            i < 64,
    ;
}

/// Removing a set bit `j` from a word clears it and changes no other bit.
proof fn lemma_sub_bit(w: u64, j: u64, i: u64)
    requires
        j < 64,
        i < 64,
        (w >> j) & 1 == 1,
    ensures
        w >= (1u64 << j),
        ((w - (1u64 << j)) as u64 >> i) & 1 == if i == j { 0 } else { (w >> i) & 1 },
{
    assert(w >= (1u64 << j)) by (bit_vector)
        requires
            j < 64,
            (w >> j) & 1 == 1,
    ;
    assert((((w - (1u64 << j)) as u64) >> i) & 1 == if i == j { 0u64 } else { (w >> i) & 1 }) by (bit_vector)
        requires
            j < 64,
            i < 64,
            (w >> j) & 1 == 1,
    ;
}

/// A word that is not all ones has its lowest clear bit at `trailing_ones`.
proof fn lemma_trailing_ones(w: u64)
    requires
        w != u64::MAX,
    ensures
        u64_trailing_zeros(!w) < 64,
        (w >> (u64_trailing_zeros(!w) as u64)) & 1 == 0,
        forall|i: u64| i < u64_trailing_zeros(!w) ==> #[trigger] ((w >> i) & 1) == 1,
{
    let nw: u64 = !w;
    assert(nw != 0) by (bit_vector)
        requires
            w != u64::MAX,
            nw == !w,
    ;
    axiom_u64_trailing_zeros(nw);
    let t = u64_trailing_zeros(nw) as u64;
    assert((nw >> t) & 1 == 1);
    assert((w >> t) & 1 == 0) by (bit_vector)
        requires
            (nw >> t) & 1 == 1,
            nw == !w,
    ;
    assert forall|i: u64| i < u64_trailing_zeros(!w) implies #[trigger] ((w >> i) & 1) == 1 by {
        assert((nw >> i) & 1 == 0);
        assert((w >> i) & 1 == 1) by (bit_vector)
            requires
                (nw >> i) & 1 == 0,
                nw == !w,
                i < 64,
        ;
    }
}

/// A bitmap region: `blocks` blocks starting at block `start_block_id`,
/// one bit per entry of the region it describes.
#[derive(Debug)]
pub struct Bitmap {
    /// First block of the bitmap.
    start_block_id: usize,
    /// Number of blocks it occupies.
    blocks: usize,
}

/// A bit's place in a bitmap, as one number.
struct BlockID(u32);

impl BlockID {
    /// Joins a block index, a group within the block and a bit within the group.
    fn encode(block_index: usize, group_index: usize, ingroup_index: usize) -> (r: u32)
        requires
            group_index < 64,
            ingroup_index < 64,
            block_index * BLOCK_BITS + group_index * 64 + ingroup_index <= u32::MAX,
        ensures
            r == block_index * BLOCK_BITS + group_index * 64 + ingroup_index,
    {
        (block_index * BLOCK_BITS + group_index * 64 + ingroup_index) as u32
    }

    /// Splits the number back into block index, group and bit.
    fn decode(self) -> (r: (usize, usize, usize))
        ensures
            r.0 == self.0 / (BLOCK_BITS as u32),
            r.1 == (self.0 % (BLOCK_BITS as u32)) / 64,
            r.2 == self.0 % 64,
            r.1 < 64,
            r.2 < 64,
    {
        let mut block_id = self.0 as usize;
        let block_index = block_id / BLOCK_BITS;
        block_id = block_id % BLOCK_BITS;
        (block_index, block_id / 64, block_id % 64)
    }
}

impl Bitmap {
    pub closed spec fn start(&self) -> nat {
        self.start_block_id as nat
    }

    pub closed spec fn block_count(&self) -> nat {
        self.blocks as nat
    }

    /// Number of entries the bitmap can describe.
    pub open spec fn spec_capacity(&self) -> nat {
        self.block_count() * BLOCK_BITS as nat
    }

    /// The bitmap fits in a view of `len` blocks and its entries are numbered by `u32`.
    pub open spec fn fits(&self, len: nat) -> bool {
        &&& self.start() + self.block_count() <= len
        &&& self.start() + self.block_count() <= usize::MAX
        &&& self.spec_capacity() <= u32::MAX as nat + 1
    }

    /// Whether entry `k` is marked as in use in `view`.
    pub open spec fn is_set(&self, view: Seq<Seq<u8>>, k: int) -> bool {
        bitmap_bit(view, self.start() as int, k)
    }

    /// `view` with entry `k` marked as in use.
    pub open spec fn with_bit_set(&self, view: Seq<Seq<u8>>, k: int) -> Seq<Seq<u8>> {
        let blk = self.start() + k / (BLOCK_BITS as int);
        let g = (k % (BLOCK_BITS as int)) / 64;
        set_word(view, blk, g, block_word(view[blk], g) | (1u64 << ((k % 64) as u64)))
    }

    /// `view` with entry `k` marked as free.
    pub open spec fn with_bit_cleared(&self, view: Seq<Seq<u8>>, k: int) -> Seq<Seq<u8>> {
        let blk = self.start() + k / (BLOCK_BITS as int);
        let g = (k % (BLOCK_BITS as int)) / 64;
        set_word(view, blk, g, (block_word(view[blk], g) - (1u64 << ((k % 64) as u64))) as u64)
    }

    pub fn new(start_block_id: usize, blocks: usize) -> (b: Self)
        ensures
            b.start() == start_block_id,
            b.block_count() == blocks,
    {
        Bitmap { start_block_id, blocks }
    }

    /// Number of entries the bitmap can describe.
    pub fn capacity(&self) -> (c: usize)
        requires
            self.block_count() * BLOCK_BITS <= usize::MAX,
        ensures
            c == self.spec_capacity(),
    {
        self.blocks * BLOCK_BITS
    }

    /// Marks the lowest free entry as used and returns it; `None` when
    /// every entry is in use.
    pub fn allocate<D: BlockDevice>(&self, cache: &mut BlockCacheManager<D>) -> (r: Option<u32>)
        requires
            old(cache).wf(),
            self.fits(old(cache)@.len()),
        ensures
            final(cache).wf(),
            final(cache).device_blocks().len() == old(cache).device_blocks().len(),
            match r {
                None => {
                    &&& final(cache)@ == old(cache)@
                    &&& forall|k: int| 0 <= k < self.spec_capacity() ==> #[trigger] self.is_set(old(cache)@, k)
                },
                Some(k) => {
                    &&& k < self.spec_capacity()
                    &&& !self.is_set(old(cache)@, k as int)
                    &&& forall|j: int| 0 <= j < k ==> #[trigger] self.is_set(old(cache)@, j)
                    &&& self.is_set(final(cache)@, k as int)
                    &&& forall|j: int| 0 <= j < self.spec_capacity() && j != k ==>
                        #[trigger] self.is_set(final(cache)@, j) == self.is_set(old(cache)@, j)
                    &&& final(cache)@ == self.with_bit_set(old(cache)@, k as int)
                },
            },
    {
        proof { cache.lemma_wf_view(); }
        let mut block_index: usize = 0;
        while block_index < self.blocks
            invariant
                cache.wf(),
                cache@ == old(cache)@,
                cache.device_blocks().len() == old(cache).device_blocks().len(),
                blocks_wf(cache@),
                self.fits(cache@.len()),
                block_index <= self.blocks,
                forall|k: int| 0 <= k < block_index * BLOCK_BITS ==> #[trigger] self.is_set(cache@, k),
            decreases self.blocks - block_index,
        {
            let mut group_index: usize = 0;
            while group_index < 64
                invariant
                    cache.wf(),
                    cache@ == old(cache)@,
                    cache.device_blocks().len() == old(cache).device_blocks().len(),
                    blocks_wf(cache@),
                    self.fits(cache@.len()),
                    block_index < self.blocks,
                    group_index <= 64,
                    forall|k: int| 0 <= k < block_index * BLOCK_BITS + group_index * 64 ==> #[trigger] self.is_set(cache@, k),
                decreases 64 - group_index,
            {
                let blk = self.start_block_id + block_index;
                let bits = cache.read_u64(blk, group_index * 8);
                assert(bits == block_word(cache@[blk as int], group_index as int));
                if bits != u64::MAX {
                    let ingroup_index = bits.trailing_ones();
                    proof { lemma_trailing_ones(bits); }
                    let ghost v0 = cache@;
                    let new_bits = bits | (1u64 << ingroup_index);
                    cache.write_u64(blk, group_index * 8, new_bits);
                    let k = BlockID::encode(block_index, group_index, ingroup_index as usize);
                    proof {
                        let t = ingroup_index as int;
                        lemma_bit_position(block_index as int, group_index as int, t);
                        assert(cache@ == set_word(v0, blk as int, group_index as int, new_bits));
                        assert forall|j: int| 0 <= j < k implies #[trigger] self.is_set(v0, j) by {
                            if j >= block_index * BLOCK_BITS + group_index * 64 {
                                let jj = j - (block_index * BLOCK_BITS + group_index * 64);
                                lemma_bit_position(block_index as int, group_index as int, jj);
                                assert(((bits >> (jj as u64)) & 1) == 1);
                            }
                        }
                        assert forall|j: int| 0 <= j < self.spec_capacity() implies
                            #[trigger] self.is_set(cache@, j) == if j == k { true } else { self.is_set(v0, j) } by {
                            lemma_set_word_bits(v0, self.start() as int, block_index as int, group_index as int, new_bits, j);
                            if bit_in_group(j, block_index as int, group_index as int) {
                                let jj = j % 64;
                                lemma_bit_position(block_index as int, group_index as int, jj);
                                lemma_or_bit(bits, ingroup_index as u64, jj as u64);
                                assert(j == block_index * BLOCK_BITS + group_index * 64 + jj) by {
                                    vstd::arithmetic::div_mod::lemma_fundamental_div_mod(j, (BLOCK_BITS as int));
                                    vstd::arithmetic::div_mod::lemma_fundamental_div_mod(j % (BLOCK_BITS as int), 64);
                                    vstd::arithmetic::div_mod::lemma_mod_mod(j, 64, 64);
                                    lemma_mod_split(j);
                                }
                            } else {
                                if j == k {
                                    assert(bit_in_group(j, block_index as int, group_index as int));
                                }
                            }
                        }
                    }
                    return Some(k);
                }
                proof {
                    assert forall|k: int| 0 <= k < block_index * BLOCK_BITS + (group_index + 1) * 64 implies #[trigger] self.is_set(cache@, k) by {
                        if k >= block_index * BLOCK_BITS + group_index * 64 {
                            let jj = k - (block_index * BLOCK_BITS + group_index * 64);
                            lemma_bit_position(block_index as int, group_index as int, jj);
                            assert(bits == u64::MAX);
                            let jb = jj as u64;
                            assert((u64::MAX >> jb) & 1 == 1) by (bit_vector)
                                requires
                                    jb < 64,
                            ;
                        }
                    }
                }
                group_index = group_index + 1;
            }
            block_index = block_index + 1;
        }
        None
    }
}

impl Bitmap {
    /// Marks entry `block_id`, which must be in use, as free.
    pub fn dealloc<D: BlockDevice>(&self, cache: &mut BlockCacheManager<D>, block_id: u32)
        requires
            old(cache).wf(),
            self.fits(old(cache)@.len()),
            block_id < self.spec_capacity(),
            self.is_set(old(cache)@, block_id as int),
        ensures
            final(cache).wf(),
            final(cache).device_blocks().len() == old(cache).device_blocks().len(),
            final(cache)@ == self.with_bit_cleared(old(cache)@, block_id as int),
            !self.is_set(final(cache)@, block_id as int),
            forall|j: int| 0 <= j < self.spec_capacity() && j != block_id ==>
                #[trigger] self.is_set(final(cache)@, j) == self.is_set(old(cache)@, j),
    {
        proof { cache.lemma_wf_view(); }
        let (block_index, group_index, ingroup_index) = BlockID(block_id).decode();
        let ghost k = block_id as int;
        proof {
            lemma_mod_split(k);
            vstd::arithmetic::div_mod::lemma_div_is_ordered(k, self.spec_capacity() as int, BLOCK_BITS as int);
            vstd::arithmetic::div_mod::lemma_div_by_multiple(self.block_count() as int, BLOCK_BITS as int);
        }
        let blk = self.start_block_id + block_index;
        let bits = cache.read_u64(blk, group_index * 8);
        let ghost v0 = cache@;
        proof {
            lemma_sub_bit(bits, ingroup_index as u64, 0);
        }
        let new_bits = bits - (1u64 << ingroup_index as u64);
        cache.write_u64(blk, group_index * 8, new_bits);
        proof {
            assert forall|j: int| 0 <= j < self.spec_capacity() implies
                #[trigger] self.is_set(cache@, j) == if j == k { false } else { self.is_set(v0, j) } by {
                vstd::arithmetic::div_mod::lemma_div_is_ordered(j, self.spec_capacity() as int, BLOCK_BITS as int);
                lemma_set_word_bits(v0, self.start() as int, block_index as int, group_index as int, new_bits, j);
                if bit_in_group(j, block_index as int, group_index as int) {
                    lemma_mod_split(j);
                    lemma_sub_bit(bits, ingroup_index as u64, (j % 64) as u64);
                }
            }
        }
    }
}

/// `j` splits into its block, group and bit.
proof fn lemma_mod_split(j: int)
    requires
        j >= 0,
    ensures
        j == (j / (BLOCK_BITS as int)) * (BLOCK_BITS as int) + ((j % (BLOCK_BITS as int)) / 64) * 64 + j % 64,
{
    let b = j / (BLOCK_BITS as int);
    let r = j % (BLOCK_BITS as int);
    vstd::arithmetic::div_mod::lemma_fundamental_div_mod(j, (BLOCK_BITS as int));
    vstd::arithmetic::div_mod::lemma_fundamental_div_mod(r, 64);
    lemma_fundamental_div_mod_converse(j, 64, b * 64 + r / 64, r % 64);
}

/// Freeing an entry right after taking it gives the bitmap back as it was:
/// [`Bitmap::dealloc`] undoes [`Bitmap::allocate`].
pub proof fn lemma_dealloc_undoes_alloc(bm: Bitmap, view: Seq<Seq<u8>>, k: int)
    requires
        blocks_wf(view),
        bm.fits(view.len()),
        0 <= k < bm.spec_capacity(),
        !bm.is_set(view, k),
    ensures
        bm.with_bit_cleared(bm.with_bit_set(view, k), k) == view,
{
    lemma_auto_spec_u64_to_from_le_bytes();
    let blk = bm.start() + k / (BLOCK_BITS as int);
    let g = (k % (BLOCK_BITS as int)) / 64;
    let j = (k % 64) as u64;
    vstd::arithmetic::div_mod::lemma_div_is_ordered(k, bm.spec_capacity() as int, BLOCK_BITS as int);
    vstd::arithmetic::div_mod::lemma_div_by_multiple(bm.block_count() as int, BLOCK_BITS as int);
    assert(0 <= g < 64);
    let b = view[blk];
    assert(b.len() == BLOCK_SIZE);
    let w = block_word(b, g);
    let bit = 1u64 << j;
    assert(j < 64);
    assert((w >> j) & 1 != 1);
    assert((w | bit) - bit == w) by (bit_vector)
        requires
            j < 64,
            (w >> j) & 1 != 1,
            bit == 1u64 << j,
    ;
    let v1 = bm.with_bit_set(view, k);
    let b1 = splice(b, g * 8, spec_u64_to_le_bytes(w | bit));
    assert(v1[blk] == b1);
    assert(b1.subrange(g * 8, g * 8 + 8) =~= spec_u64_to_le_bytes(w | bit));
    assert(block_word(v1[blk], g) == w | bit);
    let v2 = bm.with_bit_cleared(v1, k);
    assert(v2[blk] == splice(b1, g * 8, spec_u64_to_le_bytes(w)));
    assert(spec_u64_to_le_bytes(w) =~= b.subrange(g * 8, g * 8 + 8));
    assert(splice(b1, g * 8, spec_u64_to_le_bytes(w)) =~= b);
    assert(v2 =~= view);
}

} // verus!
