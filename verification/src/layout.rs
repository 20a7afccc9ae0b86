//! Little-endian encoding of sequences of 32-bit words, the unit of the
//! on-disk structures; and reading names stored as bytes.

use vstd::prelude::*;

use vstd::string::StringSliceAdditionalSpecFns;
use vstd::utf8::valid_utf8;

use vstd::bytes::{
    lemma_auto_spec_u32_to_from_le_bytes, spec_u32_from_le_bytes, spec_u32_to_le_bytes,
    u32_from_le_bytes, u32_to_le_bytes,
};

verus! {

/// The bytes of a string as UTF-8, when they are valid UTF-8.
#[verifier::external_body]
pub(crate) fn str_from_utf8(bytes: &[u8]) -> (r: Option<&str>)
    ensures
        match r {
            Some(s) => valid_utf8(bytes@) && s.spec_bytes() == bytes@,
            None => !valid_utf8(bytes@),
        },
{
    core::str::from_utf8(bytes).ok()
}


/// Whether `a` and `b` hold the same bytes.
pub fn same_bytes(a: &[u8], b: &[u8]) -> (r: bool)
    ensures
        r == (a@ == b@),
{
    if a.len() != b.len() {
        return false;
    }
    let mut i: usize = 0;
    while i < a.len()
        invariant
            a@.len() == b@.len(),
            i <= a@.len(),
            forall|k: int| 0 <= k < i ==> a@[k] == b@[k],
        decreases a@.len() - i,
    {
        if a[i] != b[i] {
            return false;
        }
        i = i + 1;
    }
    assert(a@ =~= b@);
    true
}

/// The little-endian `u32` at byte `off` of `s`.
pub open spec fn u32_at(s: Seq<u8>, off: int) -> u32 {
    spec_u32_from_le_bytes(s.subrange(off, off + 4))
}

/// The words `ws`, each as four little-endian bytes.
pub open spec fn words_to_bytes(ws: Seq<u32>) -> Seq<u8> {
    Seq::new(4 * ws.len(), |p: int| spec_u32_to_le_bytes(ws[p / 4])[p % 4])
}

/// Word `w` of an encoding reads back as the word that was encoded.
pub proof fn lemma_words_to_bytes(ws: Seq<u32>, w: int)
    requires
        0 <= w < ws.len(),
    ensures
        words_to_bytes(ws).subrange(4 * w, 4 * w + 4) == spec_u32_to_le_bytes(ws[w]),
        u32_at(words_to_bytes(ws), 4 * w) == ws[w],
{
    lemma_auto_spec_u32_to_from_le_bytes();
    let b = words_to_bytes(ws);
    assert forall|j: int| 0 <= j < 4 implies b.subrange(4 * w, 4 * w + 4)[j] == spec_u32_to_le_bytes(ws[w])[j] by {
        assert((4 * w + j) / 4 == w);
        assert((4 * w + j) % 4 == j);
    }
    assert(b.subrange(4 * w, 4 * w + 4) =~= spec_u32_to_le_bytes(ws[w]));
}

/// Every word of an encoding reads back as the word that was encoded.
pub proof fn lemma_words_roundtrip(ws: Seq<u32>)
    ensures
        words_to_bytes(ws).len() == 4 * ws.len(),
        forall|w: int| 0 <= w < ws.len() ==> #[trigger] u32_at(words_to_bytes(ws), 4 * w) == ws[w],
{
    assert forall|w: int| 0 <= w < ws.len() implies #[trigger] u32_at(words_to_bytes(ws), 4 * w) == ws[w] by {
        lemma_words_to_bytes(ws, w);
    }
}

/// Encodes `ws` as little-endian bytes.
pub fn encode_words(ws: &[u32]) -> (r: Vec<u8>)
    requires
        4 * ws@.len() <= usize::MAX,
    ensures
        r@ == words_to_bytes(ws@),
{
    proof { lemma_auto_spec_u32_to_from_le_bytes(); }
    let mut r: Vec<u8> = Vec::new();
    let mut i: usize = 0;
    while i < ws.len()
        invariant
            4 * ws@.len() <= usize::MAX,
            i <= ws@.len(),
            r@.len() == 4 * i,
            forall|p: int| 0 <= p < 4 * i ==> #[trigger] r@[p] == spec_u32_to_le_bytes(ws@[p / 4])[p % 4],
        decreases ws@.len() - i,
    {
        let b = u32_to_le_bytes(ws[i]);
        let mut j: usize = 0;
        while j < 4
            invariant
                i < ws@.len(),
                j <= 4,
                b@ == spec_u32_to_le_bytes(ws@[i as int]),
                b@.len() == 4,
                r@.len() == 4 * i + j,
                forall|p: int| 0 <= p < 4 * i + j ==> #[trigger] r@[p] == spec_u32_to_le_bytes(ws@[p / 4])[p % 4],
            decreases 4 - j,
        {
            let ghost p = 4 * i + j;
            r.push(b[j]);
            assert((p as int) / 4 == i as int);
            assert((p as int) % 4 == j as int);
            j = j + 1;
        }
        i = i + 1;
    }
    assert(r@ =~= words_to_bytes(ws@));
    r
}

/// Reads `n` little-endian words from the start of `bytes`.
pub fn decode_words(bytes: &[u8], n: usize) -> (r: Vec<u32>)
    requires
        4 * n <= bytes@.len(),
    ensures
        r@.len() == n,
        forall|w: int| 0 <= w < n ==> #[trigger] r@[w] == u32_at(bytes@, 4 * w),
{
    let mut r: Vec<u32> = Vec::new();
    let len = bytes.len();
    let mut i: usize = 0;
    while i < n
        invariant
            4 * n <= bytes@.len(),
            len == bytes@.len(),
            i <= n,
            r@.len() == i,
            forall|w: int| 0 <= w < i ==> #[trigger] r@[w] == u32_at(bytes@, 4 * w),
        decreases n - i,
    {
        let s = &bytes[4 * i..4 * i + 4];
        r.push(u32_from_le_bytes(s));
        i = i + 1;
    }
    r
}

} // verus!
