//! Framing of the decoder's raw PCM stream.
//!
//! The decoder writes 32-bit little-endian float samples.  This module cuts
//! the byte stream into 4-byte samples and reads each as the 32-bit word
//! that holds the sample's bits; a trailing partial sample is dropped.
use vstd::prelude::*;

verus! {

/// The little-endian 32-bit word of four bytes.
pub open spec fn le_word(b0: u8, b1: u8, b2: u8, b3: u8) -> int {
    b0 + 256 * b1 + 65536 * b2 + 16777216 * b3
}

/// The word of sample `i` of a byte stream.
pub open spec fn sample_word(bytes: Seq<u8>, i: int) -> int {
    le_word(bytes[4 * i], bytes[4 * i + 1], bytes[4 * i + 2], bytes[4 * i + 3])
}

/// The bit patterns of the complete 4-byte samples of `bytes`, in order.
pub fn sample_words(bytes: &Vec<u8>) -> (r: Vec<u32>)
    ensures
        r@.len() == bytes@.len() / 4,
        forall|i: int| 0 <= i < r@.len() ==> #[trigger] r@[i] == sample_word(bytes@, i),
{
    let total = bytes.len();
    let n = total / 4;
    let mut r: Vec<u32> = Vec::new();
    let mut i: usize = 0;
    while i < n
        invariant
            n == bytes@.len() / 4,
            total == bytes@.len(),
            i <= n,
            r@.len() == i,
            forall|k: int| 0 <= k < i ==> #[trigger] r@[k] == sample_word(bytes@, k),
        decreases n - i,
    {
        assert(4 * i + 3 < bytes@.len());
        let p = 4 * i;
        let b0 = bytes[p] as u32;
        let b1 = bytes[p + 1] as u32;
        let b2 = bytes[p + 2] as u32;
        let b3 = bytes[p + 3] as u32;
        let w = b0 + 256 * b1 + 65536 * b2 + 16777216 * b3;
        r.push(w);
        i = i + 1;
    }
    r
}

} // verus!
