//! Bit-level view of the byte buffer and the facts about shifts and masks
//! that the accessors and the scans rest on.

use vstd::prelude::*;

verus! {

/// Bit `k` (0 = least significant) of a byte.
pub open spec fn byte_bit(b: u8, k: u8) -> bool {
    (b >> k) & 1u8 == 1u8
}

/// Bit `j` (0 = least significant) of a 64-bit word.
pub open spec fn word_bit(w: u64, j: u64) -> bool {
    (w >> j) & 1u64 == 1u64
}

/// The bits of a byte buffer, in index order: bit `i` is bit `i % 8` of byte `i / 8`.
pub open spec fn bits_of(bytes: Seq<u8>) -> Seq<bool> {
    Seq::new(bytes.len() * 8, |i: int| byte_bit(bytes[i / 8], (i % 8) as u8))
}


/// The word whose bytes, least significant first, are `b0` .. `b7`.
pub open spec fn compose(b0: u8, b1: u8, b2: u8, b3: u8, b4: u8, b5: u8, b6: u8, b7: u8) -> u64 {
    (b0 as u64) | ((b1 as u64) << 8u64) | ((b2 as u64) << 16u64) | ((b3 as u64) << 24u64)
        | ((b4 as u64) << 32u64) | ((b5 as u64) << 40u64) | ((b6 as u64) << 48u64) | ((b7 as u64)
        << 56u64)
}

/// Bit `j` of a composed word is bit `j % 8` of byte `j / 8`.
pub proof fn lemma_compose_bit(b0: u8, b1: u8, b2: u8, b3: u8, b4: u8, b5: u8, b6: u8, b7: u8, j: u64)
    by (bit_vector)
    requires
        j < 64,
    ensures
        word_bit(compose(b0, b1, b2, b3, b4, b5, b6, b7), j) == if j < 8 {
            byte_bit(b0, j as u8)
        } else if j < 16 {
            byte_bit(b1, (j - 8) as u8)
        } else if j < 24 {
            byte_bit(b2, (j - 16) as u8)
        } else if j < 32 {
            byte_bit(b3, (j - 24) as u8)
        } else if j < 40 {
            byte_bit(b4, (j - 32) as u8)
        } else if j < 48 {
            byte_bit(b5, (j - 40) as u8)
        } else if j < 56 {
            byte_bit(b6, (j - 48) as u8)
        } else {
            byte_bit(b7, (j - 56) as u8)
        },
{
}

/// Shifting a word right by `k` moves bit `j + k` to `j` and fills the top with zeros.
pub proof fn lemma_shr_bit(w: u64, k: u64, j: u64)
    by (bit_vector)
    requires
        k < 64,
        j < 64,
    ensures
        word_bit(w >> k, j) == if j + k < 64 {
            word_bit(w, (j + k) as u64)
        } else {
            false
        },
{
}

/// The lowest bit, as the mask test reads it; and the bits of the two uniform words.
pub proof fn lemma_word_facts(w: u64, j: u64)
    by (bit_vector)
    requires
        j < 64,
    ensures
        (w & 1u64 == 1u64) == word_bit(w, 0),
        !word_bit(0u64, j),
        word_bit(0xffff_ffff_ffff_ffffu64, j),
{
}

/// Setting bit `k` of a byte sets that bit and keeps the others.
pub proof fn lemma_byte_or_bit(b: u8, k: u8, m: u8)
    by (bit_vector)
    requires
        k < 8,
        m < 8,
    ensures
        byte_bit(b | (1u8 << k), m) == (m == k || byte_bit(b, m)),
        !byte_bit(0u8, m),
{
}

} // verus!
