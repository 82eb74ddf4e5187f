//! The bitmap handle: its storage lifecycle and single-bit accessors.

use vstd::prelude::*;

use crate::bits::{bits_of, byte_bit, lemma_byte_or_bit};

verus! {

/// Bytes in one heap word.
pub const WORD_SIZE: u32 = 4;

/// Number of heap words (one mark bit each) that a heap of `heap_size` bytes spans.
pub open spec fn heap_words(heap_size: u32) -> int {
    (heap_size + WORD_SIZE - 1) / WORD_SIZE as int
}

/// Bytes of mark storage for a heap of `heap_size` bytes: one bit per word,
/// rounded up to whole bytes and then to whole 64-bit words.
pub open spec fn bitmap_bytes(heap_size: u32) -> int {
    ((heap_words(heap_size) + 7) / 8 + 7) / 8 * 8
}

/// Number of addressable bits for a heap of `heap_size` bytes; the padding
/// bits up to the next 64-bit boundary are included.
pub open spec fn capacity_bits(heap_size: u32) -> int {
    bitmap_bytes(heap_size) * 8
}

/// Handle to the mark storage of one collection cycle, or to none.
pub struct Bitmap {
    buf: Option<Vec<u8>>,
}

impl Bitmap {
    /// Whether storage is installed.
    pub closed spec fn is_allocated(&self) -> bool {
        self.buf.is_some()
    }

    /// The storage is a whole number of 64-bit words, and each bit index fits in a `u32`.
    pub closed spec fn wf(&self) -> bool {
        match self.buf {
            Some(v) => v@.len() % 8 == 0 && v@.len() <= 0x1000_0000,
            None => true,
        }
    }

    /// A handle with no storage installed.
    pub fn new() -> (r: Bitmap)
        ensures
            r.wf(),
            !r.is_allocated(),
            r@.len() == 0,
    {
        Bitmap { buf: None }
    }

    /// Number of addressable bits: a multiple of 64, zero when no storage is installed.
    pub fn capacity(&self) -> (r: u32)
        requires
            self.wf(),
        ensures
            r == self@.len(),
            r % 64 == 0,
    {
        match &self.buf {
            Some(v) => (v.len() * 8) as u32,
            None => 0,
        }
    }

    /// The bits of the installed storage (empty when there is none).
    pub closed spec fn view(&self) -> Seq<bool> {
        match self.buf {
            Some(v) => bits_of(v@),
            None => Seq::empty(),
        }
    }
}

impl Bitmap {
    /// The installed buffer.
    pub(crate) fn buffer(&self) -> (r: &Vec<u8>)
        requires
            self.wf(),
            self.is_allocated(),
        ensures
            bits_of(r@) == self@,
            r@.len() % 8 == 0,
            r@.len() <= 0x1000_0000,
    {
        self.buf.as_ref().unwrap()
    }
}

/// Installs fresh zeroed storage covering a heap of `heap_size` bytes, in
/// place of whatever the handle held before.
pub fn alloc_bitmap(bm: &mut Bitmap, heap_size: u32)
    ensures
        final(bm).wf(),
        final(bm).is_allocated(),
        final(bm)@.len() == capacity_bits(heap_size),
        forall|i: int| 0 <= i < final(bm)@.len() ==> !#[trigger] final(bm)@[i],
{
    let n_bits: u32 = heap_size / WORD_SIZE + if heap_size % WORD_SIZE != 0 {
        1u32
    } else {
        0u32
    };
    let bytes: u32 = (n_bits + 7) / 8;
    let bytes: u32 = (bytes + 7) / 8 * 8;
    let buf: Vec<u8> = vec![0u8; bytes as usize];
    assert forall|i: int| 0 <= i < bits_of(buf@).len() implies !#[trigger] bits_of(buf@)[i] by {
        lemma_byte_or_bit(0u8, 0u8, (i % 8) as u8);
    }
    bm.buf = Some(buf);
}

/// Drops the handle's storage; the bits are no longer readable through it.
pub fn free_bitmap(bm: &mut Bitmap)
    ensures
        final(bm).wf(),
        !final(bm).is_allocated(),
        final(bm)@.len() == 0,
{
    bm.buf = None;
}

/// Reads the bit of word slot `idx`.
pub fn get_bit(bm: &Bitmap, idx: u32) -> (r: bool)
    requires
        bm.wf(),
        bm.is_allocated(),
        idx < bm@.len(),
    ensures
        r == bm@[idx as int],
{
    let buf = bm.buf.as_ref().unwrap();
    let byte = buf[(idx / 8) as usize];
    let bit_idx = (idx % 8) as u8;
    (byte >> bit_idx) & 1u8 == 1u8
}

/// Sets the bit of word slot `idx`, leaving every other bit as it was.
pub fn set_bit(bm: &mut Bitmap, idx: u32)
    requires
        old(bm).wf(),
        old(bm).is_allocated(),
        idx < old(bm)@.len(),
    ensures
        final(bm).wf(),
        final(bm).is_allocated(),
        final(bm)@ == old(bm)@.update(idx as int, true),
{
    let mut buf = bm.buf.take().unwrap();
    let byte_idx = (idx / 8) as usize;
    let bit_idx = (idx % 8) as u8;
    let byte = buf[byte_idx];
    let ghost before = buf@;
    buf.set(byte_idx, byte | (1u8 << bit_idx));
    assert forall|i: int| 0 <= i < bits_of(buf@).len() implies #[trigger] bits_of(buf@)[i]
        == bits_of(before).update(idx as int, true)[i] by {
        lemma_byte_or_bit(byte, bit_idx, (i % 8) as u8);
    }
    assert(bits_of(buf@) =~= bits_of(before).update(idx as int, true));
    bm.buf = Some(buf);
}

/// After setting bit `i`, reading bit `i` gives `true` and every other bit
/// reads as it did before.
pub proof fn lemma_set_then_get(bits: Seq<bool>, i: int, j: int)
    requires
        0 <= i < bits.len(),
        0 <= j < bits.len(),
    ensures
        bits.update(i, true)[i],
        j != i ==> bits.update(i, true)[j] == bits[j],
{
}

/// Setting a bit twice leaves the same bits as setting it once.
pub proof fn lemma_set_bit_idempotent(bits: Seq<bool>, i: int)
    requires
        0 <= i < bits.len(),
    ensures
        bits.update(i, true).update(i, true) == bits.update(i, true),
{
    assert(bits.update(i, true).update(i, true) =~= bits.update(i, true));
}

} // verus!
