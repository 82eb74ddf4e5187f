//! Skip-scans over the bitmap: word-batched enumeration of the set and the
//! unset bit indices in ascending order.

use vstd::prelude::*;

use crate::bitmap::{capacity_bits, Bitmap};
use crate::bits::{bits_of, lemma_compose_bit, lemma_shr_bit, lemma_word_facts, word_bit};

verus! {

/// The indices `i >= pos` with `bits[i] == want`, in ascending order.
pub open spec fn indices_from(bits: Seq<bool>, want: bool, pos: int) -> Seq<int>
    decreases bits.len() - pos,
{
    if pos >= bits.len() {
        Seq::empty()
    } else if bits[pos] == want {
        seq![pos].add(indices_from(bits, want, pos + 1))
    } else {
        indices_from(bits, want, pos + 1)
    }
}

/// The indices of the set bits, in ascending order.
pub open spec fn set_indices(bits: Seq<bool>) -> Seq<int> {
    indices_from(bits, true, 0)
}

/// The indices of the unset bits, in ascending order.
pub open spec fn unset_indices(bits: Seq<bool>) -> Seq<int> {
    indices_from(bits, false, 0)
}

/// One step of a scan whose indices still to come are `before`: it yields
/// the first of them and `after` holds the others, or, with none left, it
/// yields nothing and none are left after.
pub open spec fn yields(before: Seq<int>, r: Option<u32>, after: Seq<int>) -> bool {
    if before.len() == 0 {
        r is None && after.len() == 0
    } else {
        r is Some && r->0 as int == before[0] && after == before.drop_first()
    }
}

/// Passing over a run of positions none of which holds `want` changes nothing.
pub proof fn lemma_skip_run(bits: Seq<bool>, want: bool, pos: int, k: int)
    requires
        0 <= pos,
        0 <= k,
        forall|i: int| pos <= i < pos + k && i < bits.len() ==> bits[i] != want,
    ensures
        indices_from(bits, want, pos) == indices_from(bits, want, pos + k),
    decreases k,
{
    if k > 0 {
        lemma_skip_run(bits, want, pos + 1, k - 1);
    }
}

/// What `indices_from` holds: exactly the positions from `pos` on that hold
/// `want`, each once, in strictly ascending order.
pub proof fn lemma_indices_from(bits: Seq<bool>, want: bool, pos: int)
    requires
        0 <= pos,
    ensures
        forall|k: int|
            0 <= k < indices_from(bits, want, pos).len() ==> pos <= #[trigger] indices_from(
                bits,
                want,
                pos,
            )[k] < bits.len() && bits[indices_from(bits, want, pos)[k]] == want,
        forall|i: int|
            pos <= i < bits.len() && bits[i] == want ==> #[trigger] indices_from(
                bits,
                want,
                pos,
            ).contains(i),
        forall|a: int, b: int|
            0 <= a < b < indices_from(bits, want, pos).len() ==> indices_from(bits, want, pos)[a]
                < indices_from(bits, want, pos)[b],
    decreases bits.len() - pos,
{
    if pos < bits.len() {
        lemma_indices_from(bits, want, pos + 1);
        let s = indices_from(bits, want, pos);
        let t = indices_from(bits, want, pos + 1);
        if bits[pos] == want {
            assert(s == seq![pos].add(t));
            assert forall|i: int| pos <= i < bits.len() && bits[i] == want implies s.contains(i) by {
                if i == pos {
                    assert(s[0] == i);
                } else {
                    assert(t.contains(i));
                    let k = choose|k: int| 0 <= k < t.len() && t[k] == i;
                    assert(s[k + 1] == i);
                }
            }
        }
    }
}

/// Two strictly ascending sequences with the same members are equal.
proof fn lemma_ascending_unique(a: Seq<int>, b: Seq<int>)
    requires
        forall|x: int, y: int| 0 <= x < y < a.len() ==> a[x] < a[y],
        forall|x: int, y: int| 0 <= x < y < b.len() ==> b[x] < b[y],
        forall|v: int| a.contains(v) <==> b.contains(v),
    ensures
        a == b,
    decreases a.len(),
{
    if a.len() == 0 {
        if b.len() > 0 {
            assert(b.contains(b[0]));
        }
        assert(a =~= b);
    } else {
        assert(a.contains(a[0]));
        assert(b.len() > 0);
        assert(b.contains(b[0]));
        let ka = choose|k: int| 0 <= k < a.len() && a[k] == b[0];
        let kb = choose|k: int| 0 <= k < b.len() && b[k] == a[0];
        assert(a[0] == b[0]) by {
            if a[0] < b[0] {
                assert(b[kb] == a[0]);
            } else if b[0] < a[0] {
                assert(a[ka] == b[0]);
            }
        }
        let a1 = a.drop_first();
        let b1 = b.drop_first();
        assert forall|v: int| a1.contains(v) implies b1.contains(v) by {
            let k = choose|k: int| 0 <= k < a1.len() && a1[k] == v;
            assert(a[k + 1] == v);
            assert(b.contains(v));
            let m = choose|m: int| 0 <= m < b.len() && b[m] == v;
            assert(m != 0);
            assert(b1[m - 1] == v);
        }
        assert forall|v: int| b1.contains(v) implies a1.contains(v) by {
            let k = choose|k: int| 0 <= k < b1.len() && b1[k] == v;
            assert(b[k + 1] == v);
            assert(a.contains(v));
            let m = choose|m: int| 0 <= m < a.len() && a[m] == v;
            assert(m != 0);
            assert(a1[m - 1] == v);
        }
        lemma_ascending_unique(a1, b1);
        assert(a =~= b) by {
            assert forall|k: int| 0 <= k < a.len() implies a[k] == b[k] by {
                if k > 0 {
                    assert(a[k] == a1[k - 1]);
                    assert(b[k] == b1[k - 1]);
                }
            }
        }
    }
}

/// When exactly the indices of the strictly ascending `marked` are set, the
/// set-bit scan yields exactly `marked`, in that order.
pub proof fn lemma_set_scan_exact(bits: Seq<bool>, marked: Seq<int>)
    requires
        forall|x: int, y: int| 0 <= x < y < marked.len() ==> marked[x] < marked[y],
        forall|k: int| 0 <= k < marked.len() ==> 0 <= #[trigger] marked[k] < bits.len(),
        forall|i: int| 0 <= i < bits.len() ==> (bits[i] <==> marked.contains(i)),
    ensures
        set_indices(bits) == marked,
{
    lemma_indices_from(bits, true, 0);
    let s = set_indices(bits);
    assert forall|v: int| s.contains(v) <==> marked.contains(v) by {
        if s.contains(v) {
            let k = choose|k: int| 0 <= k < s.len() && s[k] == v;
            assert(bits[s[k]]);
        }
        if marked.contains(v) {
            let k = choose|k: int| 0 <= k < marked.len() && marked[k] == v;
            assert(0 <= marked[k] < bits.len());
        }
    }
    lemma_ascending_unique(s, marked);
}

/// The two scans split the bit indices: each index of the bitmap is yielded
/// by exactly one of them, and neither yields an index outside it.
pub proof fn lemma_scans_partition(bits: Seq<bool>)
    ensures
        forall|k: int|
            0 <= k < set_indices(bits).len() ==> 0 <= #[trigger] set_indices(bits)[k] < bits.len(),
        forall|k: int|
            0 <= k < unset_indices(bits).len() ==> 0 <= #[trigger] unset_indices(bits)[k]
                < bits.len(),
        forall|i: int|
            0 <= i < bits.len() ==> (#[trigger] set_indices(bits).contains(i) != unset_indices(
                bits,
            ).contains(i)),
{
    lemma_indices_from(bits, true, 0);
    lemma_indices_from(bits, false, 0);
    assert forall|i: int| 0 <= i < bits.len() implies (#[trigger] set_indices(bits).contains(i)
        != unset_indices(bits).contains(i)) by {
        if set_indices(bits).contains(i) {
            let k = choose|k: int|
                0 <= k < set_indices(bits).len() && set_indices(bits)[k] == i;
            assert(bits[set_indices(bits)[k]]);
        }
        if unset_indices(bits).contains(i) {
            let k = choose|k: int|
                0 <= k < unset_indices(bits).len() && unset_indices(bits)[k] == i;
            assert(!bits[unset_indices(bits)[k]]);
        }
    }
}

/// The storage for a heap of zero bytes holds no bits, so both scans of it
/// end at once.
pub proof fn lemma_zero_heap_scans(bits: Seq<bool>)
    requires
        bits.len() == capacity_bits(0),
    ensures
        set_indices(bits).len() == 0,
        unset_indices(bits).len() == 0,
{
}

/// Loads 64-bit word number `w` of the buffer, its bytes least significant first.
fn load_word(bytes: &Vec<u8>, w: u32) -> (r: u64)
    requires
        (w as int + 1) * 8 <= bytes@.len(),
    ensures
        forall|j: u64| j < 64 ==> #[trigger] word_bit(r, j) == bits_of(bytes@)[w * 64 + j],
{
    let len = bytes.len();
    assert((w as int) * 8 + 8 <= len);
    let base = (w as usize) * 8;
    let b0 = bytes[base];
    let b1 = bytes[base + 1];
    let b2 = bytes[base + 2];
    let b3 = bytes[base + 3];
    let b4 = bytes[base + 4];
    let b5 = bytes[base + 5];
    let b6 = bytes[base + 6];
    let b7 = bytes[base + 7];
    let r = (b0 as u64) | ((b1 as u64) << 8u64) | ((b2 as u64) << 16u64) | ((b3 as u64) << 24u64)
        | ((b4 as u64) << 32u64) | ((b5 as u64) << 40u64) | ((b6 as u64) << 48u64) | ((b7 as u64)
        << 56u64);
    assert forall|j: u64| j < 64 implies #[trigger] word_bit(r, j) == bits_of(bytes@)[w * 64
        + j] by {
        lemma_compose_bit(b0, b1, b2, b3, b4, b5, b6, b7, j);
        let i = w * 64 + j;
        assert(i / 8 == w * 8 + j / 8 && i % 8 == j % 8) by (nonlinear_arith)
            requires
                i == w * 64 + j,
                j < 64,
        ;
    }
    r
}

/// Position of one scan in the buffer.
struct BitmapIterState {
    /// Size of the buffer in 64-bit words; fixed at construction.
    size: u32,
    /// Ordinal of the word being scanned; equals `size` once the scan is over.
    current_word_idx: u32,
    /// What is left of the current word: shifted right as bits are passed over.
    current_word: u64,
    /// Bits of the current word not yet passed over; gives the index of a yielded bit.
    bits_left: u32,
}

impl BitmapIterState {
    /// First bit index not yet passed over.
    spec fn pos(&self) -> int {
        self.current_word_idx * 64 + 64 - self.bits_left
    }

    /// The state agrees with `bits`: the low `bits_left` bits of the current
    /// word are the bits from `pos()` on, and the bits above them are zero.
    spec fn wf(&self, bits: Seq<bool>) -> bool {
        &&& bits.len() == self.size * 64
        &&& self.size * 64 <= 0x8000_0000
        &&& self.current_word_idx <= self.size
        &&& self.bits_left <= 64
        &&& self.current_word_idx < self.size ==> forall|j: u64|
            j < 64 ==> #[trigger] word_bit(self.current_word, j) == if j < self.bits_left {
                bits[self.pos() + j]
            } else {
                false
            }
    }

    /// The indices still to be yielded by a scan for bits equal to `want`.
    spec fn remaining(&self, bits: Seq<bool>, want: bool) -> Seq<int> {
        if self.current_word_idx < self.size {
            indices_from(bits, want, self.pos())
        } else {
            Seq::empty()
        }
    }

    /// State at the start of a buffer.
    fn start(bytes: &Vec<u8>) -> (r: BitmapIterState)
        requires
            bytes@.len() % 8 == 0,
            bytes@.len() <= 0x1000_0000,
        ensures
            r.wf(bits_of(bytes@)),
            r.remaining(bits_of(bytes@), true) == indices_from(bits_of(bytes@), true, 0),
            r.remaining(bits_of(bytes@), false) == indices_from(bits_of(bytes@), false, 0),
    {
        let size = (bytes.len() / 8) as u32;
        let current_word = if size == 0 {
            0
        } else {
            load_word(bytes, 0)
        };
        let r = BitmapIterState { size, current_word_idx: 0, current_word, bits_left: 64 };
        assert(bits_of(bytes@).len() == size * 64);
        r
    }

    /// Advances to the next index whose bit equals `want`. Runs of the other
    /// value are passed over a whole trailing run at a time, and a word that
    /// is uniformly the other value in one step.
    fn next_index(&mut self, bytes: &Vec<u8>, want: bool) -> (r: Option<u32>)
        requires
            old(self).wf(bits_of(bytes@)),
        ensures
            final(self).wf(bits_of(bytes@)),
            final(self).size == old(self).size,
            yields(
                old(self).remaining(bits_of(bytes@), want),
                r,
                final(self).remaining(bits_of(bytes@), want),
            ),
    {
        let ghost bits = bits_of(bytes@);
        let ghost rest = self.remaining(bits, want);
        let exhausted: u64 = if want {
            0
        } else {
            0xffff_ffff_ffff_ffff
        };
        loop
            invariant
                self.wf(bits),
                self.size == old(self).size,
                bits == bits_of(bytes@),
                self.remaining(bits, want) == rest,
                rest == old(self).remaining(bits, want),
                exhausted == if want {
                    0u64
                } else {
                    0xffff_ffff_ffff_ffffu64
                },
            decreases self.size - self.current_word_idx,
        {
            if self.current_word_idx == self.size {
                return None;
            }

            // Inner loop: the bits of the current word.
            let ghost word_idx = self.current_word_idx;
            while self.current_word != exhausted && self.bits_left != 0
                invariant
                    self.wf(bits),
                    self.size == old(self).size,
                    bits == bits_of(bytes@),
                    self.current_word_idx < self.size,
                    self.current_word_idx == word_idx,
                    self.remaining(bits, want) == rest,
                    rest == old(self).remaining(bits, want),
                    exhausted == if want {
                        0u64
                    } else {
                        0xffff_ffff_ffff_ffffu64
                    },
                decreases self.bits_left,
            {
                let w = self.current_word;
                let ghost pos = self.pos();
                let ghost bl = self.bits_left;
                assert(forall|j: u64|
                    j < 64 ==> #[trigger] word_bit(w, j) == if j < bl {
                        bits[pos + j]
                    } else {
                        false
                    });
                proof {
                    lemma_word_facts(w, 0);
                }
                if (w & 1 == 1) == want {
                    let bit_idx = self.current_word_idx * 64 + (64 - self.bits_left);
                    assert(bits[pos] == want);
                    assert(indices_from(bits, want, pos) == seq![pos].add(
                        indices_from(bits, want, pos + 1),
                    ));
                    self.current_word = w >> 1;
                    self.bits_left = self.bits_left - 1;
                    assert forall|j: u64| j < 64 implies #[trigger] word_bit(self.current_word, j)
                        == if j < self.bits_left {
                        bits[self.pos() + j]
                    } else {
                        false
                    } by {
                        lemma_shr_bit(w, 1, j);
                        if j < 63 {
                            assert(word_bit(w, (j + 1) as u64) == if ((j + 1) as u64) < bl {
                                bits[pos + j + 1]
                            } else {
                                false
                            });
                        }
                    }
                    assert(indices_from(bits, want, pos).drop_first() == indices_from(
                        bits,
                        want,
                        pos + 1,
                    ));
                    return Some(bit_idx);
                } else {
                    let shift_amt = if want {
                        w.trailing_zeros()
                    } else {
                        w.trailing_ones()
                    };
                    proof {
                        if want {
                            vstd::std_specs::bits::axiom_u64_trailing_zeros(w);
                        } else {
                            vstd::std_specs::bits::axiom_u64_trailing_ones(w);
                        }
                        assert(shift_amt <= self.bits_left) by {
                            if shift_amt > self.bits_left {
                                if want {
                                    assert(word_bit(w, shift_amt as u64));
                                } else {
                                    assert(word_bit(w, self.bits_left as u64));
                                }
                            }
                        }
                        assert forall|i: int| pos <= i < pos + shift_amt && i < bits.len()
                            implies bits[i] != want by {
                            let j = (i - pos) as u64;
                            assert(word_bit(w, j) == !want);
                        }
                        lemma_skip_run(bits, want, pos, shift_amt as int);
                    }
                    self.current_word = w >> shift_amt;
                    self.bits_left = self.bits_left - shift_amt;
                    assert forall|j: u64| j < 64 implies #[trigger] word_bit(self.current_word, j)
                        == if j < self.bits_left {
                        bits[self.pos() + j]
                    } else {
                        false
                    } by {
                        lemma_shr_bit(w, shift_amt as u64, j);
                        if j + shift_amt < 64 {
                            let jj = (j + shift_amt) as u64;
                            assert(word_bit(w, jj) == if jj < bl {
                                bits[pos + jj]
                            } else {
                                false
                            });
                        }
                    }
                }
            }
            proof {
                let pos = self.pos();
                assert forall|i: int| pos <= i < pos + self.bits_left && i < bits.len()
                    implies bits[i] != want by {
                    let j = (i - pos) as u64;
                    lemma_word_facts(self.current_word, j);
                    assert(word_bit(self.current_word, j) == !want);
                }
                lemma_skip_run(bits, want, pos, self.bits_left as int);
            }
            // Move on to the next word.
            self.current_word_idx = self.current_word_idx + 1;
            if self.current_word_idx == self.size {
                assert(indices_from(bits, want, bits.len() as int).len() == 0);
                return None;
            }
            self.current_word = load_word(bytes, self.current_word_idx);
            self.bits_left = 64;
        }
    }
}

/// Scan of the set bits of a bitmap, in ascending index order.
pub struct BitmapIter<'a> {
    bytes: &'a Vec<u8>,
    state: BitmapIterState,
}

/// Scan of the unset bits of a bitmap, in ascending index order.
pub struct BitmapUnsetIter<'a> {
    bytes: &'a Vec<u8>,
    state: BitmapIterState,
}

impl<'a> BitmapIter<'a> {
    /// The bits being scanned.
    pub closed spec fn bits(&self) -> Seq<bool> {
        bits_of(self.bytes@)
    }

    /// The scan's position agrees with the bits it reads.
    pub closed spec fn wf(&self) -> bool {
        self.state.wf(self.bits())
    }

    /// The indices that the scan has still to yield, in order.
    pub closed spec fn remaining(&self) -> Seq<int> {
        self.state.remaining(self.bits(), true)
    }

    /// Yields the next set bit's index, or `None` once all have been yielded.
    pub fn next(&mut self) -> (r: Option<u32>)
        requires
            old(self).wf(),
        ensures
            final(self).wf(),
            final(self).bits() == old(self).bits(),
            yields(old(self).remaining(), r, final(self).remaining()),
    {
        self.state.next_index(self.bytes, true)
    }
}

impl<'a> BitmapUnsetIter<'a> {
    /// The bits being scanned.
    pub closed spec fn bits(&self) -> Seq<bool> {
        bits_of(self.bytes@)
    }

    /// The scan's position agrees with the bits it reads.
    pub closed spec fn wf(&self) -> bool {
        self.state.wf(self.bits())
    }

    /// The indices that the scan has still to yield, in order.
    pub closed spec fn remaining(&self) -> Seq<int> {
        self.state.remaining(self.bits(), false)
    }

    /// Yields the next unset bit's index, or `None` once all have been yielded.
    pub fn next(&mut self) -> (r: Option<u32>)
        requires
            old(self).wf(),
        ensures
            final(self).wf(),
            final(self).bits() == old(self).bits(),
            yields(old(self).remaining(), r, final(self).remaining()),
    {
        self.state.next_index(self.bytes, false)
    }
}

/// Starts a scan of the set bits of the installed storage.
pub fn iter_bits(bm: &Bitmap) -> (r: BitmapIter<'_>)
    requires
        bm.wf(),
        bm.is_allocated(),
    ensures
        r.wf(),
        r.bits() == bm@,
        r.remaining() == set_indices(bm@),
{
    let bytes = bm.buffer();
    BitmapIter { bytes, state: BitmapIterState::start(bytes) }
}

/// Starts a scan of the unset bits of the installed storage.
pub fn iter_unset_bits(bm: &Bitmap) -> (r: BitmapUnsetIter<'_>)
    requires
        bm.wf(),
        bm.is_allocated(),
    ensures
        r.wf(),
        r.bits() == bm@,
        r.remaining() == unset_indices(bm@),
{
    let bytes = bm.buffer();
    BitmapUnsetIter { bytes, state: BitmapIterState::start(bytes) }
}

} // verus!
