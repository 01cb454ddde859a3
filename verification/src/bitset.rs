//! A growable set of bits, packed into bytes the way Arrow packs booleans.
use crate::bits::{
    bit_at, bit_of, bits_of, lemma_bit_values, lemma_bits_of_and, lemma_bits_of_constants,
    lemma_bits_of_high_mask, lemma_bits_of_low_mask, lemma_bits_of_masked, lemma_bits_of_or,
    lemma_bits_of_single, lemma_bits_of_xor, lemma_byte_by_bits, lemma_filled_bit,
    lemma_index_split, lemma_masked_bit, lemma_shifted_bit, lemma_spliced_bit,
};
use arrow::buffer::{BooleanBuffer, Buffer};
use std::ops::Range;
use vstd::prelude::*;
use vstd::slice::slice_subrange;
use vstd::std_specs::bits::axiom_u8_trailing_zeros;

verus! {

/// Whether `bytes` are the bits `bits` packed least significant bit first:
/// as many bytes as it takes, bit `i` in bit `i % 8` of byte `i / 8`, and the
/// bits that are left over in the last byte not set.
pub open spec fn is_packing_of(bytes: Seq<u8>, bits: Seq<bool>) -> bool {
    &&& bytes.len() == (bits.len() + 7) / 8
    &&& forall|i: int| 0 <= i < bits.len() ==> bits[i] == #[trigger] bit_at(bytes, i)
    &&& forall|i: int| bits.len() <= i < 8 * bytes.len() ==> !#[trigger] bit_at(bytes, i)
}

/// The bits of bytes to which the lowest `count` bits of `byte` were
/// appended. The other bits of `byte` are not set.
proof fn lemma_appended_bits(before: Seq<u8>, after: Seq<u8>, old_len: int, byte: u8, count: u8)
    requires
        0 <= old_len,
        before.len() == (old_len + 7) / 8,
        forall|i: int| old_len <= i < 8 * before.len() ==> !#[trigger] bit_at(before, i),
        1 <= count <= 8,
        forall|k: u8| count <= k < 8 ==> !bit_of(byte, k),
        old_len % 8 == 0 ==> after == before.push(byte),
        old_len % 8 != 0 ==> after == if count > 8 - old_len % 8 {
            before.update(
                before.len() - 1,
                before.last() | (byte << ((old_len % 8) as u8)),
            ).push(byte >> ((8 - old_len % 8) as u8))
        } else {
            before.update(before.len() - 1, before.last() | (byte << ((old_len % 8) as u8)))
        },
    ensures
        after.len() == (old_len + count + 7) / 8,
        forall|i: int|
            0 <= i < 8 * after.len() ==> #[trigger] bit_at(after, i) == (if i < old_len {
                bit_at(before, i)
            } else {
                i < old_len + count && bit_of(byte, (i - old_len) as u8)
            }),
{
    let skew = (old_len % 8) as u8;
    assert forall|i: int| 0 <= i < 8 * after.len() implies #[trigger] bit_at(after, i) == (if i
        < old_len {
        bit_at(before, i)
    } else {
        i < old_len + count && bit_of(byte, (i - old_len) as u8)
    }) by {
        let k = (i % 8) as u8;
        if skew == 0 {
            if i >= old_len {
                assert(after[i / 8] == byte);
                assert(i - old_len == k);
            } else {
                assert(after[i / 8] == before[i / 8]);
            }
        } else if i / 8 == before.len() - 1 {
            let held = before[i / 8];
            lemma_spliced_bit(held, byte, skew, k);
            assert(after[i / 8] == held | (byte << skew));
            if i >= old_len {
                assert(!bit_at(before, i));
                assert(k >= skew);
                assert(i - old_len == k - skew);
            } else {
                assert(k < skew);
            }
        } else if i / 8 == before.len() {
            lemma_spliced_bit(0, byte, skew, k);
            assert(after[i / 8] == byte >> ((8 - skew) as u8));
            assert(i - old_len == k + (8 - skew));
        } else {
            assert(after[i / 8] == before[i / 8]);
        }
    }
}

/// The bits from `start`, which is where a byte starts, up to `end` are the
/// first bits of the bytes that hold them.
proof fn lemma_aligned_range(source: Seq<u8>, bits: Seq<bool>, start: int, end: int)
    requires
        is_packing_of(source, bits),
        0 <= start <= end <= bits.len(),
        start % 8 == 0,
    ensures
        bits_of(source.subrange(start / 8, (end + 7) / 8)).take(end - start) == bits.subrange(
            start,
            end,
        ),
{
    let bytes = source.subrange(start / 8, (end + 7) / 8);
    assert forall|i: int| 0 <= i < end - start implies bit_at(bytes, i) == bits[start + i] by {
        assert(bytes[i / 8] == source[start / 8 + i / 8]);
        assert(bit_at(source, start + i) == bits[start + i]);
    }
    assert(bits_of(bytes).take(end - start) =~= bits.subrange(start, end));
}

/// The bits from `start`, which is not where a byte starts, up to `end`,
/// which is no further than where that byte ends, are the first bits of that
/// byte moved down.
proof fn lemma_skewed_range(source: Seq<u8>, bits: Seq<bool>, start: int, end: int)
    requires
        is_packing_of(source, bits),
        0 <= start <= end <= bits.len(),
        start % 8 != 0,
        end <= 8 * (start / 8) + 8,
    ensures
        bits_of(seq![source[start / 8] >> ((start % 8) as u8)]).take(end - start) == bits.subrange(
            start,
            end,
        ),
{
    let skew = (start % 8) as u8;
    let byte = source[start / 8];
    let bytes = seq![byte >> skew];
    assert forall|i: int| 0 <= i < end - start implies bit_at(bytes, i) == bits[start + i] by {
        lemma_shifted_bit(byte, skew, i as u8);
        assert(bytes[i / 8] == byte >> skew);
        assert(bit_at(source, start + i) == bits[start + i]);
        assert((start + i) / 8 == start / 8);
        assert((start + i) % 8 == i + skew);
    }
    assert(bits_of(bytes).take(end - start) =~= bits.subrange(start, end));
}

/// The bits of bytes to which set bits were appended in three steps: the
/// bits left over in the last byte were set, bytes with all bits set were
/// added, and the bits left over in what is then the last byte were cleared.
proof fn lemma_bits_set(
    before: Seq<u8>,
    filled: Seq<u8>,
    grown: Seq<u8>,
    after: Seq<u8>,
    old_len: int,
    new_len: int,
)
    requires
        0 <= old_len <= new_len,
        before.len() == (old_len + 7) / 8,
        forall|i: int| old_len <= i < 8 * before.len() ==> !#[trigger] bit_at(before, i),
        filled == if old_len % 8 != 0 {
            before.update(before.len() - 1, before.last() | (0xffu8 << ((old_len % 8) as u8)))
        } else {
            before
        },
        grown.len() == (new_len + 7) / 8,
        forall|j: int| 0 <= j < filled.len() ==> grown[j] == filled[j],
        forall|j: int| filled.len() <= j < grown.len() ==> grown[j] == 0xffu8,
        after == if new_len % 8 != 0 {
            grown.update(grown.len() - 1, grown.last() & ((1u8 << ((new_len % 8) as u8)) - 1) as u8)
        } else {
            grown
        },
    ensures
        forall|i: int|
            0 <= i < 8 * after.len() ==> #[trigger] bit_at(after, i) == (i < new_len && (i
                >= old_len || bit_at(before, i))),
{
    let skew = (old_len % 8) as u8;
    let rem = (new_len % 8) as u8;
    lemma_bits_of_constants();
    assert forall|i: int| 0 <= i < 8 * after.len() implies #[trigger] bit_at(after, i) == (i
        < new_len && (i >= old_len || bit_at(before, i))) by {
        let j = i / 8;
        let k = (i % 8) as u8;
        // What the byte holds once bytes have been added.
        if j < before.len() {
            if skew != 0 && j == before.len() - 1 {
                lemma_filled_bit(before[j], skew, k);
            }
            assert(bit_of(grown[j], k) == (i >= old_len || bit_at(before, i)));
        } else {
            assert(grown[j] == 0xffu8);
            assert(bit_of(0xffu8, k));
        }
        if rem != 0 && j == grown.len() - 1 {
            lemma_masked_bit(grown[j], rem, k);
        }
    }
}

/// Returns the number of bytes that it takes to hold so many bits.
fn byte_count(bits: usize) -> (bytes: usize)
    ensures
        bytes == (bits + 7) / 8,
{
    bits / 8 + if bits % 8 == 0 {
        0
    } else {
        1
    }
}

/// Bits are packed in one way only.
pub proof fn lemma_packing_is_unique(a: Seq<u8>, b: Seq<u8>, bits: Seq<bool>)
    requires
        is_packing_of(a, bits),
        is_packing_of(b, bits),
    ensures
        a == b,
{
    assert forall|j: int| 0 <= j < a.len() implies a[j] == b[j] by {
        assert forall|k: u8| k < 8 implies bit_of(a[j], k) == bit_of(b[j], k) by {
            let i = 8 * j + k;
            assert(bit_at(a, i) == bit_of(a[j], k));
            assert(bit_at(b, i) == bit_of(b[j], k));
        }
        lemma_byte_by_bits(a[j], b[j]);
    }
    assert(a =~= b);
}

/// Arrow's buffer of boolean values.
#[verifier::external_type_specification]
#[verifier::external_body]
pub struct ExBooleanBuffer(BooleanBuffer);

/// The boolean values that an Arrow buffer holds, in their order.
pub uninterp spec fn boolean_buffer_values(buffer: BooleanBuffer) -> Seq<bool>;

/// An Arrow buffer that holds the first `len` bits of the bytes.
///
/// This is `BooleanBuffer::new` on a `Buffer` that is a copy of the bytes,
/// with no offset and `len` as the length. The values of such a buffer are the
/// bits of its bytes, least significant bit first. `BooleanBuffer::new` panics
/// where the bytes do not hold `len` bits.
#[verifier::external_body]
fn boolean_buffer(bytes: &[u8], len: usize) -> (buffer: BooleanBuffer)
    requires
        len <= 8 * bytes@.len(),
    ensures
        boolean_buffer_values(buffer) == bits_of(bytes@).take(len as int),
{
    BooleanBuffer::new(Buffer::from(bytes), 0, len)
}

/// An Arrow-compatible mutable set of bits.
///
/// The bits are stored in bytes, the least significant bit of a byte first.
#[derive(Debug)]
pub struct BitSet {
    /// The packed bits.
    buffer: Vec<u8>,
    /// The number of bits.
    len: usize,
}

impl View for BitSet {
    type V = Seq<bool>;

    /// The bits of the set, in their order.
    closed spec fn view(&self) -> Seq<bool> {
        Seq::new(self.len as nat, |i: int| bit_at(self.buffer@, i))
    }
}

impl BitSet {
    /// The bytes that hold the bits.
    pub closed spec fn spec_bytes(&self) -> Seq<u8> {
        self.buffer@
    }

    /// Whether the bytes of the set are its bits, packed.
    pub closed spec fn well_formed(&self) -> bool {
        is_packing_of(self.buffer@, self@)
    }

    /// Creates a new BitSet.
    pub fn new() -> (bitset: Self)
        ensures
            bitset.well_formed(),
            bitset@ == Seq::<bool>::empty(),
    {
        let bitset = BitSet { buffer: Vec::new(), len: 0 };
        proof {
            assert(bitset@ =~= Seq::<bool>::empty());
        }
        bitset
    }

    /// Returns the number of values stored in the bitset.
    pub fn len(&self) -> (len: usize)
        ensures
            len == self@.len(),
    {
        self.len
    }

    /// Returns if this bitset is empty.
    pub fn is_empty(&self) -> (empty: bool)
        ensures
            empty == (self@.len() == 0),
    {
        self.len == 0
    }

    /// Returns the number of bytes used by this bitset.
    pub fn byte_len(&self) -> (len: usize)
        requires
            self.well_formed(),
        ensures
            len == (self@.len() + 7) / 8,
            len == self.spec_bytes().len(),
    {
        self.buffer.len()
    }

    /// Return the raw packed bytes used by this bitset.
    pub fn bytes(&self) -> (bytes: &[u8])
        requires
            self.well_formed(),
        ensures
            bytes@ == self.spec_bytes(),
            is_packing_of(bytes@, self@),
    {
        self.buffer.as_slice()
    }

    /// Returns if the given index is set.
    pub fn get(&self, idx: usize) -> (set: bool)
        requires
            self.well_formed(),
            idx < self@.len(),
        ensures
            set == self@[idx as int],
    {
        proof {
            lemma_index_split(idx);
        }
        let byte_idx = idx >> 3;
        let bit_idx = (idx & 7) as u8;
        proof {
            assert(bit_at(self.buffer@, idx as int) == self@[idx as int]);
            lemma_bit_values(self.buffer@[byte_idx as int], bit_idx);
        }
        (self.buffer[byte_idx] >> bit_idx) & 1 != 0
    }

    /// Sets a given bit.
    pub fn set(&mut self, idx: usize)
        requires
            old(self).well_formed(),
            idx < old(self)@.len(),
        ensures
            final(self).well_formed(),
            final(self)@ == old(self)@.update(idx as int, true),
    {
        proof {
            lemma_index_split(idx);
        }
        let byte_idx = idx >> 3;
        let bit_idx = (idx & 7) as u8;
        let byte = self.buffer[byte_idx];
        proof {
            lemma_bits_of_or(byte, 1u8 << bit_idx);
            lemma_bits_of_single(bit_idx);
        }
        self.buffer.set(byte_idx, byte | (1u8 << bit_idx));
        proof {
            let before = old(self).buffer@;
            let after = self.buffer@;
            assert forall|i: int| 0 <= i < 8 * after.len() implies bit_at(after, i) == (bit_at(
                before,
                i,
            ) || i == idx) by {
                if i / 8 == byte_idx {
                    assert(bit_of(byte | (1u8 << bit_idx), (i % 8) as u8) == (bit_of(
                        byte,
                        (i % 8) as u8,
                    ) || (i % 8) as u8 == bit_idx));
                }
            }
            assert(self@ =~= old(self)@.update(idx as int, true));
        }
    }

    /// Creates a new BitSet with `count` unset bits.
    pub fn with_size(count: usize) -> (bitset: Self)
        ensures
            bitset.well_formed(),
            bitset@ == Seq::new(count as nat, |i: int| false),
    {
        let mut bitset = Self::new();
        bitset.append_unset(count);
        proof {
            assert(bitset@ =~= Seq::new(count as nat, |i: int| false));
        }
        bitset
    }

    /// Reserve space for `count` further bits.
    pub fn reserve(&mut self, count: usize)
        requires
            old(self).well_formed(),
            old(self)@.len() + count <= usize::MAX,
        ensures
            final(self).well_formed(),
            final(self)@ == old(self)@,
    {
        let new_buf_len = byte_count(self.len + count);
        self.buffer.reserve(new_buf_len);
    }

    /// Appends `count` unset bits.
    pub fn append_unset(&mut self, count: usize)
        requires
            old(self).well_formed(),
            old(self)@.len() + count <= usize::MAX,
        ensures
            final(self).well_formed(),
            final(self)@ == old(self)@ + Seq::new(count as nat, |i: int| false),
    {
        self.len += count;
        let new_buf_len = byte_count(self.len);
        self.buffer.resize(new_buf_len, 0);
        proof {
            lemma_bits_of_constants();
            let before = old(self).buffer@;
            let after = self.buffer@;
            assert(after.subrange(0, before.len() as int) == before);
            assert forall|i: int| 0 <= i < 8 * after.len() implies bit_at(after, i) == (i < 8
                * before.len() && bit_at(before, i)) by {
                if i < 8 * before.len() {
                    assert(after[i / 8] == after.subrange(0, before.len() as int)[i / 8]);
                } else {
                    assert(after[i / 8] == 0u8);
                    assert(!bit_of(0u8, (i % 8) as u8));
                }
            }
            assert(self@ =~= old(self)@ + Seq::new(count as nat, |i: int| false));
        }
    }

    /// Appends `count` set bits.
    pub fn append_set(&mut self, count: usize)
        requires
            old(self).well_formed(),
            old(self)@.len() + count <= usize::MAX,
        ensures
            final(self).well_formed(),
            final(self)@ == old(self)@ + Seq::new(count as nat, |i: int| true),
    {
        let new_len = self.len + count;
        let new_buf_len = byte_count(new_len);
        let ghost before = self.buffer@;
        let ghost old_len = self.len as int;

        let skew = (self.len % 8) as u8;
        if skew != 0 {
            let last = self.buffer.len() - 1;
            let byte = self.buffer[last];
            self.buffer.set(last, byte | (0xffu8 << skew));
        }
        let ghost filled = self.buffer@;
        self.buffer.resize(new_buf_len, 0xff);
        let ghost grown = self.buffer@;
        let rem = (new_len % 8) as u8;
        if rem != 0 {
            let last = self.buffer.len() - 1;
            let byte = self.buffer[last];
            proof {
                lemma_masked_bit(byte, rem, 0);
            }
            self.buffer.set(last, byte & ((1u8 << rem) - 1));
        }
        self.len = new_len;
        proof {
            assert forall|i: int| 0 <= i < old_len implies bit_at(before, i) == old(self)@[i] by {}
            assert forall|i: int| old_len <= i < 8 * before.len() implies !bit_at(before, i) by {}
            assert(grown.len() > filled.len() ==> grown.subrange(0, filled.len() as int)
                == filled);
            lemma_bits_set(before, filled, grown, self.buffer@, old_len, new_len as int);
            assert(self@ =~= old(self)@ + Seq::new(count as nat, |i: int| true));
        }
    }

    /// Truncates the bitset to the provided length.
    pub fn truncate(&mut self, len: usize)
        requires
            old(self).well_formed(),
            len <= old(self)@.len(),
        ensures
            final(self).well_formed(),
            final(self)@ == old(self)@.take(len as int),
    {
        let new_buf_len = byte_count(len);
        let ghost before = self.buffer@;
        self.buffer.truncate(new_buf_len);
        let overrun = (len % 8) as u8;
        if overrun > 0 {
            let last = self.buffer.len() - 1;
            let byte = self.buffer[last];
            proof {
                lemma_bits_of_masked(byte, overrun);
            }
            self.buffer.set(last, byte & ((1u8 << overrun) - 1));
        }
        self.len = len;
        proof {
            let after = self.buffer@;
            assert forall|i: int| 0 <= i < 8 * after.len() implies bit_at(after, i) == (i < len
                && bit_at(before, i)) by {
                assert(before.subrange(0, new_buf_len as int)[i / 8] == before[i / 8]);
                if overrun > 0 && i / 8 == after.len() - 1 {
                    let byte = before[i / 8];
                    assert(bit_of(byte & ((1u8 << overrun) - 1) as u8, (i % 8) as u8) == (((i % 8) as u8)
                        < overrun && bit_of(byte, (i % 8) as u8)));
                }
            }
            assert forall|i: int| 0 <= i < len implies bit_at(before, i) == old(self)@[i] by {}
            assert(self@ =~= old(self)@.take(len as int));
        }
    }

    /// Appends the lowest `count` bits of `byte`, which has no other bit set.
    fn append_byte(&mut self, byte: u8, count: u8)
        requires
            old(self).well_formed(),
            1 <= count <= 8,
            old(self)@.len() + count <= usize::MAX,
            forall|k: u8| count <= k < 8 ==> !bit_of(byte, k),
        ensures
            final(self).well_formed(),
            final(self)@ == old(self)@ + Seq::new(count as nat, |k: int| bit_of(byte, k as u8)),
    {
        let ghost before = self.buffer@;
        let ghost old_len = self.len as int;
        let skew = (self.len % 8) as u8;
        if skew == 0 {
            self.buffer.push(byte);
        } else {
            let last = self.buffer.len() - 1;
            let held = self.buffer[last];
            self.buffer.set(last, held | (byte << skew));
            if count > 8 - skew {
                self.buffer.push(byte >> (8 - skew));
            }
        }
        self.len += count as usize;
        proof {
            let after = self.buffer@;
            assert forall|i: int| 0 <= i < old_len implies bit_at(before, i) == old(self)@[i] by {}
            assert forall|i: int| old_len <= i < 8 * before.len() implies !bit_at(before, i) by {}
            lemma_appended_bits(before, after, old_len, byte, count);
            assert(self@ =~= old(self)@ + Seq::new(count as nat, |k: int| bit_of(byte, k as u8)));
        }
    }

    /// Appends `count` boolean values from the slice of packed bits.
    pub fn append_bits(&mut self, count: usize, to_set: &[u8])
        requires
            old(self).well_formed(),
            to_set@.len() == (count + 7) / 8,
            old(self)@.len() + count <= usize::MAX,
        ensures
            final(self).well_formed(),
            final(self)@ == old(self)@ + bits_of(to_set@).take(count as int),
    {
        let new_len = self.len + count;
        let new_buf_len = byte_count(new_len);
        self.buffer.reserve(new_buf_len - self.buffer.len());

        let whole_bytes = count / 8;
        let overrun = (count % 8) as u8;
        let mut i: usize = 0;
        proof {
            assert(self@ =~= old(self)@ + bits_of(to_set@).take(0));
        }
        while i < whole_bytes
            invariant
                i <= whole_bytes,
                whole_bytes == count / 8,
                to_set@.len() == (count + 7) / 8,
                old(self)@.len() + count <= usize::MAX,
                self.well_formed(),
                self@ == old(self)@ + bits_of(to_set@).take(8 * i),
            decreases whole_bytes - i,
        {
            let ghost done = self@;
            self.append_byte(to_set[i], 8);
            proof {
                let x = to_set@[i as int];
                assert(bits_of(to_set@).take(8 * (i + 1)) =~= bits_of(to_set@).take(8 * i)
                    + Seq::new(8, |k: int| bit_of(x, k as u8)));
            }
            i += 1;
        }
        if overrun > 0 {
            let byte = to_set[whole_bytes];
            proof {
                lemma_bits_of_masked(byte, overrun);
            }
            let masked = byte & ((1u8 << overrun) - 1);
            self.append_byte(masked, overrun);
            proof {
                assert(bits_of(to_set@).take(count as int) =~= bits_of(to_set@).take(
                    8 * whole_bytes,
                ) + Seq::new(overrun as nat, |k: int| bit_of(masked, k as u8)));
            }
        }
    }

    /// Extends this [`BitSet`] by the content of `other`.
    pub fn extend_from(&mut self, other: &BitSet)
        requires
            old(self).well_formed(),
            other.well_formed(),
            old(self)@.len() + other@.len() <= usize::MAX,
        ensures
            final(self).well_formed(),
            final(self)@ == old(self)@ + other@,
    {
        proof {
            assert(bits_of(other.buffer@).take(other.len as int) =~= other@);
        }
        self.append_bits(other.len, other.buffer.as_slice())
    }

    /// Extends this [`BitSet`] by `range` elements in `other`.
    pub fn extend_from_range(&mut self, other: &BitSet, range: Range<usize>)
        requires
            old(self).well_formed(),
            other.well_formed(),
            range.start <= range.end <= other@.len(),
            old(self)@.len() + (range.end - range.start) <= usize::MAX,
        ensures
            final(self).well_formed(),
            final(self)@ == old(self)@ + other@.subrange(range.start as int, range.end as int),
    {
        let count = range.end - range.start;
        if count == 0 {
            proof {
                assert(self@ =~= old(self)@ + other@.subrange(
                    range.start as int,
                    range.end as int,
                ));
            }
            return;
        }
        let start_byte = range.start / 8;
        let end_byte = byte_count(range.end);
        let skew = (range.start % 8) as u8;

        // `append_bits` takes its bits from the start of a byte, so where the
        // range does not start at one, the bits up to the next byte are
        // appended first.
        if skew == 0 {
            // The range starts at a byte: its bytes are appended as they are.
            let bytes = slice_subrange(other.buffer.as_slice(), start_byte, end_byte);
            proof {
                lemma_aligned_range(other.buffer@, other@, range.start as int, range.end as int);
            }
            self.append_bits(count, bytes)
        } else if start_byte + 1 == end_byte {
            // The range lies within one byte.
            let first = [other.buffer[start_byte] >> skew];
            proof {
                assert(first@ =~= seq![other.buffer@[start_byte as int] >> skew]);
                lemma_skewed_range(other.buffer@, other@, range.start as int, range.end as int);
            }
            self.append_bits(count, first.as_slice())
        } else {
            // The bits up to the end of the first byte, then the other bytes.
            let offset = 8 - skew as usize;
            let first = [other.buffer[start_byte] >> skew];
            let rest = slice_subrange(other.buffer.as_slice(), start_byte + 1, end_byte);
            proof {
                let middle = range.start + offset;
                assert(first@ =~= seq![other.buffer@[start_byte as int] >> skew]);
                lemma_skewed_range(other.buffer@, other@, range.start as int, middle);
                lemma_aligned_range(other.buffer@, other@, middle, range.end as int);
                assert(other@.subrange(range.start as int, range.end as int) =~= other@.subrange(
                    range.start as int,
                    middle,
                ) + other@.subrange(middle, range.end as int));
            }
            self.append_bits(offset, first.as_slice());
            self.append_bits(count - offset, rest);
        }
    }

    /// Return `true` if all bits in the [`BitSet`] are currently set. An
    /// empty bitset has no set bits.
    pub fn is_all_set(&self) -> (all: bool)
        requires
            self.well_formed(),
        ensures
            all == (self@.len() > 0 && forall|i: int| 0 <= i < self@.len() ==> self@[i]),
    {
        if self.len == 0 {
            return false;
        }
        // All bytes but the last hold eight bits of the set each.
        let full_blocks = self.buffer.len() - 1;
        let mut i: usize = 0;
        while i < full_blocks
            invariant
                i <= full_blocks,
                full_blocks == self.buffer@.len() - 1,
                self.well_formed(),
                forall|j: int| 0 <= j < 8 * i ==> self@[j],
            decreases full_blocks - i,
        {
            let byte = self.buffer[i];
            proof {
                lemma_bits_of_constants();
                assert forall|k: u8| k < 8 implies bit_of(byte, k) == self@[8 * i + k] by {
                    assert(bit_at(self.buffer@, 8 * i + k) == self@[8 * i + k]);
                }
            }
            if byte != u8::MAX {
                proof {
                    if forall|k: u8| k < 8 ==> bit_of(byte, k) {
                        lemma_byte_by_bits(byte, 0xffu8);
                    }
                }
                return false;
            }
            proof {
                assert forall|j: int| 0 <= j < 8 * (i + 1) implies self@[j] by {
                    if j >= 8 * i {
                        assert(bit_of(byte, (j - 8 * i) as u8));
                    }
                }
            }
            i += 1;
        }
        // The last byte may hold fewer: the bits that are left over are not
        // set.
        let rem = (self.len % 8) as u8;
        let mask = if rem == 0 {
            0xffu8
        } else {
            proof {
                lemma_bits_of_low_mask(rem);
            }
            !(0xffu8 << rem)
        };
        let last = self.buffer[full_blocks];
        proof {
            lemma_bits_of_constants();
            let base = 8 * full_blocks;
            assert forall|k: u8| k < 8 implies bit_of(last, k) == (base + k < self.len && self@[base
                + k]) by {
                assert(bit_at(self.buffer@, base + k) == bit_of(last, k));
                if base + k < self.len {
                    assert(bit_at(self.buffer@, base + k) == self@[base + k]);
                }
            }
            if last == mask {
                assert forall|j: int| 0 <= j < self@.len() implies self@[j] by {
                    if j >= base {
                        assert(bit_of(mask, (j - base) as u8));
                    }
                }
            } else if forall|j: int| 0 <= j < self@.len() ==> self@[j] {
                assert forall|k: u8| k < 8 implies bit_of(last, k) == bit_of(mask, k) by {
                    if base + k < self.len {
                        assert(self@[base + k]);
                    }
                }
                lemma_byte_by_bits(last, mask);
            }
        }
        last == mask
    }

    /// Return `true` if all bits in the [`BitSet`] are currently unset.
    pub fn is_all_unset(&self) -> (none: bool)
        requires
            self.well_formed(),
        ensures
            none == (forall|i: int| 0 <= i < self@.len() ==> !self@[i]),
    {
        let mut i: usize = 0;
        while i < self.buffer.len()
            invariant
                i <= self.buffer@.len(),
                self.well_formed(),
                forall|j: int| 0 <= j < 8 * i && j < self@.len() ==> !self@[j],
            decreases self.buffer.len() - i,
        {
            let byte = self.buffer[i];
            proof {
                lemma_bits_of_constants();
                assert forall|k: u8| k < 8 implies bit_of(byte, k) == (8 * i + k < self.len
                    && self@[8 * i + k]) by {
                    assert(bit_at(self.buffer@, 8 * i + k) == bit_of(byte, k));
                    if 8 * i + k < self.len {
                        assert(bit_at(self.buffer@, 8 * i + k) == self@[8 * i + k]);
                    }
                }
            }
            if byte != 0 {
                proof {
                    if forall|k: u8| k < 8 ==> !bit_of(byte, k) {
                        lemma_byte_by_bits(byte, 0u8);
                    }
                    let k = choose|k: u8| k < 8 && bit_of(byte, k);
                    assert(self@[8 * i + k]);
                }
                return false;
            }
            proof {
                assert forall|j: int| 0 <= j < 8 * (i + 1) && j < self@.len() implies !self@[j] by {
                    if j >= 8 * i {
                        assert(!bit_of(byte, (j - 8 * i) as u8));
                    }
                }
            }
            i += 1;
        }
        true
    }

    /// Converts this BitSet to a buffer compatible with Arrow's boolean
    /// encoding.
    pub fn to_arrow(&self) -> (buffer: BooleanBuffer)
        requires
            self.well_formed(),
        ensures
            boolean_buffer_values(buffer) == self@,
    {
        proof {
            assert(bits_of(self.buffer@).take(self.len as int) =~= self@);
        }
        boolean_buffer(self.buffer.as_slice(), self.len)
    }
}

impl Default for BitSet {
    fn default() -> (bitset: Self)
        ensures
            bitset.well_formed(),
            bitset@ == Seq::<bool>::empty(),
    {
        BitSet::new()
    }
}

impl Clone for BitSet {
    fn clone(&self) -> (bitset: Self)
        ensures
            bitset@ == self@,
            self.well_formed() ==> bitset.well_formed(),
    {
        let bitset = BitSet { buffer: self.buffer.clone(), len: self.len };
        proof {
            assert(bitset.buffer@ =~= self.buffer@);
            assert(bitset@ =~= self@);
        }
        bitset
    }
}

/// The positions from `from` up to `to` at which a bit of the bytes is set,
/// in increasing order.
pub open spec fn set_positions(bytes: Seq<u8>, from: int, to: int) -> Seq<usize>
    decreases to - from,
{
    if to <= from {
        Seq::empty()
    } else {
        let before = set_positions(bytes, from, to - 1);
        if bit_at(bytes, to - 1) {
            before.push((to - 1) as usize)
        } else {
            before
        }
    }
}

/// Positions at which no bit is set add nothing.
proof fn lemma_no_set_positions(bytes: Seq<u8>, from: int, mid: int, to: int)
    requires
        from <= mid <= to,
        forall|i: int| mid <= i < to ==> !#[trigger] bit_at(bytes, i),
    ensures
        set_positions(bytes, from, to) == set_positions(bytes, from, mid),
    decreases to - mid,
{
    if mid < to {
        lemma_no_set_positions(bytes, from, mid, to - 1);
    }
}

/// Returns the set bit positions in increasing order.
pub fn iter_set_positions(bytes: &[u8]) -> (positions: Vec<usize>)
    requires
        8 * bytes@.len() <= usize::MAX,
    ensures
        positions@ == set_positions(bytes@, 0, 8 * bytes@.len() as int),
{
    iter_set_positions_with_offset(bytes, 0)
}

/// Returns the set bit positions in increasing order starting at the
/// provided bit offset.
pub fn iter_set_positions_with_offset(bytes: &[u8], offset: usize) -> (positions: Vec<usize>)
    requires
        8 * bytes@.len() <= usize::MAX,
    ensures
        positions@ == set_positions(bytes@, offset as int, 8 * bytes@.len() as int),
{
    let mut positions: Vec<usize> = Vec::new();
    proof {
        lemma_index_split(offset);
    }
    let mut byte_idx = offset >> 3;
    if byte_idx >= bytes.len() {
        return positions;
    }
    let skew = (offset & 7) as u8;
    let mut in_progress: u8 = bytes[byte_idx] & (0xffu8 << skew);
    let ghost mut done: int = offset as int;
    proof {
        lemma_bits_of_and(bytes@[byte_idx as int], 0xffu8 << skew);
        lemma_bits_of_high_mask(skew);
    }
    while byte_idx < bytes.len()
        invariant
            8 * bytes@.len() <= usize::MAX,
            offset <= done,
            byte_idx < bytes@.len() ==> 8 * byte_idx <= done <= 8 * byte_idx + 8,
            byte_idx >= bytes@.len() ==> done == 8 * bytes@.len(),
            positions@ == set_positions(bytes@, offset as int, done),
            byte_idx < bytes@.len() ==> forall|k: u8|
                k < 8 ==> #[trigger] bit_of(in_progress, k) == (8 * byte_idx + k >= done && bit_at(
                    bytes@,
                    8 * byte_idx + k,
                )),
        decreases bytes@.len() - byte_idx, 8 * byte_idx + 8 - done,
    {
        if in_progress != 0 {
            let bit_pos = in_progress.trailing_zeros();
            proof {
                axiom_u8_trailing_zeros(in_progress);
                let t = bit_pos as u8;
                lemma_bits_of_xor(in_progress, 1u8 << t);
                lemma_bits_of_single(t);
                assert(bit_of(in_progress, t));
                assert(8 * byte_idx + t >= done && bit_at(bytes@, 8 * byte_idx + t));
                assert forall|i: int| done <= i < 8 * byte_idx + t implies !#[trigger] bit_at(
                    bytes@,
                    i,
                ) by {
                    let k = (i - 8 * byte_idx) as u8;
                    assert((in_progress >> k) & 1u8 == 0u8);
                    assert(!bit_of(in_progress, k));
                }
                lemma_no_set_positions(bytes@, offset as int, done, 8 * byte_idx + t);
                assert(set_positions(bytes@, offset as int, 8 * byte_idx + t + 1) == set_positions(
                    bytes@,
                    offset as int,
                    8 * byte_idx + t,
                ).push((8 * byte_idx + t) as usize));
                done = 8 * byte_idx + t + 1;
            }
            in_progress = in_progress ^ (1u8 << bit_pos);
            positions.push(byte_idx * 8 + (bit_pos as usize));
        } else {
            proof {
                lemma_bits_of_constants();
                assert forall|i: int| done <= i < 8 * byte_idx + 8 implies !#[trigger] bit_at(
                    bytes@,
                    i,
                ) by {
                    let k = (i - 8 * byte_idx) as u8;
                    assert(!bit_of(in_progress, k));
                }
                lemma_no_set_positions(bytes@, offset as int, done, 8 * byte_idx + 8);
                done = 8 * byte_idx + 8;
            }
            byte_idx += 1;
            if byte_idx < bytes.len() {
                in_progress = bytes[byte_idx];
            }
        }
    }
    positions
}

} // verus!
