//! Bits within bytes, least significant bit first.
use vstd::prelude::*;

verus! {

/// Whether bit `k` of the byte is set, counting from the least significant
/// bit.
pub open spec fn bit_of(b: u8, k: u8) -> bool {
    (b >> k) & 1u8 == 1u8
}

/// Whether bit `i` of the bytes is set: bit `i % 8` of byte `i / 8`.
pub open spec fn bit_at(bytes: Seq<u8>, i: int) -> bool {
    bit_of(bytes[i / 8], (i % 8) as u8)
}

/// The bits that the bytes hold, eight per byte.
pub open spec fn bits_of(bytes: Seq<u8>) -> Seq<bool> {
    Seq::new(8 * bytes.len(), |i: int| bit_at(bytes, i))
}

proof fn lemma_byte_by_each_bit(a: u8, b: u8)
    by (bit_vector)
    requires
        bit_of(a, 0) == bit_of(b, 0),
        bit_of(a, 1) == bit_of(b, 1),
        bit_of(a, 2) == bit_of(b, 2),
        bit_of(a, 3) == bit_of(b, 3),
        bit_of(a, 4) == bit_of(b, 4),
        bit_of(a, 5) == bit_of(b, 5),
        bit_of(a, 6) == bit_of(b, 6),
        bit_of(a, 7) == bit_of(b, 7),
    ensures
        a == b,
{
}

/// A byte is what its eight bits are.
pub proof fn lemma_byte_by_bits(a: u8, b: u8)
    requires
        forall|k: u8| k < 8 ==> bit_of(a, k) == bit_of(b, k),
    ensures
        a == b,
{
    lemma_byte_by_each_bit(a, b);
}

/// The bits of the bytes with none and with all bits set.
pub proof fn lemma_bits_of_constants()
    by (bit_vector)
    ensures
        forall|k: u8| k < 8 ==> !#[trigger] bit_of(0u8, k),
        forall|k: u8| k < 8 ==> #[trigger] bit_of(0xffu8, k),
{
}

/// A bit that is not set reads as zero.
pub proof fn lemma_bit_values(b: u8, k: u8)
    by (bit_vector)
    requires
        k < 8,
    ensures
        bit_of(b, k) <==> (b >> k) & 1u8 != 0u8,
        !bit_of(b, k) <==> (b >> k) & 1u8 == 0u8,
{
}

/// The bits of the union of two bytes.
pub proof fn lemma_bits_of_or(a: u8, b: u8)
    by (bit_vector)
    ensures
        forall|k: u8| k < 8 ==> #[trigger] bit_of(a | b, k) == (bit_of(a, k) || bit_of(b, k)),
{
}

/// The bits of a byte of which the bits from `r` on are cleared.
pub proof fn lemma_bits_of_masked(b: u8, r: u8)
    by (bit_vector)
    requires
        0 < r < 8,
    ensures
        1u8 << r >= 1u8,
        forall|k: u8|
            k < 8 ==> #[trigger] bit_of(b & ((1u8 << r) - 1) as u8, k) == (k < r && bit_of(b, k)),
{
}

/// The bits of the byte with the lowest `r` bits set.
pub proof fn lemma_bits_of_low_mask(r: u8)
    by (bit_vector)
    requires
        0 < r < 8,
    ensures
        1u8 << r >= 1u8,
        ((1u8 << r) - 1) as u8 == !(0xffu8 << r),
        forall|k: u8| k < 8 ==> #[trigger] bit_of(((1u8 << r) - 1) as u8, k) == (k < r),
{
}

/// The bits of the byte with the bits from `s` on set.
pub proof fn lemma_bits_of_high_mask(s: u8)
    by (bit_vector)
    requires
        s < 8,
    ensures
        forall|k: u8| k < 8 ==> #[trigger] bit_of(0xffu8 << s, k) == (k >= s),
{
}

/// The bits of a byte with one more bit set.
pub proof fn lemma_bits_of_single(j: u8)
    by (bit_vector)
    requires
        j < 8,
    ensures
        forall|k: u8| k < 8 ==> #[trigger] bit_of(1u8 << j, k) == (k == j),
{
}

/// The bits of the part that two bytes have in common.
pub proof fn lemma_bits_of_and(a: u8, b: u8)
    by (bit_vector)
    ensures
        forall|k: u8| k < 8 ==> #[trigger] bit_of(a & b, k) == (bit_of(a, k) && bit_of(b, k)),
{
}

/// The bits of a byte with the bits of another flipped in it.
pub proof fn lemma_bits_of_xor(a: u8, b: u8)
    by (bit_vector)
    ensures
        forall|k: u8| k < 8 ==> #[trigger] bit_of(a ^ b, k) == (bit_of(a, k) != bit_of(b, k)),
{
}

/// Bit `k` of a byte into which another byte is spliced `skew` places up, and
/// bit `k` of what is left over of that other byte.
pub proof fn lemma_spliced_bit(held: u8, byte: u8, skew: u8, k: u8)
    by (bit_vector)
    requires
        0 < skew < 8,
        k < 8,
    ensures
        bit_of(held | (byte << skew), k) == (bit_of(held, k) || (k >= skew && bit_of(
            byte,
            (k - skew) as u8,
        ))),
        bit_of(byte >> ((8 - skew) as u8), k) == (k < skew && bit_of(
            byte,
            (k + (8 - skew)) as u8,
        )),
{
}

/// Bit `k` of a byte of which the bits from `skew` on are set.
pub proof fn lemma_filled_bit(byte: u8, skew: u8, k: u8)
    by (bit_vector)
    requires
        skew < 8,
        k < 8,
    ensures
        bit_of(byte | (0xffu8 << skew), k) == (k >= skew || bit_of(byte, k)),
{
}

/// Bit `k` of a byte of which the bits from `r` on are cleared.
pub proof fn lemma_masked_bit(byte: u8, r: u8, k: u8)
    by (bit_vector)
    requires
        0 < r < 8,
        k < 8,
    ensures
        1u8 << r >= 1u8,
        bit_of(byte & ((1u8 << r) - 1) as u8, k) == (k < r && bit_of(byte, k)),
{
}

/// Bit `k` of a byte moved down by `skew` places.
pub proof fn lemma_shifted_bit(byte: u8, skew: u8, k: u8)
    by (bit_vector)
    requires
        skew < 8,
        k < 8,
    ensures
        bit_of(byte >> skew, k) == (k < 8 - skew && bit_of(byte, (k + skew) as u8)),
{
}

/// Where a bit lies: shifts and masks on an index are division by eight and
/// its remainder.
pub proof fn lemma_index_split(i: usize)
    by (bit_vector)
    ensures
        i >> 3 == i / 8,
        i & 7 == i % 8,
{
}

} // verus!
