use vstd::prelude::*;

verus! {

/// Bit `k` (counted from the least significant bit) of the byte `b`.
pub open spec fn byte_bit(b: u8, k: int) -> bool {
    (b >> (k as u8)) & 1u8 == 1u8
}

/// Number of bytes needed to hold `n` bits.
pub open spec fn bytes_for_bits(n: int) -> int {
    if n % 8 != 0 {
        n / 8 + 1
    } else {
        n / 8
    }
}

/// The mask with only bit `k` set.
pub open spec fn bit_mask(k: u8) -> u8 {
    1u8 << k
}

pub proof fn lemma_mask_test(b: u8, k: u8)
    requires
        k < 8,
    ensures
        ((b & bit_mask(k)) != 0u8) == byte_bit(b, k as int),
{
    assert(((b & (1u8 << k)) != 0u8) == ((b >> k) & 1u8 == 1u8)) by (bit_vector)
        requires
            k < 8u8,
    ;
}

pub proof fn lemma_mask_set(b: u8, k: u8, j: u8)
    requires
        k < 8,
        j < 8,
    ensures
        byte_bit(b | bit_mask(k), j as int) == (j == k || byte_bit(b, j as int)),
{
    assert((((b | (1u8 << k)) >> j) & 1u8 == 1u8) == (j == k || (b >> j) & 1u8 == 1u8))
        by (bit_vector)
        requires
            k < 8u8,
            j < 8u8,
    ;
}

pub proof fn lemma_mask_clear(b: u8, k: u8, j: u8)
    requires
        k < 8,
        j < 8,
    ensures
        byte_bit(b & !bit_mask(k), j as int) == (j != k && byte_bit(b, j as int)),
{
    assert((((b & !(1u8 << k)) >> j) & 1u8 == 1u8) == (j != k && (b >> j) & 1u8 == 1u8))
        by (bit_vector)
        requires
            k < 8u8,
            j < 8u8,
    ;
}

pub proof fn lemma_full_and_empty_bytes(j: u8)
    requires
        j < 8,
    ensures
        byte_bit(0xffu8, j as int),
        !byte_bit(0u8, j as int),
{
    assert((0xffu8 >> j) & 1u8 == 1u8) by (bit_vector)
        requires
            j < 8u8,
    ;
    assert((0u8 >> j) & 1u8 == 0u8) by (bit_vector);
}

} // verus!
