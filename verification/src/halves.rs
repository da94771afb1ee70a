//! Cutting words in half, joining halves, and rotating them.

use crate::bits::{
    bits_of,
    fits,
    lemma_value_of_bits,
    lemma_value_of_concat,
    lemma_value_of_split,
    value_of,
};
use vstd::arithmetic::power2::{
    lemma2_to64,
    lemma_pow2_adds,
    lemma_pow2_strictly_increases,
    pow2,
};
use vstd::bits::lemma_u16_shl_is_mul;
use vstd::prelude::*;

verus! {

/// `bits` rotated to the left by `by` places: the first `by` bits move to the
/// end.
pub open spec fn rotated_left(bits: Seq<bool>, by: int) -> Seq<bool> {
    bits.subrange(by, bits.len() as int) + bits.subrange(0, by)
}

/// The value of a rotated word, by quotient and remainder.
pub proof fn lemma_value_of_rotated(bits: Seq<bool>, by: int)
    requires
        0 <= by <= bits.len(),
    ensures
        value_of(rotated_left(bits, by)) == (value_of(bits) % pow2((bits.len() - by) as nat))
            * pow2(by as nat) + value_of(bits) / pow2((bits.len() - by) as nat),
{
    lemma_value_of_split(bits, by);
    lemma_value_of_concat(bits.subrange(by, bits.len() as int), bits.subrange(0, by));
}

/// Rotating twice is rotating once by the sum.
pub proof fn lemma_rotated_twice(bits: Seq<bool>, first: int, second: int)
    requires
        0 <= first,
        0 <= second,
        first + second <= bits.len(),
    ensures
        rotated_left(rotated_left(bits, first), second) == rotated_left(bits, first + second),
{
    assert(rotated_left(rotated_left(bits, first), second) =~= rotated_left(bits, first + second));
}

/// Exchanging the halves of a block twice gives the block back.
pub proof fn lemma_switch_undoes_itself(block: Seq<bool>)
    requires
        block.len() == 8,
    ensures
        rotated_left(rotated_left(block, 4), 4) == block,
{
    assert(rotated_left(rotated_left(block, 4), 4) =~= block);
}

/// Splits an 8-bit block into its left and right 4-bit halves.
pub fn split_8bit(key: u8) -> (halves: (u8, u8))
    ensures
        halves.0 == value_of(bits_of(key as nat, 8).subrange(0, 4)),
        halves.1 == value_of(bits_of(key as nat, 8).subrange(4, 8)),
        halves.0 < 16,
        halves.1 < 16,
{
    let left = key >> 4;
    let right = key & 0b1111;
    proof {
        lemma2_to64();
        lemma_value_of_bits(key as nat, 8);
        lemma_value_of_split(bits_of(key as nat, 8), 4);
        assert(key >> 4 == key / 16 && key & 0b1111 == key % 16) by (bit_vector);
    }
    (left, right)
}

/// Splits a 10-bit key into its left and right 5-bit halves.
pub fn split_10bit(key: u16) -> (halves: (u8, u8))
    requires
        key < 1024,
    ensures
        halves.0 == value_of(bits_of(key as nat, 10).subrange(0, 5)),
        halves.1 == value_of(bits_of(key as nat, 10).subrange(5, 10)),
        halves.0 < 32,
        halves.1 < 32,
{
    proof {
        lemma2_to64();
        lemma_value_of_bits(key as nat, 10);
        lemma_value_of_split(bits_of(key as nat, 10), 5);
        assert(key >> 5 == key / 32 && key & 0b11111 == key % 32) by (bit_vector);
    }
    let left = (key >> 5) as u8;
    let right = (key & 0b11111) as u8;
    (left, right)
}

/// Rotates a 5-bit half key to the left by one place.
pub fn left_shift_1bit(key: u8) -> (result: u8)
    ensures
        result == value_of(rotated_left(bits_of(key as nat, 5), 1)),
        result < 32,
{
    proof {
        lemma2_to64();
        lemma_value_of_bits(key as nat, 5);
        lemma_value_of_rotated(bits_of(key as nat, 5), 1);
        assert(((key << 1) & 0b11111 | (key & 0b10000) >> 4) == ((key % 32) % 16) * 2 + (key % 32)
            / 16) by (bit_vector);
    }
    (key << 1) & 0b11111 | (key & 0b10000) >> 4
}

/// Rotates a 5-bit half key to the left by two places.
pub fn left_shift_2bit(key: u8) -> (result: u8)
    ensures
        result == value_of(rotated_left(bits_of(key as nat, 5), 2)),
        result < 32,
{
    proof {
        lemma2_to64();
        lemma_value_of_bits(key as nat, 5);
        lemma_value_of_rotated(bits_of(key as nat, 5), 2);
        assert(((key << 2) & 0b11111 | (key & 0b11000) >> 3) == ((key % 32) % 8) * 4 + (key % 32)
            / 8) by (bit_vector);
    }
    (key << 2) & 0b11111 | (key & 0b11000) >> 3
}

/// Joins two halves of `key_bit_length` bits each into one word, `key1` on
/// the left.
pub fn combine_two_key(key1: u8, key2: u8, key_bit_length: u8) -> (result: u16)
    requires
        key_bit_length <= 8,
        fits(key1 as nat, key_bit_length as nat),
        fits(key2 as nat, key_bit_length as nat),
    ensures
        result == value_of(
            bits_of(key1 as nat, key_bit_length as nat) + bits_of(
                key2 as nat,
                key_bit_length as nat,
            ),
        ),
        fits(result as nat, 2 * key_bit_length as nat),
{
    let high = key1 as u16;
    let low = key2 as u16;
    let shift = key_bit_length as u16;
    proof {
        let n = key_bit_length as nat;
        lemma2_to64();
        lemma_value_of_bits(key1 as nat, n);
        lemma_value_of_bits(key2 as nat, n);
        lemma_value_of_concat(bits_of(key1 as nat, n), bits_of(key2 as nat, n));
        lemma_pow2_adds(n, n);
        assert(pow2(n) <= 256) by {
            if n < 8 {
                lemma_pow2_strictly_increases(n, 8);
            }
        }
        lemma_u16_shl_is_mul(1, shift);
        let unit = 1u16 << shift;
        assert((high << shift) | low == high * unit + low && high * unit + low < unit * unit)
            by (bit_vector)
            requires
                shift <= 8,
                unit == 1u16 << shift,
                high < unit,
                low < unit,
        ;
    }
    (high << shift) | low
}

/// Exchanges the two halves of an 8-bit block.
pub fn switch(input: u8, bit_length: u8) -> (result: u8)
    requires
        bit_length == 8,
    ensures
        result == value_of(rotated_left(bits_of(input as nat, 8), 4)),
{
    proof {
        lemma2_to64();
        lemma_value_of_bits(input as nat, 8);
        lemma_value_of_rotated(bits_of(input as nat, 8), 4);
        assert((input << 4 | input >> 4) == (input % 16) * 16 + input / 16) by (bit_vector);
    }
    input << (bit_length / 2) | input >> (bit_length / 2)
}

} // verus!
