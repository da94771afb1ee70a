//! The two substitution boxes.
//!
//! Each box is a table of four rows and four columns of 2-bit entries. A
//! 4-bit input selects an entry: its outer bits (first and last) give the row,
//! its inner bits (second and third) the column.

use crate::bits::{
    bits_of,
    lemma_value_of_bits,
    lemma_value_of_concat,
    lemma_value_of_pair,
    value_of,
};
use vstd::arithmetic::power2::lemma2_to64;
use vstd::prelude::*;

verus! {

/// The box for the left four bits.
pub const SBOX0: [[u8; 4]; 4] = [[1, 0, 3, 2], [3, 2, 1, 0], [0, 2, 1, 3], [3, 1, 3, 2]];

/// The box for the right four bits.
pub const SBOX1: [[u8; 4]; 4] = [[0, 1, 2, 3], [2, 0, 1, 3], [3, 0, 1, 0], [2, 1, 0, 3]];

/// The row that a 4-bit input selects: its first and last bit, read as a
/// number.
pub open spec fn sbox_row(nibble: Seq<bool>) -> nat {
    value_of(seq![nibble[0], nibble[3]])
}

/// The column that a 4-bit input selects: its two middle bits, read as a
/// number.
pub open spec fn sbox_column(nibble: Seq<bool>) -> nat {
    value_of(seq![nibble[1], nibble[2]])
}

/// The entry of `table` that a 4-bit input selects.
pub open spec fn sbox_entry(table: [[u8; 4]; 4], nibble: Seq<bool>) -> u8 {
    table@[sbox_row(nibble) as int]@[sbox_column(nibble) as int]
}

/// The four bits that leave the boxes: two from [`SBOX0`] for the left
/// input, then two from [`SBOX1`] for the right input.
pub open spec fn substituted(left: Seq<bool>, right: Seq<bool>) -> Seq<bool> {
    bits_of(sbox_entry(SBOX0, left) as nat, 2) + bits_of(sbox_entry(SBOX1, right) as nat, 2)
}

/// Looks up the entry of `sbox` that the 4-bit `input` selects.
pub fn apply_sbox(input: u8, sbox: [[u8; 4]; 4]) -> (result: u8)
    ensures
        result == sbox_entry(sbox, bits_of(input as nat, 4)),
{
    let row = ((input >> 2) & 0b10) | input & 1;
    let column = (input >> 1) & (0b011);
    proof {
        let nibble = bits_of(input as nat, 4);
        lemma2_to64();
        lemma_value_of_pair(nibble[0], nibble[3]);
        lemma_value_of_pair(nibble[1], nibble[2]);
        assert(input as nat / 1 == input);
        assert((((input >> 2) & 0b10) | input & 1) == 2 * ((input / 8) % 2) + input % 2 && ((input
            >> 1) & 0b011) == 2 * ((input / 4) % 2) + (input / 2) % 2) by (bit_vector);
    }
    sbox[row as usize][column as usize]
}

/// Substitutes the two halves of a key-mixed byte: `left` through [`SBOX0`],
/// `right` through [`SBOX1`].
pub fn sbox(left: u8, right: u8) -> (result: u8)
    ensures
        result == value_of(substituted(bits_of(left as nat, 4), bits_of(right as nat, 4))),
        result < 16,
{
    let s0 = apply_sbox(left, SBOX0);
    let s1 = apply_sbox(right, SBOX1);
    proof {
        lemma2_to64();
        lemma_value_of_pair(bits_of(left as nat, 4)[0], bits_of(left as nat, 4)[3]);
        lemma_value_of_pair(bits_of(left as nat, 4)[1], bits_of(left as nat, 4)[2]);
        lemma_value_of_pair(bits_of(right as nat, 4)[0], bits_of(right as nat, 4)[3]);
        lemma_value_of_pair(bits_of(right as nat, 4)[1], bits_of(right as nat, 4)[2]);
        assert(s0 <= 3);
        assert(s1 <= 3);
        lemma_value_of_bits(s0 as nat, 2);
        lemma_value_of_bits(s1 as nat, 2);
        lemma_value_of_concat(bits_of(s0 as nat, 2), bits_of(s1 as nat, 2));
        assert(value_of(bits_of(s0 as nat, 2) + bits_of(s1 as nat, 2)) == s0 * 4 + s1);
        assert((s0 << 2 | s1) == 4 * s0 + s1) by (bit_vector)
            requires
                s0 <= 3,
                s1 <= 3,
        ;
    }
    s0 << 2 | s1
}

} // verus!
