//! The bit-width validator.
//!
//! Every word of the cipher has a declared width. The validator hands a word
//! back unchanged when it fits that width and reports a
//! [`BitWidthViolation`] when it does not; it never truncates.

use crate::bits::fits;
use vstd::arithmetic::power2::{lemma2_to64, lemma_pow2_strictly_increases};
use vstd::bits::lemma_u16_shl_is_mul;
use vstd::prelude::*;

verus! {

/// A word that does not fit the width it was declared with.
#[derive(Clone, Copy, Debug, PartialEq, Eq, Structural)]
pub struct BitWidthViolation {
    /// The width, in bits, that the word was expected to fit.
    pub width: u8,
    /// The offending word.
    pub value: u16,
}

/// What the validator answers for `value` against a width of `width` bits.
pub open spec fn width_checked(value: u16, width: u8) -> Result<u16, BitWidthViolation> {
    if fits(value as nat, width as nat) {
        Ok(value)
    } else {
        Err(BitWidthViolation { width, value })
    }
}

/// Checks that `input` fits `bit_length` bits.
pub fn is_bit_length(input: u16, bit_length: u8) -> (result: Result<u16, BitWidthViolation>)
    ensures
        result == width_checked(input, bit_length),
{
    proof {
        lemma2_to64();
        if bit_length < 16 {
            lemma_pow2_strictly_increases(bit_length as nat, 16);
            lemma_u16_shl_is_mul(1, bit_length as u16);
        } else if bit_length > 16 {
            lemma_pow2_strictly_increases(16, bit_length as nat);
        }
    }
    if bit_length >= 16 || input < (1u16 << bit_length) {
        Ok(input)
    } else {
        Err(BitWidthViolation { width: bit_length, value: input })
    }
}

/// Checks that `input` fits 10 bits.
pub fn is_10bit(input: u16) -> (result: Result<u16, BitWidthViolation>)
    ensures
        input < 1024 ==> result == Ok::<u16, BitWidthViolation>(input),
        input >= 1024 ==> result == Err::<u16, BitWidthViolation>(
            BitWidthViolation { width: 10, value: input },
        ),
{
    proof {
        lemma2_to64();
    }
    is_bit_length(input, 10)
}

/// Checks that `input` fits 8 bits, which every `u8` does.
pub fn is_8bit(input: u8) -> (result: Result<u8, BitWidthViolation>)
    ensures
        result == Ok::<u8, BitWidthViolation>(input),
{
    proof {
        lemma2_to64();
    }
    match is_bit_length(input as u16, 8) {
        Ok(_) => Ok(input),
        Err(violation) => Err(violation),
    }
}

/// Checks that `input` fits 5 bits.
pub fn is_5bit(input: u8) -> (result: Result<u8, BitWidthViolation>)
    ensures
        input < 32 ==> result == Ok::<u8, BitWidthViolation>(input),
        input >= 32 ==> result == Err::<u8, BitWidthViolation>(
            BitWidthViolation { width: 5, value: input as u16 },
        ),
{
    proof {
        lemma2_to64();
    }
    match is_bit_length(input as u16, 5) {
        Ok(_) => Ok(input),
        Err(violation) => Err(violation),
    }
}

/// Checks that `input` fits 4 bits.
pub fn is_4bit(input: u8) -> (result: Result<u8, BitWidthViolation>)
    ensures
        input < 16 ==> result == Ok::<u8, BitWidthViolation>(input),
        input >= 16 ==> result == Err::<u8, BitWidthViolation>(
            BitWidthViolation { width: 4, value: input as u16 },
        ),
{
    proof {
        lemma2_to64();
    }
    match is_bit_length(input as u16, 4) {
        Ok(_) => Ok(input),
        Err(violation) => Err(violation),
    }
}

} // verus!
