//! Simplified DES: the key schedule, the round function and the cipher.
//!
//! The cipher works on 8-bit blocks under a 10-bit master key. The key
//! schedule turns the master key into two 8-bit round keys. A block is
//! encrypted by the initial permutation, a round under the first key, an
//! exchange of the two halves, a round under the second key and the final
//! permutation.
//!
//! The contracts describe all of this on sequences of bits (see
//! [`crate::bits`]): [`round_key_bits`], [`round_bits`] and
//! [`encrypted_bits`] say what is computed, and each function returns the
//! word that those bits spell.

use crate::bits::{
    bits_of,
    fits,
    lemma_bits_of_injective,
    lemma_bits_of_value,
    lemma_bits_of_xor,
    lemma_value_of_bits,
    lemma_value_of_fits,
    value_of,
    xor_bits,
};
use crate::halves::{
    combine_two_key,
    left_shift_1bit,
    left_shift_2bit,
    lemma_rotated_twice,
    lemma_switch_undoes_itself,
    rotated_left,
    split_10bit,
    split_8bit,
    switch,
};
use crate::permutation::{
    expanded_permutation,
    final_permutation,
    initial_permutation,
    lemma_final_inverts_initial,
    lemma_initial_inverts_final,
    p10_permutation,
    p4_permutation,
    p8_permutation,
    permuted,
    EP,
    FP,
    IP,
    P10,
    P4,
    P8,
};
use crate::sbox::{sbox, substituted};
use vstd::arithmetic::power2::lemma2_to64;
use vstd::prelude::*;

verus! {

/// The 10 bits of the master key after P10, each half rotated to the left by
/// `shift` places.
pub open spec fn shifted_key_bits(master: Seq<bool>, shift: int) -> Seq<bool> {
    let mixed = permuted(master, P10@);
    rotated_left(mixed.subrange(0, 5), shift) + rotated_left(mixed.subrange(5, 10), shift)
}

/// The round key that a master key yields at a cumulative rotation of `shift`
/// places: 1 for the first round key, 3 for the second.
pub open spec fn round_key_bits(master: Seq<bool>, shift: int) -> Seq<bool> {
    permuted(shifted_key_bits(master, shift), P8@)
}

/// One round of the cipher on an 8-bit block under an 8-bit round key.
///
/// The right half is expanded, mixed with the key and substituted; the
/// outcome, permuted by P4, is mixed into the left half. The right half
/// itself passes through unchanged.
pub open spec fn round_bits(key: Seq<bool>, block: Seq<bool>) -> Seq<bool> {
    let left = block.subrange(0, 4);
    let right = block.subrange(4, 8);
    let mixed = xor_bits(key, permuted(right, EP@));
    let boxed = substituted(mixed.subrange(0, 4), mixed.subrange(4, 8));
    xor_bits(left, permuted(boxed, P4@)) + right
}

/// The ciphertext of the 8-bit block `plain` under the round keys `key1` and
/// `key2`.
pub open spec fn encrypted_bits(key1: Seq<bool>, key2: Seq<bool>, plain: Seq<bool>) -> Seq<bool> {
    let first = round_bits(key1, permuted(plain, IP@));
    let second = round_bits(key2, rotated_left(first, 4));
    permuted(second, FP@)
}

/// Both round keys are 8 bits long, whatever the master key.
pub proof fn lemma_round_key_fits(master: Seq<bool>, shift: int)
    ensures
        round_key_bits(master, shift).len() == 8,
        fits(value_of(round_key_bits(master, shift)), 8),
{
    lemma_value_of_fits(round_key_bits(master, shift));
}

/// A round leaves the right half of the block as it was.
pub proof fn lemma_round_keeps_right_half(key: Seq<bool>, block: Seq<bool>)
    requires
        block.len() == 8,
    ensures
        round_bits(key, block).len() == 8,
        round_bits(key, block).subrange(4, 8) == block.subrange(4, 8),
{
    assert(round_bits(key, block).subrange(4, 8) =~= block.subrange(4, 8));
}

/// A round under the same key undoes itself.
pub proof fn lemma_round_undoes_itself(key: Seq<bool>, block: Seq<bool>)
    requires
        block.len() == 8,
    ensures
        round_bits(key, round_bits(key, block)) == block,
{
    let once = round_bits(key, block);
    let left = block.subrange(0, 4);
    let right = block.subrange(4, 8);
    let mixed = xor_bits(key, permuted(right, EP@));
    let mask = permuted(substituted(mixed.subrange(0, 4), mixed.subrange(4, 8)), P4@);
    assert(once.subrange(0, 4) =~= xor_bits(left, mask));
    assert(once.subrange(4, 8) =~= right);
    assert(xor_bits(xor_bits(left, mask), mask) =~= left);
    assert(left + right =~= block);
}

/// Encrypting a ciphertext with the two round keys exchanged gives the
/// plaintext back: the cipher is its own inverse up to the order of the keys.
pub proof fn lemma_reversed_keys_decrypt(key1: Seq<bool>, key2: Seq<bool>, plain: Seq<bool>)
    requires
        plain.len() == 8,
    ensures
        encrypted_bits(key2, key1, encrypted_bits(key1, key2, plain)) == plain,
{
    let start = permuted(plain, IP@);
    let first = round_bits(key1, start);
    let second = round_bits(key2, rotated_left(first, 4));
    lemma_initial_inverts_final(second);
    lemma_round_undoes_itself(key2, rotated_left(first, 4));
    lemma_switch_undoes_itself(first);
    lemma_round_undoes_itself(key1, start);
    lemma_final_inverts_initial(plain);
}

/// Under fixed round keys, different plaintexts have different ciphertexts:
/// changing any bit of the plaintext changes the ciphertext.
pub proof fn lemma_encryption_is_injective(
    key1: Seq<bool>,
    key2: Seq<bool>,
    plain: Seq<bool>,
    other: Seq<bool>,
)
    requires
        plain.len() == 8,
        other.len() == 8,
        plain != other,
    ensures
        encrypted_bits(key1, key2, plain) != encrypted_bits(key1, key2, other),
{
    lemma_reversed_keys_decrypt(key1, key2, plain);
    lemma_reversed_keys_decrypt(key1, key2, other);
}

/// On words: under fixed round keys, different plaintext blocks encrypt to
/// different ciphertext blocks.
pub proof fn lemma_ciphertexts_differ(key1: u8, key2: u8, plain: u8, other: u8)
    requires
        plain != other,
    ensures
        value_of(
            encrypted_bits(bits_of(key1 as nat, 8), bits_of(key2 as nat, 8), bits_of(plain as nat, 8)),
        ) != value_of(
            encrypted_bits(bits_of(key1 as nat, 8), bits_of(key2 as nat, 8), bits_of(other as nat, 8)),
        ),
{
    let k1 = bits_of(key1 as nat, 8);
    let k2 = bits_of(key2 as nat, 8);
    let p = bits_of(plain as nat, 8);
    let q = bits_of(other as nat, 8);
    lemma2_to64();
    if p == q {
        lemma_bits_of_injective(plain as nat, other as nat, 8);
    }
    lemma_encryption_is_injective(k1, k2, p, q);
    lemma_bits_of_value(encrypted_bits(k1, k2, p));
    lemma_bits_of_value(encrypted_bits(k1, k2, q));
}

/// On words: encrypting a ciphertext block with the round keys exchanged
/// gives the plaintext block back.
pub proof fn lemma_reversed_keys_decrypt_words(key1: u8, key2: u8, plain: u8)
    ensures
        value_of(
            encrypted_bits(
                bits_of(key2 as nat, 8),
                bits_of(key1 as nat, 8),
                bits_of(
                    value_of(
                        encrypted_bits(
                            bits_of(key1 as nat, 8),
                            bits_of(key2 as nat, 8),
                            bits_of(plain as nat, 8),
                        ),
                    ),
                    8,
                ),
            ),
        ) == plain,
{
    let k1 = bits_of(key1 as nat, 8);
    let k2 = bits_of(key2 as nat, 8);
    let p = bits_of(plain as nat, 8);
    lemma2_to64();
    lemma_bits_of_value(encrypted_bits(k1, k2, p));
    lemma_reversed_keys_decrypt(k1, k2, p);
    lemma_value_of_bits(plain as nat, 8);
}

/// The word whose bits are the exclusive-or of the bits of two words is their
/// bitwise exclusive-or.
proof fn lemma_xor_of_words(a: u8, b: u8, width: nat)
    requires
        width == 4 || width == 8,
        fits(a as nat, width),
        fits(b as nat, width),
    ensures
        a ^ b == value_of(xor_bits(bits_of(a as nat, width), bits_of(b as nat, width))),
        fits((a ^ b) as nat, width),
{
    lemma2_to64();
    assert((a ^ b) as u16 == (a as u16) ^ (b as u16)) by (bit_vector);
    assert(a < 16 && b < 16 ==> a ^ b < 16) by (bit_vector);
    lemma_bits_of_xor(a as u16, b as u16, width);
    lemma_value_of_bits((a ^ b) as nat, width);
}

/// One round of the cipher: mixes the left half of `ip` with a function of
/// its right half and of `key`, and keeps the right half.
pub fn fk(key: u8, ip: u8) -> (result: u8)
    ensures
        result == value_of(round_bits(bits_of(key as nat, 8), bits_of(ip as nat, 8))),
{
    let (ip_left, ip_right) = split_8bit(ip);
    let ep = expanded_permutation(ip_right);

    let xor_with_key = key ^ ep;
    let (xor_with_key_left, xor_with_key_right) = split_8bit(xor_with_key);
    let sbox = sbox(xor_with_key_left, xor_with_key_right);
    let p4 = p4_permutation(sbox);
    let xor_with_ip_left = ip_left ^ p4;
    proof {
        let block = bits_of(ip as nat, 8);
        let left = block.subrange(0, 4);
        let right = block.subrange(4, 8);
        let expanded = permuted(right, EP@);
        let mixed = xor_bits(bits_of(key as nat, 8), expanded);
        let boxed = substituted(mixed.subrange(0, 4), mixed.subrange(4, 8));
        let shuffled = permuted(boxed, P4@);
        lemma2_to64();
        lemma_bits_of_value(left);
        lemma_bits_of_value(right);
        lemma_bits_of_value(expanded);
        lemma_xor_of_words(key, ep, 8);
        lemma_bits_of_value(mixed);
        lemma_bits_of_value(mixed.subrange(0, 4));
        lemma_bits_of_value(mixed.subrange(4, 8));
        lemma_bits_of_value(boxed);
        lemma_bits_of_value(shuffled);
        lemma_xor_of_words(ip_left, p4, 4);
        lemma_bits_of_value(xor_bits(left, shuffled));
    }
    combine_two_key(xor_with_ip_left, ip_right, 4) as u8
}

/// Encrypts the block `plain_text` under the round keys `key1` and `key2`.
///
/// The result depends on the three arguments alone: it is the word that
/// [`encrypted_bits`] spells.
pub fn encrypt(key1: u8, key2: u8, plain_text: u8) -> (cipher_text: u8)
    ensures
        cipher_text == value_of(
            encrypted_bits(
                bits_of(key1 as nat, 8),
                bits_of(key2 as nat, 8),
                bits_of(plain_text as nat, 8),
            ),
        ),
{
    let ip = initial_permutation(plain_text);
    let fk_first = fk(key1, ip);
    let switch = switch(fk_first, 8);
    let fk_second = fk(key2, switch);
    proof {
        let start = permuted(bits_of(plain_text as nat, 8), IP@);
        let first = round_bits(bits_of(key1 as nat, 8), start);
        let second = round_bits(bits_of(key2 as nat, 8), rotated_left(first, 4));
        lemma_bits_of_value(start);
        lemma_bits_of_value(first);
        lemma_bits_of_value(rotated_left(first, 4));
        lemma_bits_of_value(second);
    }
    final_permutation(fk_second)
}

/// Derives the two round keys from the 10-bit master key `key`.
pub fn generate_key(key: u16) -> (keys: (u8, u8))
    requires
        key < 1024,
    ensures
        keys.0 == value_of(round_key_bits(bits_of(key as nat, 10), 1)),
        keys.1 == value_of(round_key_bits(bits_of(key as nat, 10), 3)),
        keys.0 < 256,
        keys.1 < 256,
{
    let after_p10 = p10_permutation(key);
    let (k1, k2) = split_10bit(after_p10);

    let k1 = left_shift_1bit(k1);
    let k2 = left_shift_1bit(k2);
    proof {
        let mixed = permuted(bits_of(key as nat, 10), P10@);
        lemma2_to64();
        lemma_bits_of_value(mixed);
        lemma_bits_of_value(mixed.subrange(0, 5));
        lemma_bits_of_value(mixed.subrange(5, 10));
        lemma_bits_of_value(rotated_left(mixed.subrange(0, 5), 1));
        lemma_bits_of_value(rotated_left(mixed.subrange(5, 10), 1));
        lemma_bits_of_value(shifted_key_bits(bits_of(key as nat, 10), 1));
    }
    let key1 = p8_permutation(combine_two_key(k1, k2, 5));

    let k1 = left_shift_2bit(k1);
    let k2 = left_shift_2bit(k2);
    proof {
        let mixed = permuted(bits_of(key as nat, 10), P10@);
        lemma_rotated_twice(mixed.subrange(0, 5), 1, 2);
        lemma_rotated_twice(mixed.subrange(5, 10), 1, 2);
        lemma_bits_of_value(rotated_left(mixed.subrange(0, 5), 3));
        lemma_bits_of_value(rotated_left(mixed.subrange(5, 10), 3));
        lemma_bits_of_value(shifted_key_bits(bits_of(key as nat, 10), 3));
    }
    let key2 = p8_permutation(combine_two_key(k1, k2, 5));

    (key1, key2)
}

} // verus!
