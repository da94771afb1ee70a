//! Two small ciphers for study, with their behaviour proved.
//!
//! [`sdes`] is Simplified DES: an 8-bit block cipher under a 10-bit key, built
//! from the permutations in [`permutation`], the substitution boxes in
//! [`sbox`] and the half-word operations in [`halves`]. Its contracts speak
//! of words as sequences of bits, see [`bits`]; [`width`] checks that a word
//! fits its declared width. [`demo`] encrypts a block drawn at random.
//!
//! [`rsa`] walks through RSA with two small fixed primes.

pub mod bits;
pub mod demo;
pub mod halves;
pub mod permutation;
pub mod rsa;
pub mod sbox;
pub mod sdes;
pub mod width;
