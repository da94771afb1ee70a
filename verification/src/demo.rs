//! A demonstration run of the cipher on a block drawn at random.

use crate::bits::{bits_of, value_of};
use crate::sdes::{encrypt, encrypted_bits, generate_key, round_key_bits};
use rand::Rng;
use vstd::prelude::*;

verus! {

/// The numbers of one demonstration run.
#[derive(Clone, Copy, Debug, PartialEq, Eq, Structural)]
pub struct Demonstration {
    /// The first round key.
    pub key1: u8,
    /// The second round key.
    pub key2: u8,
    /// The block that was drawn.
    pub input: u8,
    /// The ciphertext of that block under the two round keys.
    pub encrypted: u8,
}

/// Draws one byte from the thread-local generator of the `rand` crate, by
/// `rand::thread_rng()` and `Rng::gen`.
///
/// Nothing is claimed of the byte and nothing was proved of the call: any of
/// the 256 values may come back, and two calls may differ. `thread_rng`
/// panics where the operating system cannot seed the generator on its first
/// use in a thread.
#[verifier::external_body]
fn random_block() -> (block: u8) {
    rand::thread_rng().gen()
}

/// Derives the round keys of the master key `key`, draws a block at random
/// and encrypts it.
///
/// Whatever block is drawn, the run reports it together with its ciphertext
/// under the round keys of `key`.
pub fn encrypt_random_block(key: u16) -> (run: Demonstration)
    requires
        key < 1024,
    ensures
        run.key1 == value_of(round_key_bits(bits_of(key as nat, 10), 1)),
        run.key2 == value_of(round_key_bits(bits_of(key as nat, 10), 3)),
        run.encrypted == value_of(
            encrypted_bits(
                bits_of(run.key1 as nat, 8),
                bits_of(run.key2 as nat, 8),
                bits_of(run.input as nat, 8),
            ),
        ),
{
    let (key1, key2) = generate_key(key);
    let input = random_block();
    let encrypted = encrypt(key1, key2, input);
    Demonstration { key1, key2, input, encrypted }
}

} // verus!
