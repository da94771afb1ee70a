use simple_ciphers::demo::encrypt_random_block;
use simple_ciphers::sdes::{encrypt, generate_key};

#[test]
fn demonstration_reports_keys_block_and_ciphertext() {
    for _ in 0..64 {
        let run = encrypt_random_block(0b1010000010);
        assert_eq!(run.key1, 0b10100100);
        assert_eq!(run.key2, 0b01000011);
        assert_eq!(run.encrypted, encrypt(run.key1, run.key2, run.input));
    }
}

#[test]
fn demonstration_uses_the_round_keys_of_its_master_key() {
    for master in [0u16, 1, 0b0111111101, 1023] {
        let run = encrypt_random_block(master);
        assert_eq!((run.key1, run.key2), generate_key(master));
        assert_eq!(run.encrypted, encrypt(run.key1, run.key2, run.input));
    }
}

#[test]
fn demonstration_draws_more_than_one_block() {
    let first = encrypt_random_block(0b1010000010).input;
    let mut differs = false;
    for _ in 0..256 {
        if encrypt_random_block(0b1010000010).input != first {
            differs = true;
        }
    }
    assert!(differs);
}
