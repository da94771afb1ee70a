use simple_ciphers::sdes::{encrypt, fk, generate_key};

#[test]
fn reference_vector_round_keys() {
    let (key1, key2) = generate_key(0b1010000010);
    assert_eq!(key1, 0b10100100);
    assert_eq!(key2, 0b01000011);
}

#[test]
fn reference_vector_ciphertext() {
    let (key1, key2) = generate_key(0b1010000010);
    assert_eq!(encrypt(key1, key2, 0b10010111), 0b00111000);
}

#[test]
fn encrypt_exact_values() {
    assert_eq!(encrypt(0xA4, 0x43, 0x00), 206);
    assert_eq!(encrypt(0xA4, 0x43, 0x01), 129);
    assert_eq!(encrypt(0xA4, 0x43, 0xFF), 42);
    assert_eq!(encrypt(0xA4, 0x43, 0x96), 172);
    assert_eq!(encrypt(0, 0, 0), 240);
    assert_eq!(encrypt(0, 0, 1), 137);
    assert_eq!(encrypt(0, 0, 255), 20);
}

#[test]
fn encrypt_is_deterministic() {
    for key1 in [0u8, 0x43, 0xA4, 0xFF] {
        for key2 in [0u8, 0x43, 0xA4, 0xFF] {
            for plain in 0..=255u8 {
                assert_eq!(encrypt(key1, key2, plain), encrypt(key1, key2, plain));
            }
        }
    }
}

#[test]
fn flipping_one_plaintext_bit_changes_the_ciphertext() {
    let (key1, key2) = generate_key(0b1010000010);
    for plain in 0..=255u8 {
        for bit in 0..8 {
            let flipped = plain ^ (1 << bit);
            assert_ne!(encrypt(key1, key2, plain), encrypt(key1, key2, flipped));
        }
    }
}

#[test]
fn encrypt_is_a_bijection_on_blocks() {
    let (key1, key2) = generate_key(0b0111111101);
    let mut seen = [false; 256];
    for plain in 0..=255u8 {
        let cipher = encrypt(key1, key2, plain);
        assert!(!seen[cipher as usize]);
        seen[cipher as usize] = true;
    }
}

#[test]
fn reversed_round_keys_decrypt() {
    for master in [0u16, 1, 0b1010000010, 0b0111111101, 1023] {
        let (key1, key2) = generate_key(master);
        for plain in 0..=255u8 {
            assert_eq!(encrypt(key2, key1, encrypt(key1, key2, plain)), plain);
        }
    }
}

#[test]
fn round_function_values() {
    assert_eq!(fk(0xA4, 0x97), 7);
    assert_eq!(fk(0, 0), 128);
    assert_eq!(fk(0xff, 0xff), 127);
}

#[test]
fn round_function_keeps_the_right_half() {
    for key in [0u8, 0x43, 0xA4, 0xFF] {
        for block in 0..=255u8 {
            assert_eq!(fk(key, block) & 0x0F, block & 0x0F);
        }
    }
}

#[test]
fn round_function_undoes_itself() {
    for key in [0u8, 0x43, 0xA4, 0xFF] {
        for block in 0..=255u8 {
            assert_eq!(fk(key, fk(key, block)), block);
        }
    }
}
