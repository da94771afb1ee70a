use simple_ciphers::permutation::{
    expanded_permutation, final_permutation, initial_permutation, p10_permutation, p4_permutation,
    p8_permutation, permute, EP, FP, IP, P10, P4, P8,
};

#[test]
fn tables_are_the_published_ones() {
    assert_eq!(P10, [3, 5, 2, 7, 4, 10, 1, 9, 8, 6]);
    assert_eq!(P8, [6, 3, 7, 4, 8, 5, 10, 9]);
    assert_eq!(IP, [2, 6, 3, 1, 4, 8, 5, 7]);
    assert_eq!(FP, [4, 1, 3, 5, 7, 2, 8, 6]);
    assert_eq!(EP, [4, 1, 2, 3, 2, 3, 4, 1]);
    assert_eq!(P4, [2, 4, 3, 1]);
}

#[test]
fn p10_exact_values() {
    assert_eq!(p10_permutation(0), 0);
    assert_eq!(p10_permutation(1), 16);
    assert_eq!(p10_permutation(512), 8);
    assert_eq!(p10_permutation(0b1010000010), 0b1000001100);
    assert_eq!(p10_permutation(1023), 1023);
}

#[test]
fn p8_exact_values() {
    assert_eq!(p8_permutation(1), 2);
    assert_eq!(p8_permutation(512), 0);
    assert_eq!(p8_permutation(256), 0);
    assert_eq!(p8_permutation(0b0000111000), 0b10100100);
    assert_eq!(p8_permutation(1023), 255);
}

#[test]
fn initial_permutation_exact_values() {
    assert_eq!(initial_permutation(1), 4);
    assert_eq!(initial_permutation(0x80), 16);
    assert_eq!(initial_permutation(0x97), 0b01011101);
    assert_eq!(initial_permutation(0xFF), 0xFF);
}

#[test]
fn final_permutation_exact_values() {
    assert_eq!(final_permutation(1), 2);
    assert_eq!(final_permutation(0x80), 64);
    assert_eq!(final_permutation(0x97), 203);
}

#[test]
fn expansion_exact_values() {
    assert_eq!(expanded_permutation(0b0001), 0b10000010);
    assert_eq!(expanded_permutation(0b1000), 0b01000001);
    assert_eq!(expanded_permutation(0b0101), 0b10101010);
    assert_eq!(expanded_permutation(0b1111), 0b11111111);
}

#[test]
fn p4_exact_values() {
    assert_eq!(p4_permutation(0b0001), 0b0100);
    assert_eq!(p4_permutation(0b1000), 0b0001);
    assert_eq!(p4_permutation(0b0101), 0b1100);
}

#[test]
fn final_permutation_inverts_initial_permutation() {
    for block in 0..=255u8 {
        assert_eq!(final_permutation(initial_permutation(block)), block);
        assert_eq!(initial_permutation(final_permutation(block)), block);
    }
}

#[test]
fn p10_is_a_bijection_on_ten_bit_words() {
    let mut seen = [false; 1024];
    for key in 0..1024u16 {
        let image = p10_permutation(key);
        assert!(image < 1024);
        assert!(!seen[image as usize]);
        seen[image as usize] = true;
    }
}

#[test]
fn p4_is_a_bijection_on_four_bit_words() {
    let mut seen = [false; 16];
    for word in 0..16u8 {
        let image = p4_permutation(word);
        assert!(image < 16);
        assert!(!seen[image as usize]);
        seen[image as usize] = true;
    }
}

#[test]
fn expansion_loses_no_bit() {
    let mut seen = [false; 256];
    for word in 0..16u8 {
        let image = expanded_permutation(word);
        assert!(!seen[image as usize]);
        seen[image as usize] = true;
    }
}

#[test]
fn permutations_ignore_bits_above_their_width() {
    assert_eq!(p10_permutation(0b1010000010 | 0xFC00), 0b1000001100);
    assert_eq!(p4_permutation(0xF5), 0b1100);
    assert_eq!(expanded_permutation(0xF5), 0b10101010);
}

#[test]
fn permute_follows_the_table() {
    assert_eq!(permute(0b10, 2, &[2, 1]), 0b01);
    assert_eq!(permute(0b10, 2, &[1, 1, 1]), 0b111);
    assert_eq!(permute(0b10, 2, &[2, 2, 2]), 0);
    assert_eq!(permute(0b1011, 4, &[]), 0);
    assert_eq!(permute(0x8001, 16, &[16, 1, 2, 15]), 0b1100);
    assert_eq!(permute(0b1010000010, 10, &P10), p10_permutation(0b1010000010));
}
