use simple_ciphers::halves::{
    combine_two_key, left_shift_1bit, left_shift_2bit, split_10bit, split_8bit, switch,
};

#[test]
fn split_8bit_gives_high_and_low_nibble() {
    assert_eq!(split_8bit(0x97), (0x9, 0x7));
    assert_eq!(split_8bit(0x00), (0, 0));
    assert_eq!(split_8bit(0xFF), (15, 15));
    assert_eq!(split_8bit(0x0F), (0, 15));
}

#[test]
fn split_10bit_gives_high_and_low_five_bits() {
    assert_eq!(split_10bit(0b1000001100), (0b10000, 0b01100));
    assert_eq!(split_10bit(0), (0, 0));
    assert_eq!(split_10bit(1023), (31, 31));
    assert_eq!(split_10bit(0b0000111111), (1, 31));
}

#[test]
fn left_shift_1bit_rotates_five_bits() {
    assert_eq!(left_shift_1bit(0b10000), 0b00001);
    assert_eq!(left_shift_1bit(0b01100), 0b11000);
    assert_eq!(left_shift_1bit(0b11111), 0b11111);
    assert_eq!(left_shift_1bit(0), 0);
    assert_eq!(left_shift_1bit(0b10101), 0b01011);
}

#[test]
fn left_shift_2bit_rotates_five_bits() {
    assert_eq!(left_shift_2bit(0b10000), 0b00010);
    assert_eq!(left_shift_2bit(0b00001), 0b00100);
    assert_eq!(left_shift_2bit(0b11000), 0b00011);
    assert_eq!(left_shift_2bit(0b10101), 0b10110);
}

#[test]
fn shifting_by_one_then_two_is_shifting_by_three() {
    for half in 0..32u8 {
        let by_three = ((half << 3) & 0b11111) | (half >> 2);
        assert_eq!(left_shift_2bit(left_shift_1bit(half)), by_three);
    }
}

#[test]
fn five_rotations_by_one_give_the_word_back() {
    for half in 0..32u8 {
        let mut word = half;
        for _ in 0..5 {
            word = left_shift_1bit(word);
        }
        assert_eq!(word, half);
    }
}

#[test]
fn combine_two_key_joins_halves() {
    assert_eq!(combine_two_key(0b00001, 0b11000, 5), 0b0000111000);
    assert_eq!(combine_two_key(0b11111, 0b11111, 5), 1023);
    assert_eq!(combine_two_key(0b10000, 0, 5), 512);
    assert_eq!(combine_two_key(0x9, 0x7, 4), 0x97);
    assert_eq!(combine_two_key(0, 0, 0), 0);
    assert_eq!(combine_two_key(0xAB, 0xCD, 8), 0xABCD);
}

#[test]
fn combine_undoes_split() {
    for block in 0..=255u8 {
        let (left, right) = split_8bit(block);
        assert_eq!(combine_two_key(left, right, 4), block as u16);
    }
    for key in 0..1024u16 {
        let (left, right) = split_10bit(key);
        assert_eq!(combine_two_key(left, right, 5), key);
    }
}

#[test]
fn switch_exchanges_the_halves() {
    assert_eq!(switch(0x97, 8), 0x79);
    assert_eq!(switch(0xF0, 8), 0x0F);
    assert_eq!(switch(0x01, 8), 0x10);
    for block in 0..=255u8 {
        assert_eq!(switch(switch(block, 8), 8), block);
    }
}
