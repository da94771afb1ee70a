use simple_ciphers::width::{
    is_10bit, is_4bit, is_5bit, is_8bit, is_bit_length, BitWidthViolation,
};

#[test]
fn out_of_range_ten_bit_value_is_a_violation() {
    assert_eq!(is_10bit(1024), Err(BitWidthViolation { width: 10, value: 1024 }));
    assert_eq!(is_10bit(0xFFFF), Err(BitWidthViolation { width: 10, value: 0xFFFF }));
}

#[test]
fn values_in_range_come_back_unchanged() {
    assert_eq!(is_10bit(0), Ok(0));
    assert_eq!(is_10bit(1023), Ok(1023));
    assert_eq!(is_8bit(0), Ok(0));
    assert_eq!(is_8bit(255), Ok(255));
    assert_eq!(is_5bit(31), Ok(31));
    assert_eq!(is_4bit(15), Ok(15));
}

#[test]
fn five_and_four_bit_violations_carry_width_and_value() {
    assert_eq!(is_5bit(32), Err(BitWidthViolation { width: 5, value: 32 }));
    assert_eq!(is_5bit(255), Err(BitWidthViolation { width: 5, value: 255 }));
    assert_eq!(is_4bit(16), Err(BitWidthViolation { width: 4, value: 16 }));
    assert_eq!(is_4bit(0x97), Err(BitWidthViolation { width: 4, value: 0x97 }));
}

#[test]
fn every_width_is_checked_against_its_power_of_two() {
    for width in 0..16u8 {
        let limit = 1u16 << width;
        assert_eq!(is_bit_length(limit - 1, width), Ok(limit - 1));
        assert_eq!(is_bit_length(limit, width), Err(BitWidthViolation { width, value: limit }));
    }
    assert_eq!(is_bit_length(0, 0), Ok(0));
    assert_eq!(is_bit_length(1, 0), Err(BitWidthViolation { width: 0, value: 1 }));
}

#[test]
fn sixteen_bits_and_more_hold_every_word() {
    assert_eq!(is_bit_length(0xFFFF, 16), Ok(0xFFFF));
    assert_eq!(is_bit_length(0xFFFF, 17), Ok(0xFFFF));
    assert_eq!(is_bit_length(0xFFFF, 255), Ok(0xFFFF));
}
