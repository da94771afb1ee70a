use simple_ciphers::sdes::generate_key;

#[test]
fn round_keys_exact_values() {
    assert_eq!(generate_key(0), (0, 0));
    assert_eq!(generate_key(1), (2, 8));
    assert_eq!(generate_key(1023), (255, 255));
    assert_eq!(generate_key(0b0111111101), (95, 252));
    assert_eq!(generate_key(0b1100011110), (233, 167));
}

#[test]
fn round_keys_fit_eight_bits_for_every_master_key() {
    for master in 0..1024u16 {
        let (key1, key2) = generate_key(master);
        assert!((key1 as u16) < 256);
        assert!((key2 as u16) < 256);
    }
}

#[test]
fn key_schedule_is_deterministic() {
    for master in 0..1024u16 {
        assert_eq!(generate_key(master), generate_key(master));
    }
}
