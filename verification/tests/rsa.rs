use simple_ciphers::rsa::{encrypt, gcd, lcm, modpow, Transcript};

#[test]
fn walk_for_message_eleven() {
    assert_eq!(
        encrypt(11),
        Transcript {
            message: 11,
            public_exponent: 7,
            private_exponent: 43,
            modulus: 143,
            encrypted: 132,
            decrypted: 11,
        }
    );
}

#[test]
fn keys_do_not_depend_on_the_message() {
    for message in [0u128, 1, 2, 142, 143, 1000, u128::MAX] {
        let run = encrypt(message);
        assert_eq!(run.message, message);
        assert_eq!(run.public_exponent, 7);
        assert_eq!(run.private_exponent, 43);
        assert_eq!(run.modulus, 143);
        assert_eq!((run.public_exponent * run.private_exponent) % 60, 1);
    }
}

#[test]
fn ciphertext_exact_values() {
    assert_eq!(encrypt(0).encrypted, 0);
    assert_eq!(encrypt(1).encrypted, 1);
    assert_eq!(encrypt(2).encrypted, 128);
    assert_eq!(encrypt(42).encrypted, 81);
    assert_eq!(encrypt(142).encrypted, 142);
    assert_eq!(encrypt(143).encrypted, 0);
    assert_eq!(encrypt(144).encrypted, 1);
    assert_eq!(encrypt(u128::MAX).encrypted, 18);
}

#[test]
fn decryption_recovers_every_message_below_the_modulus() {
    for message in 0..143u128 {
        assert_eq!(encrypt(message).decrypted, message);
    }
}

#[test]
fn decryption_recovers_larger_messages_modulo_the_modulus() {
    assert_eq!(encrypt(143).decrypted, 0);
    assert_eq!(encrypt(1000).decrypted, 142);
    assert_eq!(encrypt(u128::MAX).decrypted, 112);
}

#[test]
fn modpow_exact_values() {
    assert_eq!(modpow(11, 7, 143), 132);
    assert_eq!(modpow(132, 43, 143), 11);
    assert_eq!(modpow(3, 200, 1000), 1);
    assert_eq!(modpow(7, 128, 13), 3);
    assert_eq!(modpow((1u128 << 64) + 5, 3, 1u128 << 64), 125);
    assert_eq!(modpow(123456789, (1u128 << 100) + 1, (1u128 << 64) - 59), 17210676544783443659);
}

#[test]
fn modpow_edge_cases() {
    assert_eq!(modpow(5, 0, 7), 1);
    assert_eq!(modpow(0, 0, 5), 1);
    assert_eq!(modpow(0, 5, 7), 0);
    assert_eq!(modpow(2, 10, 1), 0);
    assert_eq!(modpow(2, 0, 1), 1);
    assert_eq!(modpow(9, 1, 5), 4);
}

#[test]
fn gcd_exact_values() {
    assert_eq!(gcd(12, 18), 6);
    assert_eq!(gcd(18, 12), 6);
    assert_eq!(gcd(60, 7), 1);
    assert_eq!(gcd(17, 17), 17);
    assert_eq!(gcd(0, 5), 5);
    assert_eq!(gcd(5, 0), 5);
    assert_eq!(gcd(0, 0), 0);
    assert_eq!(gcd(1u128 << 127, 1u128 << 100), 1u128 << 100);
}

#[test]
fn gcd_divides_both_and_is_greatest() {
    for a in 0..40u128 {
        for b in 0..40u128 {
            let g = gcd(a, b);
            if g == 0 {
                assert_eq!((a, b), (0, 0));
                continue;
            }
            assert_eq!(a % g, 0);
            assert_eq!(b % g, 0);
            for d in 1..40u128 {
                if a % d == 0 && b % d == 0 {
                    assert_eq!(g % d, 0);
                }
            }
        }
    }
}

#[test]
fn lcm_exact_values() {
    assert_eq!(lcm(10, 12), 60);
    assert_eq!(lcm(4, 6), 12);
    assert_eq!(lcm(21, 6), 42);
    assert_eq!(lcm(7, 1), 7);
    assert_eq!(lcm(0, 5), 0);
    assert_eq!(lcm(5, 0), 0);
}
