//! A walk through RSA with two small fixed primes.
//!
//! The primes are 11 and 13, so the modulus is 143; the public exponent is 7.
//! The private exponent is found by trying 1, 2, 3, ... until one is inverse
//! to the public exponent modulo lcm(10, 12) = 60. [`encrypt`] returns every
//! number of the walk, so that a caller can show them.

use vstd::arithmetic::div_mod::{
    lemma_fundamental_div_mod,
    lemma_fundamental_div_mod_converse,
    lemma_mod_is_zero,
    lemma_mod_multiples_basic,
    lemma_mod_multiples_vanish,
    lemma_mod_self_0,
    lemma_mod_twice,
    lemma_mul_mod_noop_general,
    lemma_small_mod,
};
use vstd::arithmetic::power::{
    lemma1_pow,
    lemma_pow0,
    lemma_pow1,
    lemma_pow_adds,
    lemma_pow_mod_noop,
    lemma_pow_multiplies,
    lemma_square_is_pow2,
    pow,
};
use vstd::prelude::*;

verus! {

/// Whether `n` is a multiple of `d`. Only zero is a multiple of zero.
pub open spec fn divides(d: nat, n: nat) -> bool {
    if d == 0 {
        n == 0
    } else {
        n % d == 0
    }
}

/// Whether `g` is the greatest common divisor of `a` and `b`: it divides
/// both, and every number that divides both divides it.
pub open spec fn is_gcd(g: nat, a: nat, b: nat) -> bool {
    &&& divides(g, a)
    &&& divides(g, b)
    &&& forall|d: nat| divides(d, a) && divides(d, b) ==> #[trigger] divides(d, g)
}

/// Whether `m` is the least common multiple of `a` and `b`: it is a multiple
/// of both, and every number that is a multiple of both is a multiple of it.
pub open spec fn is_lcm(m: nat, a: nat, b: nat) -> bool {
    &&& divides(a, m)
    &&& divides(b, m)
    &&& forall|c: nat| divides(a, c) && divides(b, c) ==> #[trigger] divides(m, c)
}

/// The greatest common divisor of `a` and `b`.
pub open spec fn gcd_of(a: nat, b: nat) -> nat {
    choose|g: nat| is_gcd(g, a, b)
}

/// A divisor of `x` and of `y` divides `x * q + y`.
proof fn lemma_divides_combination(d: nat, x: int, y: int, q: int)
    requires
        d > 0,
        x % (d as int) == 0,
        y % (d as int) == 0,
    ensures
        (x * q + y) % (d as int) == 0,
{
    let dd = d as int;
    lemma_fundamental_div_mod(x, dd);
    lemma_fundamental_div_mod(y, dd);
    let k = (x / dd) * q + y / dd;
    assert(x * q + y == k * dd) by (nonlinear_arith)
        requires
            x == dd * (x / dd),
            y == dd * (y / dd),
            k == (x / dd) * q + y / dd,
    ;
    lemma_mod_multiples_basic(k, dd);
}

/// The step of Euclid's algorithm: `a` and `b` have the divisors in common
/// that `b` and `a % b` have.
proof fn lemma_gcd_step(g: nat, a: nat, b: nat)
    requires
        b > 0,
        is_gcd(g, b, a % b),
    ensures
        is_gcd(g, a, b),
{
    let r = a % b;
    let q = (a / b) as int;
    lemma_fundamental_div_mod(a as int, b as int);
    assert(b * q == (b as int) * q);
    if g > 0 {
        lemma_divides_combination(g, b as int, r as int, q);
    }
    assert forall|d: nat| divides(d, a) && divides(d, b) implies #[trigger] divides(d, g) by {
        lemma_divides_combination(d, b as int, a as int, -q);
        assert((b as int) * (-q) + a == r) by (nonlinear_arith)
            requires
                a == (b as int) * q + r,
        ;
        assert(divides(d, r));
    }
}

/// Every number is the greatest common divisor of itself and zero.
proof fn lemma_gcd_with_zero(a: nat)
    ensures
        is_gcd(a, a, 0),
{
    if a > 0 {
        lemma_mod_self_0(a as int);
        lemma_small_mod(0, a);
    }
}

/// Every two numbers have a greatest common divisor.
pub proof fn lemma_gcd_exists(a: nat, b: nat)
    ensures
        is_gcd(gcd_of(a, b), a, b),
    decreases b,
{
    if b == 0 {
        lemma_gcd_with_zero(a);
    } else {
        lemma_gcd_exists(b, a % b);
        lemma_gcd_step(gcd_of(b, a % b), a, b);
    }
}

/// Two numbers have one greatest common divisor only.
pub proof fn lemma_gcd_unique(g: nat, h: nat, a: nat, b: nat)
    requires
        is_gcd(g, a, b),
        is_gcd(h, a, b),
    ensures
        g == h,
{
    assert(divides(g, h));
    assert(divides(h, g));
    if g > 0 && h > 0 {
        lemma_mod_is_zero(g, h);
        lemma_mod_is_zero(h, g);
    }
}

/// The greatest common divisor of two numbers is zero only if both are zero.
pub proof fn lemma_gcd_positive(a: nat, b: nat)
    requires
        a > 0 || b > 0,
    ensures
        gcd_of(a, b) > 0,
{
    lemma_gcd_exists(a, b);
}

/// The equations that Euclid's algorithm follows.
pub proof fn lemma_gcd_by_euclid(a: nat, b: nat)
    ensures
        b == 0 ==> gcd_of(a, b) == a,
        b > 0 ==> gcd_of(a, b) == gcd_of(b, a % b),
{
    lemma_gcd_exists(a, b);
    if b == 0 {
        lemma_gcd_with_zero(a);
        lemma_gcd_unique(a, gcd_of(a, b), a, b);
    } else {
        lemma_gcd_exists(b, a % b);
        lemma_gcd_step(gcd_of(b, a % b), a, b);
        lemma_gcd_unique(gcd_of(b, a % b), gcd_of(a, b), a, b);
    }
}

/// The greatest common divisor is a combination of the two numbers with
/// whole coefficients, which the lemma returns.
pub proof fn lemma_gcd_is_combination(a: nat, b: nat) -> (coefficients: (int, int))
    ensures
        gcd_of(a, b) == a * coefficients.0 + b * coefficients.1,
    decreases b,
{
    lemma_gcd_by_euclid(a, b);
    if b == 0 {
        (1, 0)
    } else {
        let r = a % b;
        let q = (a / b) as int;
        let (x, y) = lemma_gcd_is_combination(b, r);
        lemma_fundamental_div_mod(a as int, b as int);
        assert(b * x + r * y == a * y + b * (x - q * y)) by (nonlinear_arith)
            requires
                a == b * q + r,
        ;
        (y, x - q * y)
    }
}

/// The product of two numbers divided by their greatest common divisor
/// divides every common multiple of the two.
proof fn lemma_common_multiple(a: nat, b: nat, m: nat, c: nat)
    requires
        m * gcd_of(a, b) == a * b,
        divides(a, c),
        divides(b, c),
    ensures
        divides(m, c),
{
    if a == 0 || b == 0 {
        if m > 0 {
            lemma_small_mod(0, m);
        }
    } else {
        let g = gcd_of(a, b) as int;
        lemma_gcd_positive(a, b);
        lemma_fundamental_div_mod(c as int, a as int);
        lemma_fundamental_div_mod(c as int, b as int);
        let s = c as int / a as int;
        let t = c as int / b as int;
        let (x, y) = lemma_gcd_is_combination(a, b);
        let k = t * x + s * y;
        assert(g * c == g * (m * k)) by (nonlinear_arith)
            requires
                c == a * s,
                c == b * t,
                g == a * x + b * y,
                m * g == a * b,
                k == t * x + s * y,
        ;
        assert(c == m * k) by (nonlinear_arith)
            requires
                g * c == g * (m * k),
                g > 0,
        ;
        assert(m > 0) by (nonlinear_arith)
            requires
                m * g == a * b,
                a > 0,
                b > 0,
                g > 0,
        ;
        assert(m * k == k * m) by (nonlinear_arith);
        lemma_mod_multiples_basic(k, m as int);
    }
}

/// The greatest common divisor of `a` and `b`, by Euclid's algorithm.
pub fn gcd(a: u128, b: u128) -> (result: u128)
    ensures
        result == gcd_of(a as nat, b as nat),
        is_gcd(result as nat, a as nat, b as nat),
    decreases b,
{
    proof {
        lemma_gcd_exists(a as nat, b as nat);
        lemma_gcd_by_euclid(a as nat, b as nat);
    }
    if b == 0 {
        return a;
    }
    gcd(b, a % b)
}

/// The least common multiple of `a` and `b`: their product divided by their
/// greatest common divisor.
pub fn lcm(a: u128, b: u128) -> (result: u128)
    requires
        a > 0 || b > 0,
        a * b <= u128::MAX,
    ensures
        result == (a * b) / (gcd_of(a as nat, b as nat) as int),
        is_lcm(result as nat, a as nat, b as nat),
{
    let divisor = gcd(a, b);
    proof {
        let g = divisor as int;
        lemma_gcd_positive(a as nat, b as nat);
        lemma_fundamental_div_mod(a as int, g);
        lemma_fundamental_div_mod(b as int, g);
        let s = a as int / g;
        let t = b as int / g;
        assert(a * b == g * (a * t) + 0 && a * b == g * (b * s) + 0) by (nonlinear_arith)
            requires
                a == g * s,
                b == g * t,
        ;
        lemma_fundamental_div_mod_converse(a * b, g, a * t, 0);
        lemma_fundamental_div_mod_converse(a * b, g, b * s, 0);
        if a > 0 {
            assert(a * t == t * a) by (nonlinear_arith);
            lemma_mod_multiples_basic(t, a as int);
        }
        if b > 0 {
            assert(b * s == s * b) by (nonlinear_arith);
            lemma_mod_multiples_basic(s, b as int);
        }
        let m = (a * b / g) as nat;
        assert(m * g == a * b) by (nonlinear_arith)
            requires
                m == a * t,
                b == g * t,
        ;
        assert forall|c: nat| divides(a as nat, c) && divides(b as nat, c) implies #[trigger] divides(
            m,
            c,
        ) by {
            lemma_common_multiple(a as nat, b as nat, m, c);
        }
    }
    a * b / divisor
}

/// One step of square-and-multiply keeps `result * base^exponent` the same
/// modulo `m`.
proof fn lemma_square_and_multiply(result: int, base: int, exponent: nat, m: int)
    requires
        m > 0,
    ensures
        exponent % 2 == 0 ==> (result * pow((base * base) % m, exponent / 2)) % m == (result * pow(
            base,
            exponent,
        )) % m,
        exponent % 2 == 1 ==> (((result * base) % m) * pow((base * base) % m, exponent / 2)) % m
            == (result * pow(base, exponent)) % m,
{
    let half = exponent / 2;
    let squares = pow(base, 2 * half);
    let reduced = pow((base * base) % m, half);
    assert(reduced % m == squares % m) by {
        lemma_pow_mod_noop(base * base, half, m);
        lemma_square_is_pow2(base);
        lemma_pow_multiplies(base, 2, half);
    }
    if exponent % 2 == 0 {
        assert(exponent == 2 * half);
        lemma_mul_mod_noop_general(result, reduced, m);
        lemma_mul_mod_noop_general(result, squares, m);
    } else {
        assert(exponent == 1 + 2 * half);
        lemma_pow_adds(base, 1, 2 * half);
        lemma_pow1(base);
        assert(result * (base * squares) == (result * base) * squares) by (nonlinear_arith);
        lemma_mul_mod_noop_general(result * base, reduced, m);
        lemma_mul_mod_noop_general(result * base, squares, m);
    }
}

/// `a` to the power of `b`, modulo `m`, by square-and-multiply.
///
/// With an exponent of zero the result is 1, also where `m` is 1.
pub fn modpow(a: u128, b: u128, m: u128) -> (result: u128)
    requires
        m > 0,
        (m - 1) * (m - 1) <= u128::MAX,
    ensures
        b == 0 ==> result == 1,
        b > 0 ==> result == pow(a as int, b as nat) % (m as int),
{
    let mut result: u128 = 1;
    let mut base = a % m;
    let mut exponent = b;
    proof {
        lemma_pow_mod_noop(a as int, b as nat, m as int);
        assert(1 * pow(base as int, b as nat) == pow(base as int, b as nat));
    }
    while exponent > 0
        invariant
            m > 0,
            (m - 1) * (m - 1) <= u128::MAX,
            base < m,
            exponent <= b,
            b == 0 ==> result == 1,
            result < m || (result == 1 && (exponent > 0 || b == 0)),
            (result * pow(base as int, exponent as nat)) % (m as int) == pow(a as int, b as nat) % (
            m as int),
        decreases exponent,
    {
        proof {
            lemma_square_and_multiply(result as int, base as int, exponent as nat, m as int);
            assert(exponent & 1 == exponent % 2 && exponent >> 1 == exponent / 2) by (bit_vector);
            assert(base * base <= (m - 1) * (m - 1)) by (nonlinear_arith)
                requires
                    base <= m - 1,
            ;
            assert(result * base <= (m - 1) * (m - 1) || result == 1) by (nonlinear_arith)
                requires
                    base <= m - 1,
                    result <= m - 1 || result == 1,
            ;
        }
        if exponent & 1 != 0 {
            result = (result * base) % m;
        }
        base = (base * base) % m;
        exponent >>= 1;
    }
    proof {
        lemma_pow0(base as int);
        if b > 0 {
            lemma_small_mod(result as nat, m as nat);
        }
    }
    result
}

/// The numbers of one walk through RSA.
#[derive(Clone, Copy, Debug, PartialEq, Eq, Structural)]
pub struct Transcript {
    /// The message that was encrypted.
    pub message: u128,
    /// The public exponent.
    pub public_exponent: u128,
    /// The private exponent.
    pub private_exponent: u128,
    /// The modulus, shared by the public and the private key.
    pub modulus: u128,
    /// The message encrypted with the public key.
    pub encrypted: u128,
    /// The ciphertext decrypted with the private key.
    pub decrypted: u128,
}

/// The greatest common divisor of 10 and 12 is 2, so their lcm is 60.
proof fn lemma_gcd_of_ten_and_twelve()
    ensures
        gcd_of(10, 12) == 2,
{
    assert forall|d: nat| divides(d, 10) && divides(d, 12) implies #[trigger] divides(d, 2) by {
        lemma_divides_combination(d, 10, 12, -1);
    }
    assert(is_gcd(2, 10, 12));
    lemma_gcd_exists(10, 12);
    lemma_gcd_unique(2, gcd_of(10, 12), 10, 12);
}

/// The public exponent 7 has no divisor in common with 60, so it has an
/// inverse modulo 60.
pub proof fn lemma_public_exponent_is_coprime()
    ensures
        gcd_of(60, 7) == 1,
{
    assert forall|d: nat| divides(d, 60) && divides(d, 7) implies #[trigger] divides(d, 1) by {
        lemma_divides_combination(d, 7, 60, -8);
        lemma_divides_combination(d, 4, 7, -1);
        lemma_divides_combination(d, 3, 4, -1);
    }
    assert(is_gcd(1, 60, 7));
    lemma_gcd_exists(60, 7);
    lemma_gcd_unique(1, gcd_of(60, 7), 60, 7);
}

/// Fermat's little theorem for the prime 11.
proof fn lemma_tenth_power_modulo_eleven(x: int)
    requires
        x % 11 != 0,
    ensures
        pow(x, 10) % 11 == 1,
{
    let r = (x % 11) as u8;
    lemma_pow_mod_noop(x, 10, 11);
    assert(pow(r as int, 10) == r * (r * (r * (r * (r * (r * (r * (r * (r * (r * 1)))))))))) by {
        reveal_with_fuel(pow, 11);
    }
    assert((r * (r * (r * (r * (r * (r * (r * (r * (r * (r * 1)))))))))) % 11 == 1) by (bit_vector)
        requires
            1 <= r <= 10,
    ;
}

/// Fermat's little theorem for the prime 13.
proof fn lemma_twelfth_power_modulo_thirteen(x: int)
    requires
        x % 13 != 0,
    ensures
        pow(x, 12) % 13 == 1,
{
    let r = (x % 13) as u8;
    lemma_pow_mod_noop(x, 12, 13);
    assert(pow(r as int, 12) == r * (r * (r * (r * (r * (r * (r * (r * (r * (r * (r * (r * 1))))))))))))
        by {
        reveal_with_fuel(pow, 13);
    }
    assert((r * (r * (r * (r * (r * (r * (r * (r * (r * (r * (r * (r * 1)))))))))))) % 13 == 1)
        by (bit_vector)
        requires
            1 <= r <= 12,
    ;
}

/// Where `x` to the power of `order` is 1 modulo `p`, or `x` is a multiple of
/// `p`, `x` to the power of `1 + order * rounds` is `x` modulo `p`.
proof fn lemma_power_returns(x: int, p: int, order: nat, rounds: nat)
    requires
        p > 1,
        x % p == 0 || pow(x, order) % p == 1,
    ensures
        pow(x, 1 + order * rounds) % p == x % p,
{
    let cycles = pow(pow(x, order), rounds);
    assert(pow(x, 1 + order * rounds) == x * cycles) by {
        lemma_pow_multiplies(x, order, rounds);
        lemma_pow_adds(x, 1, order * rounds);
        lemma_pow1(x);
    }
    lemma_mul_mod_noop_general(x, cycles, p);
    if x % p == 0 {
        assert(0 * (cycles % p) == 0);
        lemma_small_mod(0, p as nat);
    } else {
        lemma_pow_mod_noop(pow(x, order), rounds, p);
        lemma1_pow(rounds);
        lemma_small_mod(1, p as nat);
        assert((x % p) * 1 == x % p);
        lemma_mod_twice(x, p);
    }
}

/// Two numbers with the same remainders modulo 11 and modulo 13 have the
/// same remainder modulo 143.
proof fn lemma_remainders_agree(x: int, y: int)
    requires
        x % 11 == y % 11,
        x % 13 == y % 13,
    ensures
        x % 143 == y % 143,
{
    let a = x / 11 - y / 11;
    let b = x / 13 - y / 13;
    assert(x - y == 11 * a);
    assert(x - y == 13 * b);
    let k = 6 * b - 5 * a;
    assert(x == 143 * k + y);
    lemma_mod_multiples_vanish(k, y, 143);
}

/// Raising to the power of 7 and then of 43 modulo 143 gives every number
/// back, reduced modulo 143: the private key undoes the public key.
pub proof fn lemma_private_key_undoes_public_key(message: nat)
    ensures
        pow(pow(message as int, 7) % 143, 43) % 143 == message % 143,
        message < 143 ==> pow(pow(message as int, 7) % 143, 43) % 143 == message,
{
    let m = message as int;
    let whole = pow(m, 301);
    assert(pow(pow(m, 7) % 143, 43) % 143 == whole % 143) by {
        lemma_pow_mod_noop(pow(m, 7), 43, 143);
        lemma_pow_multiplies(m, 7, 43);
    }
    assert(whole % 11 == m % 11) by {
        if m % 11 != 0 {
            lemma_tenth_power_modulo_eleven(m);
        }
        lemma_power_returns(m, 11, 10, 30);
    }
    assert(whole % 13 == m % 13) by {
        if m % 13 != 0 {
            lemma_twelfth_power_modulo_thirteen(m);
        }
        lemma_power_returns(m, 13, 12, 25);
    }
    assert(whole % 143 == m % 143) by {
        lemma_remainders_agree(whole, m);
    }
}

/// Encrypts `input` with the public key (7, 143) and decrypts the outcome
/// with the private key (43, 143).
pub fn encrypt(input: u128) -> (run: Transcript)
    ensures
        run.message == input,
        run.modulus == 143,
        run.public_exponent == 7,
        run.private_exponent == 43,
        (run.public_exponent * run.private_exponent) % 60 == 1,
        run.encrypted == pow(input as int, 7) % 143,
        run.decrypted == pow(run.encrypted as int, 43) % 143,
        run.decrypted == input % 143,
{
    let p: u128 = 11;
    let q: u128 = 13;
    let n = p * q;
    let l = lcm(p - 1, q - 1);
    let e: u128 = 7;
    proof {
        lemma_gcd_of_ten_and_twelve();
    }

    let mut d: u128 = 1;
    while (e * d) % l != 1
        invariant
            e == 7,
            l == 60,
            1 <= d <= 43,
        decreases 43 - d,
    {
        d += 1;
    }
    proof {
        assert(d == 43) by (bit_vector)
            requires
                1 <= d <= 43,
                (7 * d) % 60 == 1,
        ;
    }

    let encrypted = modpow(input, e, n);
    let decrypted = modpow(encrypted, d, n);
    proof {
        lemma_private_key_undoes_public_key(input as nat);
    }
    Transcript {
        message: input,
        public_exponent: e,
        private_exponent: d,
        modulus: n,
        encrypted,
        decrypted,
    }
}

} // verus!
