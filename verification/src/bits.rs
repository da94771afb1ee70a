//! Words as sequences of bits.
//!
//! Every value that moves through the cipher is a short machine word (4, 5, 8
//! or 10 bits wide). The contracts of the cipher speak about such a word as
//! the sequence of its bits, most significant bit first, so that "bit 1" is
//! the leftmost bit, exactly as the published tables count them.
//!
//! [`bits_of`] takes a word to its bits and [`value_of`] takes bits back to the
//! number they spell. The lemmas below show that the two are inverse to each
//! other and how they behave under concatenation and splitting.

use vstd::arithmetic::div_mod::{
    lemma_div_denominator,
    lemma_fundamental_div_mod_converse,
    lemma_mod_breakdown,
    lemma_small_mod,
};
use vstd::arithmetic::power2::{lemma2_to64, lemma_pow2_pos, lemma_pow2_unfold, pow2};
use vstd::bits::lemma_u16_shr_is_div;
use vstd::prelude::*;

verus! {

/// The number a single bit stands for.
pub open spec fn bit_value(b: bool) -> nat {
    if b {
        1
    } else {
        0
    }
}

/// Whether the bit at position `pos` of a `width`-bit word is set. Positions
/// run from 1 (most significant) to `width` (least significant).
pub open spec fn bit_at(value: nat, width: nat, pos: int) -> bool {
    (value / pow2((width - pos) as nat)) % 2 == 1
}

/// The `width` low-order bits of `value`, most significant first.
pub open spec fn bits_of(value: nat, width: nat) -> Seq<bool> {
    Seq::new(width, |i: int| bit_at(value, width, i + 1))
}

/// The number spelled by `bits`, read most significant bit first.
pub open spec fn value_of(bits: Seq<bool>) -> nat
    decreases bits.len(),
{
    if bits.len() == 0 {
        0
    } else {
        2 * value_of(bits.drop_last()) + bit_value(bits.last())
    }
}

/// The bitwise exclusive-or of two sequences of bits of the same length.
pub open spec fn xor_bits(a: Seq<bool>, b: Seq<bool>) -> Seq<bool> {
    Seq::new(a.len(), |i: int| a[i] != b[i])
}

/// Whether `value` can be written with `width` bits.
pub open spec fn fits(value: nat, width: nat) -> bool {
    value < pow2(width)
}

/// Appending a bit doubles the value and adds the bit.
pub proof fn lemma_value_of_push(bits: Seq<bool>, b: bool)
    ensures
        value_of(bits.push(b)) == 2 * value_of(bits) + bit_value(b),
{
    assert(bits.push(b).drop_last() =~= bits);
}

/// Two bits spell twice the first plus the second.
pub proof fn lemma_value_of_pair(high: bool, low: bool)
    ensures
        value_of(seq![high, low]) == 2 * bit_value(high) + bit_value(low),
{
    let empty = Seq::<bool>::empty();
    assert(seq![high, low] =~= empty.push(high).push(low));
    lemma_value_of_push(empty, high);
    lemma_value_of_push(empty.push(high), low);
}

/// A sequence of `n` bits spells a number below `2^n`.
pub proof fn lemma_value_of_fits(bits: Seq<bool>)
    ensures
        fits(value_of(bits), bits.len()),
    decreases bits.len(),
{
    if bits.len() == 0 {
        lemma2_to64();
    } else {
        lemma_value_of_fits(bits.drop_last());
        lemma_pow2_unfold(bits.len());
    }
}

/// The value of a concatenation: the left part is shifted past the right part.
pub proof fn lemma_value_of_concat(left: Seq<bool>, right: Seq<bool>)
    ensures
        value_of(left + right) == value_of(left) * pow2(right.len()) + value_of(right),
    decreases right.len(),
{
    if right.len() == 0 {
        lemma2_to64();
        assert(left + right =~= left);
    } else {
        let whole = left + right;
        assert(whole.drop_last() =~= left + right.drop_last());
        assert(whole.last() == right.last());
        lemma_value_of_concat(left, right.drop_last());
        lemma_pow2_unfold(right.len());
        let l = value_of(left) as int;
        let p = pow2((right.len() - 1) as nat) as int;
        assert(2 * (l * p) == l * (2 * p)) by (nonlinear_arith);
    }
}

/// Cutting a sequence of bits in two divides its value: the leading part is
/// the quotient and the trailing part the remainder by the matching power of
/// two.
pub proof fn lemma_value_of_split(bits: Seq<bool>, at: int)
    requires
        0 <= at <= bits.len(),
    ensures
        value_of(bits.subrange(0, at)) == value_of(bits) / pow2((bits.len() - at) as nat),
        value_of(bits.subrange(at, bits.len() as int)) == value_of(bits) % pow2(
            (bits.len() - at) as nat,
        ),
{
    let head = bits.subrange(0, at);
    let tail = bits.subrange(at, bits.len() as int);
    assert(head + tail =~= bits);
    lemma_value_of_concat(head, tail);
    lemma_value_of_fits(tail);
    lemma_fundamental_div_mod_converse(
        value_of(bits) as int,
        pow2(tail.len()) as int,
        value_of(head) as int,
        value_of(tail) as int,
    );
}

/// Dropping the last bit of a word halves it; the dropped bit is its parity.
pub proof fn lemma_bits_of_halve(value: nat, width: nat)
    requires
        width > 0,
    ensures
        bits_of(value, width).drop_last() == bits_of(value / 2, (width - 1) as nat),
        bits_of(value, width).last() == (value % 2 == 1),
{
    lemma2_to64();
    let shorter = bits_of(value / 2, (width - 1) as nat);
    assert forall|i: int| 0 <= i < width - 1 implies bits_of(value, width)[i] == shorter[i] by {
        let k = (width - 2 - i) as nat;
        lemma_pow2_unfold(k + 1);
        lemma_pow2_pos(k);
        lemma_div_denominator(value as int, 2, pow2(k) as int);
    }
    assert(bits_of(value, width).drop_last() =~= shorter);
    assert(bits_of(value, width).last() == bit_at(value, width, width as int));
    assert(value / pow2(0) == value);
}

/// Reading back the bits of a word gives the word reduced to that width.
pub proof fn lemma_value_of_bits(value: nat, width: nat)
    ensures
        value_of(bits_of(value, width)) == value % pow2(width),
        fits(value, width) ==> value_of(bits_of(value, width)) == value,
    decreases width,
{
    lemma_pow2_pos(width);
    if width == 0 {
        lemma2_to64();
    } else {
        let rest = (width - 1) as nat;
        lemma_bits_of_halve(value, width);
        lemma_value_of_bits(value / 2, rest);
        lemma_pow2_unfold(width);
        lemma_pow2_pos(rest);
        lemma_mod_breakdown(value as int, 2, pow2(rest) as int);
    }
    if fits(value, width) {
        lemma_small_mod(value, pow2(width));
    }
}

/// Writing out the bits of the number that `bits` spells gives `bits` back.
pub proof fn lemma_bits_of_value(bits: Seq<bool>)
    ensures
        bits_of(value_of(bits), bits.len()) == bits,
    decreases bits.len(),
{
    let again = bits_of(value_of(bits), bits.len());
    if bits.len() > 0 {
        lemma_bits_of_value(bits.drop_last());
        lemma_bits_of_halve(value_of(bits), bits.len());
        assert(again =~= again.drop_last().push(again.last()));
        assert(bits =~= bits.drop_last().push(bits.last()));
    }
    assert(again =~= bits);
}

/// Two words of the same width with the same bits are the same word.
pub proof fn lemma_bits_of_injective(a: nat, b: nat, width: nat)
    requires
        fits(a, width),
        fits(b, width),
        bits_of(a, width) == bits_of(b, width),
    ensures
        a == b,
{
    lemma_value_of_bits(a, width);
    lemma_value_of_bits(b, width);
}

/// On a machine word, [`bit_at`] is a shift and a mask.
pub proof fn lemma_bit_at_is_shift(value: u16, width: nat, pos: int)
    requires
        1 <= pos <= width <= 16,
    ensures
        (value >> ((width - pos) as u16)) & 1 == bit_value(bit_at(value as nat, width, pos)),
{
    let shift = (width - pos) as u16;
    let moved = value >> shift;
    lemma_u16_shr_is_div(value, shift);
    assert(moved & 1 == moved % 2) by (bit_vector);
}

/// The bits of the exclusive-or of two machine words are the exclusive-or of
/// their bits.
pub proof fn lemma_bits_of_xor(a: u16, b: u16, width: nat)
    requires
        width <= 16,
    ensures
        bits_of((a ^ b) as nat, width) == xor_bits(bits_of(a as nat, width), bits_of(b as nat, width)),
{
    let both = bits_of((a ^ b) as nat, width);
    let each = xor_bits(bits_of(a as nat, width), bits_of(b as nat, width));
    assert forall|i: int| 0 <= i < width implies both[i] == each[i] by {
        let shift = (width - (i + 1)) as u16;
        lemma_bit_at_is_shift(a, width, i + 1);
        lemma_bit_at_is_shift(b, width, i + 1);
        lemma_bit_at_is_shift(a ^ b, width, i + 1);
        assert(((a ^ b) >> shift) & 1 == ((a >> shift) & 1) ^ ((b >> shift) & 1)) by (bit_vector);
        assert(0u16 ^ 0u16 == 0 && 0u16 ^ 1u16 == 1 && 1u16 ^ 0u16 == 1 && 1u16 ^ 1u16 == 0)
            by (bit_vector);
    }
    assert(both =~= each);
}

} // verus!
