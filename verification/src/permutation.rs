//! The permutation engine: one table-driven routine and the six fixed tables
//! of the cipher.
//!
//! A table lists, for each bit of the result from left to right, the position
//! of the input bit that supplies it. Positions count from 1 at the most
//! significant bit of the input. A table may be shorter or longer than the
//! input is wide, so the same routine serves permutation, selection and
//! expansion.

use crate::bits::{
    bits_of,
    fits,
    lemma_bit_at_is_shift,
    lemma_bits_of_injective,
    lemma_bits_of_value,
    lemma_value_of_bits,
    lemma_value_of_fits,
    lemma_value_of_push,
    value_of,
};
use vstd::arithmetic::power2::{lemma2_to64, lemma_pow2_strictly_increases};
use vstd::prelude::*;

verus! {

/// Reorders the 10 key bits before they are split in two.
pub const P10: [u8; 10] = [3, 5, 2, 7, 4, 10, 1, 9, 8, 6];

/// Selects the 8 bits of a round key out of 10.
pub const P8: [u8; 8] = [6, 3, 7, 4, 8, 5, 10, 9];

/// The initial permutation of a block.
pub const IP: [u8; 8] = [2, 6, 3, 1, 4, 8, 5, 7];

/// The final permutation of a block, the inverse of [`IP`].
pub const FP: [u8; 8] = [4, 1, 3, 5, 7, 2, 8, 6];

/// Expands the 4 bits of a half block to 8.
pub const EP: [u8; 8] = [4, 1, 2, 3, 2, 3, 4, 1];

/// Permutes the 4 bits that leave the substitution boxes.
pub const P4: [u8; 4] = [2, 4, 3, 1];

/// Whether every entry of `table` names a bit position of a `width`-bit word.
pub open spec fn valid_table(table: Seq<u8>, width: nat) -> bool {
    forall|i: int| 0 <= i < table.len() ==> 1 <= #[trigger] table[i] <= width
}

/// The bits picked from `source` in the order that `table` lists them: bit
/// `i` of the result is bit `table[i]` of the source.
pub open spec fn permuted(source: Seq<bool>, table: Seq<u8>) -> Seq<bool> {
    Seq::new(table.len(), |i: int| source[table[i] - 1])
}

/// Whether `table` picks the input bit at position `pos`.
pub open spec fn picks(table: Seq<u8>, pos: int) -> bool {
    exists|i: int| 0 <= i < table.len() && #[trigger] table[i] == pos
}

/// Whether every bit position of a `width`-bit word occurs in `table`, so
/// that no input bit is dropped.
pub open spec fn covers(table: Seq<u8>, width: nat) -> bool {
    forall|pos: int| 1 <= pos <= width ==> #[trigger] picks(table, pos)
}

/// The six tables name only positions of the width they are declared for.
pub proof fn lemma_tables_are_valid()
    ensures
        valid_table(P10@, 10),
        valid_table(P8@, 10),
        valid_table(IP@, 8),
        valid_table(FP@, 8),
        valid_table(EP@, 4),
        valid_table(P4@, 4),
{
}

/// P10, the initial and the final permutation, P4 and the expansion use every
/// bit of their input. (P8 does not: it drops the first two bits.)
pub proof fn lemma_tables_cover_their_input()
    ensures
        covers(P10@, 10),
        covers(IP@, 8),
        covers(FP@, 8),
        covers(EP@, 4),
        covers(P4@, 4),
{
    assert(P10@[6] == 1 && P10@[2] == 2 && P10@[0] == 3 && P10@[4] == 4 && P10@[1] == 5 && P10@[9]
        == 6 && P10@[3] == 7 && P10@[8] == 8 && P10@[7] == 9 && P10@[5] == 10);
    assert(IP@[3] == 1 && IP@[0] == 2 && IP@[2] == 3 && IP@[4] == 4 && IP@[6] == 5 && IP@[1] == 6
        && IP@[7] == 7 && IP@[5] == 8);
    assert(FP@[1] == 1 && FP@[5] == 2 && FP@[2] == 3 && FP@[0] == 4 && FP@[3] == 5 && FP@[7] == 6
        && FP@[4] == 7 && FP@[6] == 8);
    assert(EP@[1] == 1 && EP@[2] == 2 && EP@[3] == 3 && EP@[0] == 4);
    assert(P4@[3] == 1 && P4@[0] == 2 && P4@[2] == 3 && P4@[1] == 4);
}

/// A table that uses every input bit loses nothing: two inputs with the same
/// image are the same input. For a table as long as its input is wide, this
/// makes the permutation a bijection on the words of that width.
pub proof fn lemma_permuted_injective(a: Seq<bool>, b: Seq<bool>, table: Seq<u8>)
    requires
        a.len() == b.len(),
        covers(table, a.len()),
        permuted(a, table) == permuted(b, table),
    ensures
        a == b,
{
    assert forall|j: int| 0 <= j < a.len() implies a[j] == b[j] by {
        assert(picks(table, j + 1));
        let i = choose|i: int| 0 <= i < table.len() && #[trigger] table[i] == j + 1;
        assert(permuted(a, table)[i] == a[j]);
        assert(permuted(b, table)[i] == b[j]);
    }
    assert(a =~= b);
}

/// P10 reaches every 10-bit word: with [`lemma_permuted_injective`], it is a
/// bijection on the words of 10 bits.
pub proof fn lemma_p10_is_onto(target: Seq<bool>)
    requires
        target.len() == 10,
    ensures
        exists|source: Seq<bool>| source.len() == 10 && #[trigger] permuted(source, P10@) == target,
{
    let source = permuted(target, seq![7u8, 3, 1, 5, 2, 10, 4, 9, 8, 6]);
    assert(permuted(source, P10@) =~= target);
}

/// P4 reaches every 4-bit word: with [`lemma_permuted_injective`], it is a
/// bijection on the words of 4 bits.
pub proof fn lemma_p4_is_onto(target: Seq<bool>)
    requires
        target.len() == 4,
    ensures
        exists|source: Seq<bool>| source.len() == 4 && #[trigger] permuted(source, P4@) == target,
{
    let source = permuted(target, seq![4u8, 1, 3, 2]);
    assert(permuted(source, P4@) =~= target);
}

/// The final permutation undoes the initial permutation.
pub proof fn lemma_final_inverts_initial(block: Seq<bool>)
    requires
        block.len() == 8,
    ensures
        permuted(permuted(block, IP@), FP@) == block,
{
    assert(permuted(permuted(block, IP@), FP@) =~= block);
}

/// The initial permutation undoes the final permutation.
pub proof fn lemma_initial_inverts_final(block: Seq<bool>)
    requires
        block.len() == 8,
    ensures
        permuted(permuted(block, FP@), IP@) == block,
{
    assert(permuted(permuted(block, FP@), IP@) =~= block);
}

/// On words: the final permutation of the initial permutation of any 8-bit
/// block is that block, and the other way round.
pub proof fn lemma_initial_and_final_cancel(block: u8)
    ensures
        value_of(permuted(bits_of(value_of(permuted(bits_of(block as nat, 8), IP@)), 8), FP@))
            == block,
        value_of(permuted(bits_of(value_of(permuted(bits_of(block as nat, 8), FP@)), 8), IP@))
            == block,
{
    let bits = bits_of(block as nat, 8);
    lemma2_to64();
    lemma_bits_of_value(permuted(bits, IP@));
    lemma_bits_of_value(permuted(bits, FP@));
    lemma_final_inverts_initial(bits);
    lemma_initial_inverts_final(bits);
    lemma_value_of_bits(block as nat, 8);
}

/// On words: a table that uses every input bit sends different words of its
/// width to different words.
pub proof fn lemma_permuted_words_differ(a: nat, b: nat, width: nat, table: Seq<u8>)
    requires
        fits(a, width),
        fits(b, width),
        covers(table, width),
        value_of(permuted(bits_of(a, width), table)) == value_of(
            permuted(bits_of(b, width), table),
        ),
    ensures
        a == b,
{
    lemma_bits_of_value(permuted(bits_of(a, width), table));
    lemma_bits_of_value(permuted(bits_of(b, width), table));
    lemma_permuted_injective(bits_of(a, width), bits_of(b, width), table);
    lemma_bits_of_injective(a, b, width);
}

/// Applies `table` to the `width`-bit word `value`.
pub fn permute(value: u16, width: u8, table: &[u8]) -> (result: u16)
    requires
        width <= 16,
        table.len() <= 16,
        valid_table(table@, width as nat),
    ensures
        result == value_of(permuted(bits_of(value as nat, width as nat), table@)),
        fits(result as nat, table@.len()),
{
    let ghost source = bits_of(value as nat, width as nat);
    let ghost target = permuted(source, table@);
    let mut result: u16 = 0;
    let mut i: usize = 0;
    proof {
        lemma2_to64();
    }
    while i < table.len()
        invariant
            i <= table.len() <= 16,
            width <= 16,
            valid_table(table@, width as nat),
            source == bits_of(value as nat, width as nat),
            target == permuted(source, table@),
            result == value_of(target.take(i as int)),
        decreases table.len() - i,
    {
        let pos = table[i];
        let bit = (value >> (width - pos)) & 1;
        proof {
            let done = target.take(i as int);
            lemma_bit_at_is_shift(value, width as nat, pos as int);
            lemma_value_of_fits(done);
            lemma2_to64();
            if i < 15 {
                lemma_pow2_strictly_increases(i as nat, 15);
            }
            assert(target.take(i + 1) =~= done.push(target[i as int]));
            lemma_value_of_push(done, target[i as int]);
            assert((result << 1) | bit == 2 * result + bit) by (bit_vector)
                requires
                    result < 0x8000,
                    bit <= 1,
            ;
        }
        result = (result << 1) | bit;
        i += 1;
    }
    proof {
        assert(target.take(i as int) =~= target);
        lemma_value_of_fits(target);
    }
    result
}

/// The P10 permutation of a 10-bit key.
pub fn p10_permutation(key: u16) -> (result: u16)
    ensures
        result == value_of(permuted(bits_of(key as nat, 10), P10@)),
        result < 1024,
{
    proof {
        lemma2_to64();
    }
    permute(key, 10, &P10)
}

/// The P8 selection: 8 of the 10 bits of a shifted key, as a round key.
pub fn p8_permutation(key: u16) -> (result: u8)
    ensures
        result == value_of(permuted(bits_of(key as nat, 10), P8@)),
{
    proof {
        lemma2_to64();
    }
    permute(key, 10, &P8) as u8
}

/// The initial permutation of a block.
pub fn initial_permutation(key: u8) -> (result: u8)
    ensures
        result == value_of(permuted(bits_of(key as nat, 8), IP@)),
{
    proof {
        lemma2_to64();
    }
    permute(key as u16, 8, &IP) as u8
}

/// The final permutation of a block.
pub fn final_permutation(key: u8) -> (result: u8)
    ensures
        result == value_of(permuted(bits_of(key as nat, 8), FP@)),
{
    proof {
        lemma2_to64();
    }
    permute(key as u16, 8, &FP) as u8
}

/// The expansion of a 4-bit half block to 8 bits.
pub fn expanded_permutation(key: u8) -> (result: u8)
    ensures
        result == value_of(permuted(bits_of(key as nat, 4), EP@)),
{
    proof {
        lemma2_to64();
    }
    permute(key as u16, 4, &EP) as u8
}

/// The P4 permutation of a 4-bit word.
pub fn p4_permutation(key: u8) -> (result: u8)
    ensures
        result == value_of(permuted(bits_of(key as nat, 4), P4@)),
        result < 16,
{
    proof {
        lemma2_to64();
    }
    permute(key as u16, 4, &P4) as u8
}

} // verus!
