//! The twelve transforms as one enumeration.

use crate::crypt::DarkstarCrypt;
use crate::error::{bytes_result, DarkstarError};
use crate::numeric::{
    lemma_unrendered_rendered, lemma_unvigenere_vigenere, rendered, unrendered, unvigenere,
    vigenere,
};
use crate::plain::{
    atbash, lemma_atbash_involution, lemma_reverse_involution, lemma_rot13_involution,
    lemma_swap_adjacent_involution, rot13, swap_adjacent,
};
use crate::seeded::{
    block_size, deinterleaved, interleave_bytes, lemma_block_reversed_involution,
    lemma_deinterleaved_interleaved, lemma_unshuffled_shuffled, lemma_unsubstituted_substituted,
    lemma_xored_involution, reverse_blocks, seed_state, shuffle_bytes, substitute_bytes,
    unshuffle_bytes, unsubstitute_bytes, xored,
};
use crate::text::seed_bytes;
use vstd::prelude::*;

verus! {

/// One of the twelve byte transforms. The order of the variants is the order
/// of the table: it is part of the format of a reverse key.
#[derive(Clone, Copy, Debug, PartialEq, Eq, Structural)]
pub enum Transform {
    /// Reverses the bytes.
    Reverse,
    /// Mirrors each ASCII letter within its alphabet.
    Atbash,
    /// Writes each byte as a decimal number.
    CharCodes,
    /// Writes each byte as a binary number.
    Binary,
    /// Rotates each ASCII letter by thirteen places.
    Caesar,
    /// Swaps the bytes of each adjacent pair.
    SwapAdjacent,
    /// Shuffles the bytes under a seeded generator.
    Shuffle,
    /// Combines the bytes with the repeated seed by exclusive or.
    Xor,
    /// Puts a generated character behind each byte.
    Interleave,
    /// Writes each byte, increased by a byte of the repeated seed, as a
    /// decimal number.
    Vigenere,
    /// Reverses blocks of a generated size.
    BlockReversal,
    /// Replaces each byte through a generated permutation of all bytes.
    Substitution,
}

impl Transform {
    /// The index of the transform: its position in the table.
    pub open spec fn index(self) -> nat {
        match self {
            Transform::Reverse => 0,
            Transform::Atbash => 1,
            Transform::CharCodes => 2,
            Transform::Binary => 3,
            Transform::Caesar => 4,
            Transform::SwapAdjacent => 5,
            Transform::Shuffle => 6,
            Transform::Xor => 7,
            Transform::Interleave => 8,
            Transform::Vigenere => 9,
            Transform::BlockReversal => 10,
            Transform::Substitution => 11,
        }
    }

    /// Whether the transform is given the seed: the last six are.
    pub open spec fn is_seeded(self) -> bool {
        self.index() >= 6
    }

    /// What the transform makes of `input` under the seed `seed`, with the
    /// generator that `is_v3` selects.
    pub open spec fn forward(self, input: Seq<u8>, seed: Seq<u8>, is_v3: bool) -> Result<
        Seq<u8>,
        DarkstarError,
    > {
        match self {
            Transform::Reverse => Ok(input.reverse()),
            Transform::Atbash => Ok(atbash(input)),
            Transform::CharCodes => Ok(rendered(input, 10)),
            Transform::Binary => Ok(rendered(input, 2)),
            Transform::Caesar => Ok(rot13(input)),
            Transform::SwapAdjacent => Ok(swap_adjacent(input)),
            Transform::Shuffle => shuffle_bytes(input, seed, is_v3),
            Transform::Xor => Ok(xored(input, seed)),
            Transform::Interleave => interleave_bytes(input, seed, is_v3),
            Transform::Vigenere => Ok(vigenere(input, seed)),
            Transform::BlockReversal => reverse_blocks(input, seed, is_v3),
            Transform::Substitution => substitute_bytes(input, seed, is_v3),
        }
    }

    /// What the inverse of the transform makes of `input` under the seed
    /// `seed`, with the generator that `is_v3` selects.
    pub open spec fn inverse(self, input: Seq<u8>, seed: Seq<u8>, is_v3: bool) -> Result<
        Seq<u8>,
        DarkstarError,
    > {
        match self {
            Transform::Reverse => Ok(input.reverse()),
            Transform::Atbash => Ok(atbash(input)),
            Transform::CharCodes => unrendered(input, 10),
            Transform::Binary => unrendered(input, 2),
            Transform::Caesar => Ok(rot13(input)),
            Transform::SwapAdjacent => Ok(swap_adjacent(input)),
            Transform::Shuffle => unshuffle_bytes(input, seed, is_v3),
            Transform::Xor => Ok(xored(input, seed)),
            Transform::Interleave => Ok(deinterleaved(input)),
            Transform::Vigenere => unvigenere(input, seed),
            Transform::BlockReversal => reverse_blocks(input, seed, is_v3),
            Transform::Substitution => unsubstitute_bytes(input, seed, is_v3),
        }
    }

    /// The transform with the given index, if the index is below twelve.
    pub open spec fn at(index: int) -> Option<Transform> {
        if 0 <= index < 12 {
            Some(Transform::table()[index])
        } else {
            None
        }
    }

    /// Applies the transform.
    pub fn apply(self, input: &[u8], seed: Option<&[u8]>, is_v3: bool) -> (r: Result<
        Vec<u8>,
        DarkstarError,
    >)
        ensures
            bytes_result(r) == self.forward(input@, seed_bytes(seed), is_v3),
    {
        match self {
            Transform::Reverse => DarkstarCrypt::obfuscate_by_reversing_v2(input, seed, is_v3),
            Transform::Atbash => DarkstarCrypt::obfuscate_with_atbash_cipher_v2(
                input,
                seed,
                is_v3,
            ),
            Transform::CharCodes => DarkstarCrypt::obfuscate_to_char_codes_v2(input, seed, is_v3),
            Transform::Binary => DarkstarCrypt::obfuscate_to_binary_v2(input, seed, is_v3),
            Transform::Caesar => DarkstarCrypt::obfuscate_with_caesar_cipher_v2(
                input,
                seed,
                is_v3,
            ),
            Transform::SwapAdjacent => DarkstarCrypt::obfuscate_by_swapping_adjacent_bytes_v2(
                input,
                seed,
                is_v3,
            ),
            Transform::Shuffle => DarkstarCrypt::obfuscate_by_shuffling_v2(input, seed, is_v3),
            Transform::Xor => DarkstarCrypt::obfuscate_with_xor_v2(input, seed, is_v3),
            Transform::Interleave => DarkstarCrypt::obfuscate_by_interleaving_v2(
                input,
                seed,
                is_v3,
            ),
            Transform::Vigenere => DarkstarCrypt::obfuscate_with_vigenere_cipher_v2(
                input,
                seed,
                is_v3,
            ),
            Transform::BlockReversal => DarkstarCrypt::obfuscate_with_seeded_block_reversal_v2(
                input,
                seed,
                is_v3,
            ),
            Transform::Substitution => DarkstarCrypt::obfuscate_with_seeded_substitution_v2(
                input,
                seed,
                is_v3,
            ),
        }
    }

    /// Applies the inverse of the transform.
    pub fn invert(self, input: &[u8], seed: Option<&[u8]>, is_v3: bool) -> (r: Result<
        Vec<u8>,
        DarkstarError,
    >)
        ensures
            bytes_result(r) == self.inverse(input@, seed_bytes(seed), is_v3),
    {
        match self {
            Transform::Reverse => DarkstarCrypt::deobfuscate_by_reversing_v2(input, seed, is_v3),
            Transform::Atbash => DarkstarCrypt::deobfuscate_with_atbash_cipher_v2(
                input,
                seed,
                is_v3,
            ),
            Transform::CharCodes => DarkstarCrypt::deobfuscate_from_char_codes_v2(
                input,
                seed,
                is_v3,
            ),
            Transform::Binary => DarkstarCrypt::deobfuscate_from_binary_v2(input, seed, is_v3),
            Transform::Caesar => DarkstarCrypt::deobfuscate_with_caesar_cipher_v2(
                input,
                seed,
                is_v3,
            ),
            Transform::SwapAdjacent => DarkstarCrypt::deobfuscate_by_swapping_adjacent_bytes_v2(
                input,
                seed,
                is_v3,
            ),
            Transform::Shuffle => DarkstarCrypt::deobfuscate_by_shuffling_v2(input, seed, is_v3),
            Transform::Xor => DarkstarCrypt::deobfuscate_with_xor_v2(input, seed, is_v3),
            Transform::Interleave => DarkstarCrypt::deobfuscate_by_deinterleaving_v2(
                input,
                seed,
                is_v3,
            ),
            Transform::Vigenere => DarkstarCrypt::deobfuscate_with_vigenere_cipher_v2(
                input,
                seed,
                is_v3,
            ),
            Transform::BlockReversal => DarkstarCrypt::deobfuscate_with_seeded_block_reversal_v2(
                input,
                seed,
                is_v3,
            ),
            Transform::Substitution => DarkstarCrypt::deobfuscate_with_seeded_substitution_v2(
                input,
                seed,
                is_v3,
            ),
        }
    }

    /// The table of the transforms: each at the position of its index.
    pub open spec fn table() -> Seq<Transform> {
        seq![
            Transform::Reverse,
            Transform::Atbash,
            Transform::CharCodes,
            Transform::Binary,
            Transform::Caesar,
            Transform::SwapAdjacent,
            Transform::Shuffle,
            Transform::Xor,
            Transform::Interleave,
            Transform::Vigenere,
            Transform::BlockReversal,
            Transform::Substitution,
        ]
    }
}

/// No transform fails under a seed that is UTF-8, nor one of the first six
/// under any seed.
pub proof fn lemma_forward_succeeds(t: Transform, input: Seq<u8>, seed: Seq<u8>, is_v3: bool)
    requires
        vstd::utf8::valid_utf8(seed) || !t.is_seeded(),
    ensures
        t.forward(input, seed, is_v3) is Ok,
{
}

/// Every transform is undone by its inverse: whatever the input, the seed and
/// the generator, if the transform yields an output, then its inverse under
/// the same seed and generator yields the input from that output.
pub proof fn lemma_transform_round_trip(t: Transform, input: Seq<u8>, seed: Seq<u8>, is_v3: bool)
    ensures
        t.forward(input, seed, is_v3) matches Ok(output) ==> t.inverse(output, seed, is_v3) == Ok::<
            Seq<u8>,
            DarkstarError,
        >(input),
{
    match t {
        Transform::Reverse => lemma_reverse_involution(input),
        Transform::Atbash => lemma_atbash_involution(input),
        Transform::CharCodes => lemma_unrendered_rendered(input, 10),
        Transform::Binary => lemma_unrendered_rendered(input, 2),
        Transform::Caesar => lemma_rot13_involution(input),
        Transform::SwapAdjacent => lemma_swap_adjacent_involution(input),
        Transform::Shuffle => {
            if let Some(rng) = seed_state(seed, is_v3) {
                lemma_unshuffled_shuffled(input, rng);
            }
        },
        Transform::Xor => lemma_xored_involution(input, seed),
        Transform::Interleave => {
            if let Some(rng) = seed_state(seed, is_v3) {
                lemma_deinterleaved_interleaved(input, rng);
            }
        },
        Transform::Vigenere => lemma_unvigenere_vigenere(input, seed),
        Transform::BlockReversal => {
            if let Some(rng) = seed_state(seed, is_v3) {
                lemma_block_reversed_involution(input, block_size(input.len(), rng));
            }
        },
        Transform::Substitution => {
            if let Some(rng) = seed_state(seed, is_v3) {
                lemma_unsubstituted_substituted(input, rng);
            }
        },
    }
}

} // verus!
