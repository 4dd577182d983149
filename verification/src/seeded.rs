//! The five transforms that depend on the seed without changing how bytes
//! are written: the shuffle, the exclusive or with the seed, the interleaving
//! with generated characters, the reversal of blocks and the substitution.

use crate::crypt::DarkstarCrypt;
use crate::error::{bytes_result, DarkstarError};
use crate::prng::{lemma_scale_bound, ActivePRNG, PrngState};
use crate::shuffle::{
    iota, is_permutation, lemma_fisher_yates_order, lemma_position_of, occurs, position_of,
    shuffle, shuffled, swaps,
};
use crate::text::{seed_bytes, seed_slice, utf8_str};
use vstd::arithmetic::div_mod::{lemma_fundamental_div_mod, lemma_fundamental_div_mod_converse};
use vstd::prelude::*;
use vstd::string::*;
use vstd::utf8::{decode_utf8, valid_utf8};

verus! {

/// The generator that a seed gives: seeded with the text that the bytes
/// encode, or none if they are not UTF-8.
pub open spec fn seed_state(seed: Seq<u8>, is_v3: bool) -> Option<PrngState> {
    if valid_utf8(seed) {
        Some(PrngState::seeded(decode_utf8(seed), is_v3))
    } else {
        None
    }
}

/// The bytes put back to where a shuffle took them from: the byte at place
/// `i` goes to place `order[i]`.
pub open spec fn unshuffled(input: Seq<u8>, order: Seq<int>) -> Seq<u8> {
    Seq::new(input.len(), |k: int| input[position_of(order, k)])
}

/// Each byte combined with the byte of the repeated seed at its position by
/// exclusive or; `input` itself if the seed is empty.
pub open spec fn xored(input: Seq<u8>, seed: Seq<u8>) -> Seq<u8> {
    if seed.len() == 0 {
        input
    } else {
        Seq::new(input.len(), |i: int| input[i] ^ seed[i % seed.len() as int])
    }
}

/// The `k`-th of the 36 characters `a` to `z`, `0` to `9`.
pub open spec fn filler(k: nat) -> u8 {
    if k < 26 {
        (97 + k) as u8
    } else if k < 36 {
        (48 + k - 26) as u8
    } else {
        0
    }
}

/// Each byte of `input` followed by a character that `rng` selects.
pub open spec fn interleaved(input: Seq<u8>, rng: PrngState) -> Seq<u8> {
    Seq::new(
        2 * input.len(),
        |i: int|
            if i % 2 == 0 {
                input[i / 2]
            } else {
                filler(rng.pick_at((i / 2) as nat, 36))
            },
    )
}

/// The bytes at the even positions.
pub open spec fn deinterleaved(input: Seq<u8>) -> Seq<u8> {
    Seq::new((input.len() + 1) / 2, |i: int| input[2 * i])
}

/// The size of the blocks that are reversed in an input of `n` bytes.
pub open spec fn block_size(n: nat, rng: PrngState) -> nat {
    rng.pick_at(0, n / 2) + 2
}

/// The position from which the byte at position `i` is taken when blocks of
/// `size` bytes are reversed in an input of `n` bytes; the last block may be
/// shorter.
pub open spec fn mirror(i: int, size: int, n: int) -> int {
    let start = i - i % size;
    let end = if n - start < size {
        n
    } else {
        start + size
    };
    start + (end - 1 - i)
}

/// The input with each block of `size` bytes reversed.
pub open spec fn block_reversed(input: Seq<u8>, size: nat) -> Seq<u8> {
    Seq::new(input.len(), |i: int| input[mirror(i, size as int, input.len() as int)])
}

/// The 256 bytes in order.
pub open spec fn all_bytes() -> Seq<u8> {
    Seq::new(256, |i: int| i as u8)
}

/// Each byte replaced by the entry of `table` at its value.
pub open spec fn substituted(input: Seq<u8>, table: Seq<u8>) -> Seq<u8> {
    Seq::new(input.len(), |i: int| table[input[i] as int])
}

/// Each byte replaced by the place at which it stands in `table`.
pub open spec fn unsubstituted(input: Seq<u8>, table: Seq<u8>) -> Seq<u8> {
    Seq::new(input.len(), |i: int| position_of(table, input[i]) as u8)
}

/// What transform 6 yields.
pub open spec fn shuffle_bytes(input: Seq<u8>, seed: Seq<u8>, is_v3: bool) -> Result<
    Seq<u8>,
    DarkstarError,
> {
    match seed_state(seed, is_v3) {
        Some(rng) => Ok(shuffled(input, rng)),
        None => Err(DarkstarError::InvalidFormat),
    }
}

/// What the inverse of transform 6 yields.
pub open spec fn unshuffle_bytes(input: Seq<u8>, seed: Seq<u8>, is_v3: bool) -> Result<
    Seq<u8>,
    DarkstarError,
> {
    match seed_state(seed, is_v3) {
        Some(rng) => Ok(unshuffled(input, shuffled(iota(input.len()), rng))),
        None => Err(DarkstarError::InvalidFormat),
    }
}

/// What transform 8 yields.
pub open spec fn interleave_bytes(input: Seq<u8>, seed: Seq<u8>, is_v3: bool) -> Result<
    Seq<u8>,
    DarkstarError,
> {
    match seed_state(seed, is_v3) {
        Some(rng) => Ok(interleaved(input, rng)),
        None => Err(DarkstarError::InvalidFormat),
    }
}

/// What transform 10, which is its own inverse, yields.
pub open spec fn reverse_blocks(input: Seq<u8>, seed: Seq<u8>, is_v3: bool) -> Result<
    Seq<u8>,
    DarkstarError,
> {
    match seed_state(seed, is_v3) {
        Some(rng) => Ok(block_reversed(input, block_size(input.len(), rng))),
        None => Err(DarkstarError::InvalidFormat),
    }
}

/// What transform 11 yields.
pub open spec fn substitute_bytes(input: Seq<u8>, seed: Seq<u8>, is_v3: bool) -> Result<
    Seq<u8>,
    DarkstarError,
> {
    match seed_state(seed, is_v3) {
        Some(rng) => Ok(substituted(input, shuffled(all_bytes(), rng))),
        None => Err(DarkstarError::InvalidFormat),
    }
}

/// What the inverse of transform 11 yields.
pub open spec fn unsubstitute_bytes(input: Seq<u8>, seed: Seq<u8>, is_v3: bool) -> Result<
    Seq<u8>,
    DarkstarError,
> {
    match seed_state(seed, is_v3) {
        Some(rng) => Ok(unsubstituted(input, shuffled(all_bytes(), rng))),
        None => Err(DarkstarError::InvalidFormat),
    }
}

/// Putting the bytes back undoes the shuffle.
pub proof fn lemma_unshuffled_shuffled(input: Seq<u8>, rng: PrngState)
    ensures
        shuffled(input, rng).len() == input.len(),
        unshuffled(shuffled(input, rng), shuffled(iota(input.len()), rng)) == input,
{
    let order = shuffled(iota(input.len()), rng);
    let mixed = shuffled(input, rng);
    lemma_fisher_yates_order(input, rng, swaps(input.len()));
    assert forall|k: int| 0 <= k < input.len() implies unshuffled(mixed, order)[k]
        == input[k] by {
        lemma_position_of(order, k);
        let p = position_of(order, k);
        assert(mixed[p] == input[order[p]]);
    }
    assert(unshuffled(mixed, order) =~= input);
}

/// Every byte stands at exactly one place of a shuffled table of all bytes.
pub proof fn lemma_byte_table(rng: PrngState, b: u8)
    ensures
        shuffled(all_bytes(), rng).len() == 256,
        0 <= position_of(shuffled(all_bytes(), rng), b) < 256,
        shuffled(all_bytes(), rng)[position_of(shuffled(all_bytes(), rng), b)] == b,
        position_of(shuffled(all_bytes(), rng), shuffled(all_bytes(), rng)[b as int]) == b,
{
    let table = shuffled(all_bytes(), rng);
    let order = shuffled(iota(256), rng);
    lemma_fisher_yates_order(all_bytes(), rng, swaps(256));
    assert(forall|k: int| 0 <= k < 256 ==> #[trigger] table[k] == all_bytes()[order[k]]);
    lemma_position_of(order, b as int);
    let w = position_of(order, b as int);
    assert(table[w] == all_bytes()[order[w]]);
    assert(table[w] == b);
    let p = position_of(table, b);
    assert(0 <= p < 256 && table[p] == b);
    let q = position_of(table, table[b as int]);
    assert(0 <= q < 256 && table[q] == table[b as int]);
    assert(table[q] == all_bytes()[order[q]]);
    assert(table[b as int] == all_bytes()[order[b as int]]);
    assert(order[q] == order[b as int]);
}

/// Looking each byte up in the table undoes the substitution.
pub proof fn lemma_unsubstituted_substituted(input: Seq<u8>, rng: PrngState)
    ensures
        unsubstituted(substituted(input, shuffled(all_bytes(), rng)), shuffled(all_bytes(), rng))
            == input,
{
    let table = shuffled(all_bytes(), rng);
    assert forall|i: int| 0 <= i < input.len() implies unsubstituted(
        substituted(input, table),
        table,
    )[i] == input[i] by {
        lemma_byte_table(rng, input[i]);
    }
    assert(unsubstituted(substituted(input, table), table) =~= input);
}

/// Combining twice with the same seed gives the input back.
pub proof fn lemma_xored_involution(input: Seq<u8>, seed: Seq<u8>)
    ensures
        xored(xored(input, seed), seed) == input,
{
    if seed.len() > 0 {
        assert forall|i: int| 0 <= i < input.len() implies xored(xored(input, seed), seed)[i]
            == input[i] by {
            let a = input[i];
            let k = seed[i % seed.len() as int];
            assert((a ^ k) ^ k == a) by (bit_vector);
        }
        assert(xored(xored(input, seed), seed) =~= input);
    }
}

/// Taking the even positions undoes the interleaving.
pub proof fn lemma_deinterleaved_interleaved(input: Seq<u8>, rng: PrngState)
    ensures
        deinterleaved(interleaved(input, rng)) == input,
{
    assert(deinterleaved(interleaved(input, rng)) =~= input);
}

/// The position that a block reversal reads lies in the input, and reading
/// it twice leads back.
pub proof fn lemma_mirror(i: int, size: int, n: int)
    requires
        0 <= i < n,
        size >= 1,
    ensures
        0 <= mirror(i, size, n) < n,
        mirror(mirror(i, size, n), size, n) == i,
{
    let q = i / size;
    let r = i % size;
    lemma_fundamental_div_mod(i, size);
    let start = i - r;
    assert(start == size * q);
    let end = if n - start < size {
        n
    } else {
        start + size
    };
    let back = end - 1 - i;
    assert(0 <= r < size);
    assert(0 <= back < size);
    let m = start + back;
    assert(m == q * size + back) by (nonlinear_arith)
        requires
            m == start + back,
            start == size * q,
    ;
    lemma_fundamental_div_mod_converse(m, size, q, back);
}

/// Reversing the blocks twice gives the input back.
pub proof fn lemma_block_reversed_involution(input: Seq<u8>, size: nat)
    requires
        size >= 1,
    ensures
        block_reversed(input, size).len() == input.len(),
        block_reversed(block_reversed(input, size), size) == input,
{
    let n = input.len() as int;
    assert forall|i: int| 0 <= i < n implies block_reversed(block_reversed(input, size), size)[i]
        == input[i] by {
        lemma_mirror(i, size as int, n);
    }
    assert(block_reversed(block_reversed(input, size), size) =~= input);
}

/// The generator that the bytes of a seed give, or `InvalidFormat` if they
/// are not UTF-8.
pub fn seeded_rng(seed: &[u8], is_v3: bool) -> (r: Result<ActivePRNG, DarkstarError>)
    ensures
        match r {
            Ok(rng) => seed_state(seed@, is_v3) == Some(rng@),
            Err(e) => e == DarkstarError::InvalidFormat && seed_state(seed@, is_v3) is None,
        },
{
    match utf8_str(seed) {
        Some(text) => {
            proof {
                vstd::utf8::encode_utf8_decode_utf8(text@);
            }
            Ok(ActivePRNG::new(text, is_v3))
        },
        None => Err(DarkstarError::InvalidFormat),
    }
}

/// The `k`-th filler character.
fn filler_byte(k: usize) -> (b: u8)
    requires
        k < 36,
    ensures
        b == filler(k as nat),
{
    if k < 26 {
        97 + k as u8
    } else {
        48 + (k - 26) as u8
    }
}

/// The table of all bytes, shuffled under `rng`.
fn byte_table(rng: &mut ActivePRNG) -> (table: Vec<u8>)
    ensures
        table@ == shuffled(all_bytes(), old(rng)@),
        table@.len() == 256,
{
    let mut table: Vec<u8> = Vec::new();
    let mut i: usize = 0;
    while i < 256
        invariant
            i <= 256,
            table@ == all_bytes().take(i as int),
        decreases 256 - i,
    {
        table.push(i as u8);
        proof {
            assert(all_bytes().take(i + 1) =~= all_bytes().take(i as int).push(i as u8));
        }
        i = i + 1;
    }
    proof {
        assert(all_bytes().take(256) =~= all_bytes());
        lemma_fisher_yates_order(all_bytes(), rng@, swaps(256));
    }
    shuffle(&mut table, rng);
    table
}

impl DarkstarCrypt {
    /// Transform 6: the bytes shuffled under the generator that the seed
    /// gives. `InvalidFormat` if the seed is not UTF-8.
    pub fn obfuscate_by_shuffling_v2(input: &[u8], seed: Option<&[u8]>, is_v3: bool) -> (r: Result<
        Vec<u8>,
        DarkstarError,
    >)
        ensures
            bytes_result(r) == shuffle_bytes(input@, seed_bytes(seed), is_v3),
    {
        let mut rng = match seeded_rng(seed_slice(seed), is_v3) {
            Ok(rng) => rng,
            Err(e) => {
                return Err(e);
            },
        };
        let mut out: Vec<u8> = Vec::new();
        out.extend_from_slice(input);
        proof {
            assert(out@ =~= input@);
        }
        shuffle(&mut out, &mut rng);
        Ok(out)
    }

    /// The inverse of transform 6: the same shuffle is made on the positions,
    /// and each byte is put back to the position that came to its place.
    /// `InvalidFormat` if the seed is not UTF-8.
    pub fn deobfuscate_by_shuffling_v2(input: &[u8], seed: Option<&[u8]>, is_v3: bool) -> (r:
        Result<Vec<u8>, DarkstarError>)
        ensures
            bytes_result(r) == unshuffle_bytes(input@, seed_bytes(seed), is_v3),
    {
        let n = input.len();
        let mut rng = match seeded_rng(seed_slice(seed), is_v3) {
            Ok(rng) => rng,
            Err(e) => {
                return Err(e);
            },
        };
        let ghost places = Seq::new(n as nat, |i: int| i as usize);
        let ghost order = shuffled(iota(n as nat), rng@);
        let mut indices: Vec<usize> = Vec::new();
        let mut output: Vec<u8> = Vec::new();
        let mut i: usize = 0;
        while i < n
            invariant
                i <= n,
                places == Seq::new(n as nat, |i: int| i as usize),
                indices@ == places.take(i as int),
                output@.len() == i,
            decreases n - i,
        {
            indices.push(i);
            output.push(0);
            proof {
                assert(places.take(i + 1) =~= places.take(i as int).push(i));
            }
            i = i + 1;
        }
        proof {
            assert(places.take(n as int) =~= places);
            lemma_fisher_yates_order(places, rng@, swaps(n as nat));
        }
        shuffle(&mut indices, &mut rng);
        proof {
            assert forall|k: int| 0 <= k < n implies indices@[k] as int == order[k] by {
                assert(indices@[k] == places[order[k]]);
            }
        }
        let mut i: usize = 0;
        while i < n
            invariant
                i <= n,
                n == input@.len(),
                indices@.len() == n,
                output@.len() == n,
                order.len() == n,
                is_permutation(order),
                forall|k: int| 0 <= k < n ==> indices@[k] as int == order[k],
                forall|k: int| 0 <= k < i ==> output@[#[trigger] order[k]] == input@[k],
            decreases n - i,
        {
            let target = indices[i];
            let ghost before = output@;
            proof {
                assert(0 <= order[i as int] < order.len());
            }
            output.set(target, input[i]);
            proof {
                assert forall|k: int| 0 <= k < i + 1 implies output@[#[trigger] order[k]]
                    == input@[k] by {
                    if k < i {
                        assert(order[k] != order[i as int]);
                        assert(before[order[k]] == input@[k]);
                    }
                }
            }
            i = i + 1;
        }
        proof {
            assert forall|k: int| 0 <= k < n implies output@[k] == input@[position_of(
                order,
                k,
            )] by {
                lemma_position_of(order, k);
            }
            assert(output@ =~= unshuffled(input@, order));
        }
        Ok(output)
    }

    /// Transform 7: each byte combined with the byte of the repeated seed at
    /// its position by exclusive or. With an empty seed the input is returned
    /// as it is.
    pub fn obfuscate_with_xor_v2(input: &[u8], seed: Option<&[u8]>, _is_v3: bool) -> (r: Result<
        Vec<u8>,
        DarkstarError,
    >)
        ensures
            r matches Ok(out) && out@ == xored(input@, seed_bytes(seed)),
    {
        let keys = seed_slice(seed);
        let mut out: Vec<u8> = Vec::new();
        if keys.len() == 0 {
            out.extend_from_slice(input);
            proof {
                assert(out@ =~= input@);
            }
            return Ok(out);
        }
        let ghost mixed = xored(input@, keys@);
        let mut i: usize = 0;
        while i < input.len()
            invariant
                i <= input.len(),
                keys@.len() > 0,
                mixed == xored(input@, keys@),
                out@ == mixed.take(i as int),
            decreases input.len() - i,
        {
            let b = input[i] ^ keys[i % keys.len()];
            out.push(b);
            proof {
                assert(mixed.take(i + 1) =~= mixed.take(i as int).push(b));
            }
            i = i + 1;
        }
        proof {
            assert(mixed.take(input@.len() as int) =~= mixed);
        }
        Ok(out)
    }

    /// The inverse of transform 7, which is the transform itself.
    pub fn deobfuscate_with_xor_v2(input: &[u8], seed: Option<&[u8]>, is_v3: bool) -> (r: Result<
        Vec<u8>,
        DarkstarError,
    >)
        ensures
            r matches Ok(out) && out@ == xored(input@, seed_bytes(seed)),
    {
        Self::obfuscate_with_xor_v2(input, seed, is_v3)
    }

    /// Transform 8: behind each byte one of the 36 filler characters, selected
    /// by the generator that the seed gives. `InvalidFormat` if the seed is
    /// not UTF-8.
    pub fn obfuscate_by_interleaving_v2(input: &[u8], seed: Option<&[u8]>, is_v3: bool) -> (r:
        Result<Vec<u8>, DarkstarError>)
        ensures
            bytes_result(r) == interleave_bytes(input@, seed_bytes(seed), is_v3),
    {
        let mut rng = match seeded_rng(seed_slice(seed), is_v3) {
            Ok(rng) => rng,
            Err(e) => {
                return Err(e);
            },
        };
        let ghost start = rng@;
        let ghost mixed = interleaved(input@, start);
        let mut out: Vec<u8> = Vec::new();
        let mut i: usize = 0;
        while i < input.len()
            invariant
                i <= input.len(),
                mixed == interleaved(input@, start),
                rng@ == start.after(i as nat),
                out@ == mixed.take(2 * i),
            decreases input.len() - i,
        {
            let b = input[i];
            out.push(b);
            let k = rng.pick(36);
            let c = filler_byte(k);
            out.push(c);
            proof {
                assert(mixed[2 * i] == b);
                assert(mixed[2 * i + 1] == c);
                assert(mixed.take(2 * (i + 1)) =~= mixed.take(2 * i).push(b).push(c));
            }
            i = i + 1;
        }
        proof {
            assert(mixed.take(2 * (input@.len() as int)) =~= mixed);
        }
        Ok(out)
    }

    /// The inverse of transform 8: the bytes at the even positions.
    pub fn deobfuscate_by_deinterleaving_v2(input: &[u8], _seed: Option<&[u8]>, _is_v3: bool) -> (r:
        Result<Vec<u8>, DarkstarError>)
        ensures
            r matches Ok(out) && out@ == deinterleaved(input@),
    {
        let n = input.len();
        let count = n / 2 + n % 2;
        let ghost kept = deinterleaved(input@);
        let mut out: Vec<u8> = Vec::new();
        let mut i: usize = 0;
        while i < count
            invariant
                i <= count,
                n == input@.len(),
                count == (n + 1) / 2,
                kept == deinterleaved(input@),
                out@ == kept.take(i as int),
            decreases count - i,
        {
            out.push(input[2 * i]);
            proof {
                assert(kept.take(i + 1) =~= kept.take(i as int).push(input@[2 * i]));
            }
            i = i + 1;
        }
        proof {
            assert(kept.take(count as int) =~= kept);
        }
        Ok(out)
    }

    /// Transform 10: the input cut into blocks of a size that the generator
    /// selects, each block reversed. `InvalidFormat` if the seed is not UTF-8.
    pub fn obfuscate_with_seeded_block_reversal_v2(
        input: &[u8],
        seed: Option<&[u8]>,
        is_v3: bool,
    ) -> (r: Result<Vec<u8>, DarkstarError>)
        ensures
            bytes_result(r) == reverse_blocks(input@, seed_bytes(seed), is_v3),
    {
        let mut rng = match seeded_rng(seed_slice(seed), is_v3) {
            Ok(rng) => rng,
            Err(e) => {
                return Err(e);
            },
        };
        let n = input.len();
        let ghost start_rng = rng@;
        let size = rng.pick(n / 2) + 2;
        let ghost turned = block_reversed(input@, size as nat);
        let mut out: Vec<u8> = Vec::new();
        let mut i: usize = 0;
        while i < n
            invariant
                i <= n,
                n == input@.len(),
                size >= 2,
                turned == block_reversed(input@, size as nat),
                out@ == turned.take(i as int),
            decreases n - i,
        {
            proof {
                lemma_fundamental_div_mod(i as int, size as int);
                assert(0 <= (i as int) % (size as int) <= i) by (nonlinear_arith)
                    requires
                        i >= 0,
                        size >= 2,
                        i == size * ((i as int) / (size as int)) + (i as int) % (size as int),
                        0 <= (i as int) % (size as int),
                        (i as int) / (size as int) >= 0,
                ;
            }
            let start = i - i % size;
            let end = if n - start < size {
                n
            } else {
                start + size
            };
            proof {
                lemma_mirror(i as int, size as int, n as int);
            }
            let b = input[start + (end - 1 - i)];
            out.push(b);
            proof {
                assert(turned.take(i + 1) =~= turned.take(i as int).push(b));
            }
            i = i + 1;
        }
        proof {
            assert(turned.take(n as int) =~= turned);
        }
        Ok(out)
    }

    /// The inverse of transform 10, which is the transform itself.
    pub fn deobfuscate_with_seeded_block_reversal_v2(
        input: &[u8],
        seed: Option<&[u8]>,
        is_v3: bool,
    ) -> (r: Result<Vec<u8>, DarkstarError>)
        ensures
            bytes_result(r) == reverse_blocks(input@, seed_bytes(seed), is_v3),
    {
        Self::obfuscate_with_seeded_block_reversal_v2(input, seed, is_v3)
    }

    /// Transform 11: each byte replaced through the table of all bytes,
    /// shuffled under the generator that the seed gives. `InvalidFormat` if
    /// the seed is not UTF-8.
    pub fn obfuscate_with_seeded_substitution_v2(
        input: &[u8],
        seed: Option<&[u8]>,
        is_v3: bool,
    ) -> (r: Result<Vec<u8>, DarkstarError>)
        ensures
            bytes_result(r) == substitute_bytes(input@, seed_bytes(seed), is_v3),
    {
        let mut rng = match seeded_rng(seed_slice(seed), is_v3) {
            Ok(rng) => rng,
            Err(e) => {
                return Err(e);
            },
        };
        let table = byte_table(&mut rng);
        let ghost replaced = substituted(input@, table@);
        let mut out: Vec<u8> = Vec::new();
        let mut i: usize = 0;
        while i < input.len()
            invariant
                i <= input.len(),
                table@.len() == 256,
                replaced == substituted(input@, table@),
                out@ == replaced.take(i as int),
            decreases input.len() - i,
        {
            let b = table[input[i] as usize];
            out.push(b);
            proof {
                assert(replaced.take(i + 1) =~= replaced.take(i as int).push(b));
            }
            i = i + 1;
        }
        proof {
            assert(replaced.take(input@.len() as int) =~= replaced);
        }
        Ok(out)
    }

    /// The inverse of transform 11: each byte replaced by the place at which
    /// it stands in the shuffled table. `InvalidFormat` if the seed is not
    /// UTF-8.
    pub fn deobfuscate_with_seeded_substitution_v2(
        input: &[u8],
        seed: Option<&[u8]>,
        is_v3: bool,
    ) -> (r: Result<Vec<u8>, DarkstarError>)
        ensures
            bytes_result(r) == unsubstitute_bytes(input@, seed_bytes(seed), is_v3),
    {
        let mut rng = match seeded_rng(seed_slice(seed), is_v3) {
            Ok(rng) => rng,
            Err(e) => {
                return Err(e);
            },
        };
        let ghost start = rng@;
        let table = byte_table(&mut rng);
        let mut places: Vec<u8> = Vec::new();
        let mut i: usize = 0;
        while i < 256
            invariant
                i <= 256,
                places@.len() == i,
            decreases 256 - i,
        {
            places.push(0);
            i = i + 1;
        }
        let mut i: usize = 0;
        while i < 256
            invariant
                i <= 256,
                places@.len() == 256,
                table@ == shuffled(all_bytes(), start),
                table@.len() == 256,
                forall|k: int| 0 <= k < i ==> places@[#[trigger] table@[k] as int] == k,
            decreases 256 - i,
        {
            let ghost before = places@;
            places.set(table[i] as usize, i as u8);
            proof {
                assert forall|k: int| 0 <= k < i + 1 implies places@[#[trigger] table@[k] as int]
                    == k by {
                    if k < i {
                        lemma_byte_table(start, k as u8);
                        lemma_byte_table(start, i as u8);
                        assert(before[table@[k] as int] == k);
                    }
                }
            }
            i = i + 1;
        }
        let ghost found = unsubstituted(input@, table@);
        let mut out: Vec<u8> = Vec::new();
        let mut i: usize = 0;
        while i < input.len()
            invariant
                i <= input.len(),
                places@.len() == 256,
                table@ == shuffled(all_bytes(), start),
                forall|k: int| 0 <= k < 256 ==> places@[#[trigger] table@[k] as int] == k,
                found == unsubstituted(input@, table@),
                out@ == found.take(i as int),
            decreases input.len() - i,
        {
            let b = places[input[i] as usize];
            out.push(b);
            proof {
                lemma_byte_table(start, input@[i as int]);
                let p = position_of(table@, input@[i as int]);
                assert(places@[table@[p] as int] == p);
                assert(found.take(i + 1) =~= found.take(i as int).push(b));
            }
            i = i + 1;
        }
        proof {
            assert(found.take(input@.len() as int) =~= found);
        }
        Ok(out)
    }
}

} // verus!
