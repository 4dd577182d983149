//! The four transforms that keep the length and use no seed: reversal, the
//! two letter substitutions and the swap of adjacent bytes. Each is its own
//! inverse.

use crate::crypt::DarkstarCrypt;
use crate::error::DarkstarError;
use vstd::prelude::*;

verus! {

/// The mirror image of an ASCII letter within its alphabet; any other byte
/// unchanged.
pub open spec fn atbash_byte(b: u8) -> u8 {
    if 65 <= b <= 90 {
        (155 - b) as u8
    } else if 97 <= b <= 122 {
        (219 - b) as u8
    } else {
        b
    }
}

/// An ASCII letter moved thirteen places round its alphabet; any other byte
/// unchanged.
pub open spec fn rot13_byte(b: u8) -> u8 {
    if 65 <= b <= 90 {
        ((b - 65 + 13) % 26 + 65) as u8
    } else if 97 <= b <= 122 {
        ((b - 97 + 13) % 26 + 97) as u8
    } else {
        b
    }
}

/// The bytes with every letter mirrored.
pub open spec fn atbash(input: Seq<u8>) -> Seq<u8> {
    Seq::new(input.len(), |i: int| atbash_byte(input[i]))
}

/// The bytes with every letter rotated.
pub open spec fn rot13(input: Seq<u8>) -> Seq<u8> {
    Seq::new(input.len(), |i: int| rot13_byte(input[i]))
}

/// The bytes with the two of each adjacent pair exchanged; the last byte of
/// an odd-length input stays.
pub open spec fn swap_adjacent(input: Seq<u8>) -> Seq<u8> {
    Seq::new(
        input.len(),
        |i: int|
            if i % 2 == 1 {
                input[i - 1]
            } else if i + 1 < input.len() {
                input[i + 1]
            } else {
                input[i]
            },
    )
}

/// Reversing twice gives the input back.
pub proof fn lemma_reverse_involution(input: Seq<u8>)
    ensures
        input.reverse().reverse() == input,
{
    assert(input.reverse().reverse() =~= input);
}

/// Mirroring twice gives the input back.
pub proof fn lemma_atbash_involution(input: Seq<u8>)
    ensures
        atbash(atbash(input)) == input,
{
    assert(atbash(atbash(input)) =~= input);
}

/// Rotating twice gives the input back.
pub proof fn lemma_rot13_involution(input: Seq<u8>)
    ensures
        rot13(rot13(input)) == input,
{
    assert(rot13(rot13(input)) =~= input);
}

/// Swapping twice gives the input back.
pub proof fn lemma_swap_adjacent_involution(input: Seq<u8>)
    ensures
        swap_adjacent(swap_adjacent(input)) == input,
{
    assert(swap_adjacent(swap_adjacent(input)) =~= input);
}

impl DarkstarCrypt {
    /// Transform 0: the bytes in reverse order.
    pub fn obfuscate_by_reversing_v2(input: &[u8], _seed: Option<&[u8]>, _is_v3: bool) -> (r:
        Result<Vec<u8>, DarkstarError>)
        ensures
            r matches Ok(out) && out@ == input@.reverse(),
    {
        let n = input.len();
        let mut out: Vec<u8> = Vec::with_capacity(n);
        let mut i: usize = 0;
        while i < n
            invariant
                n == input.len(),
                i <= n,
                out@ == input@.reverse().take(i as int),
            decreases n - i,
        {
            out.push(input[n - 1 - i]);
            proof {
                assert(input@.reverse().take(i + 1) =~= input@.reverse().take(i as int).push(
                    input@[n - 1 - i],
                ));
            }
            i = i + 1;
        }
        proof {
            assert(input@.reverse().take(n as int) =~= input@.reverse());
        }
        Ok(out)
    }

    /// The inverse of transform 0, which is the transform itself.
    pub fn deobfuscate_by_reversing_v2(input: &[u8], seed: Option<&[u8]>, is_v3: bool) -> (r:
        Result<Vec<u8>, DarkstarError>)
        ensures
            r matches Ok(out) && out@ == input@.reverse(),
    {
        Self::obfuscate_by_reversing_v2(input, seed, is_v3)
    }

    /// Transform 1: every ASCII letter mirrored within its alphabet.
    pub fn obfuscate_with_atbash_cipher_v2(input: &[u8], _seed: Option<&[u8]>, _is_v3: bool) -> (r:
        Result<Vec<u8>, DarkstarError>)
        ensures
            r matches Ok(out) && out@ == atbash(input@),
    {
        let n = input.len();
        let mut out: Vec<u8> = Vec::with_capacity(n);
        let mut i: usize = 0;
        while i < n
            invariant
                n == input.len(),
                i <= n,
                out@ == atbash(input@).take(i as int),
            decreases n - i,
        {
            let b = input[i];
            let c = if b >= 65 && b <= 90 {
                90 - (b - 65)
            } else if b >= 97 && b <= 122 {
                122 - (b - 97)
            } else {
                b
            };
            out.push(c);
            proof {
                assert(atbash(input@).take(i + 1) =~= atbash(input@).take(i as int).push(c));
            }
            i = i + 1;
        }
        proof {
            assert(atbash(input@).take(n as int) =~= atbash(input@));
        }
        Ok(out)
    }

    /// The inverse of transform 1, which is the transform itself.
    pub fn deobfuscate_with_atbash_cipher_v2(input: &[u8], seed: Option<&[u8]>, is_v3: bool) -> (r:
        Result<Vec<u8>, DarkstarError>)
        ensures
            r matches Ok(out) && out@ == atbash(input@),
    {
        Self::obfuscate_with_atbash_cipher_v2(input, seed, is_v3)
    }

    /// Transform 4: every ASCII letter rotated by thirteen places.
    pub fn obfuscate_with_caesar_cipher_v2(input: &[u8], _seed: Option<&[u8]>, _is_v3: bool) -> (r:
        Result<Vec<u8>, DarkstarError>)
        ensures
            r matches Ok(out) && out@ == rot13(input@),
    {
        let n = input.len();
        let mut out: Vec<u8> = Vec::with_capacity(n);
        let mut i: usize = 0;
        while i < n
            invariant
                n == input.len(),
                i <= n,
                out@ == rot13(input@).take(i as int),
            decreases n - i,
        {
            let b = input[i];
            let c = if b >= 65 && b <= 90 {
                ((b - 65 + 13) % 26) + 65
            } else if b >= 97 && b <= 122 {
                ((b - 97 + 13) % 26) + 97
            } else {
                b
            };
            out.push(c);
            proof {
                assert(rot13(input@).take(i + 1) =~= rot13(input@).take(i as int).push(c));
            }
            i = i + 1;
        }
        proof {
            assert(rot13(input@).take(n as int) =~= rot13(input@));
        }
        Ok(out)
    }

    /// The inverse of transform 4, which is the transform itself.
    pub fn deobfuscate_with_caesar_cipher_v2(input: &[u8], seed: Option<&[u8]>, is_v3: bool) -> (r:
        Result<Vec<u8>, DarkstarError>)
        ensures
            r matches Ok(out) && out@ == rot13(input@),
    {
        Self::obfuscate_with_caesar_cipher_v2(input, seed, is_v3)
    }

    /// Transform 5: the bytes of each adjacent pair exchanged.
    pub fn obfuscate_by_swapping_adjacent_bytes_v2(
        input: &[u8],
        _seed: Option<&[u8]>,
        _is_v3: bool,
    ) -> (r: Result<Vec<u8>, DarkstarError>)
        ensures
            r matches Ok(out) && out@ == swap_adjacent(input@),
    {
        let n = input.len();
        let mut out: Vec<u8> = Vec::with_capacity(n);
        let mut i: usize = 0;
        while i < n
            invariant
                n == input.len(),
                i <= n,
                i % 2 == 0 || i == n,
                out@ == swap_adjacent(input@).take(i as int),
            decreases n - i,
        {
            if n - i >= 2 {
                out.push(input[i + 1]);
                out.push(input[i]);
                proof {
                    assert(swap_adjacent(input@).take(i + 2) =~= swap_adjacent(input@).take(
                        i as int,
                    ).push(input@[i + 1]).push(input@[i as int]));
                }
                i = i + 2;
            } else {
                out.push(input[i]);
                proof {
                    assert(swap_adjacent(input@).take(i + 1) =~= swap_adjacent(input@).take(
                        i as int,
                    ).push(input@[i as int]));
                }
                i = i + 1;
            }
        }
        proof {
            assert(swap_adjacent(input@).take(n as int) =~= swap_adjacent(input@));
        }
        Ok(out)
    }

    /// The inverse of transform 5, which is the transform itself.
    pub fn deobfuscate_by_swapping_adjacent_bytes_v2(
        input: &[u8],
        seed: Option<&[u8]>,
        is_v3: bool,
    ) -> (r: Result<Vec<u8>, DarkstarError>)
        ensures
            r matches Ok(out) && out@ == swap_adjacent(input@),
    {
        Self::obfuscate_by_swapping_adjacent_bytes_v2(input, seed, is_v3)
    }
}

} // verus!
