//! The three transforms that write bytes as numbers separated by commas:
//! decimal codes, binary codes, and decimal codes shifted by the seed.

use crate::crypt::DarkstarCrypt;
use crate::error::{bytes_result, DarkstarError};
use crate::text::{
    byte_lists, parse_number, push_digits, seed_bytes, seed_slice, split_on, digits, free_of, join, lemma_digits, lemma_digits_free_of_comma, lemma_parse_digits,
    lemma_split_join, parse_unsigned, split, COMMA,
};
use vstd::prelude::*;

verus! {

/// The bytes of `input`, each written in the given radix, joined by commas.
pub open spec fn rendered(input: Seq<u8>, radix: nat) -> Seq<u8> {
    join(Seq::new(input.len(), |i: int| digits(input[i] as nat, radix)), COMMA)
}

/// The sum of each byte of `input` and the byte of the repeated seed at its
/// position, written in decimal and joined by commas; `input` itself if the
/// seed is empty.
pub open spec fn vigenere(input: Seq<u8>, seed: Seq<u8>) -> Seq<u8> {
    if seed.len() == 0 {
        input
    } else {
        join(
            Seq::new(
                input.len(),
                |i: int| digits((input[i] + seed[i % seed.len() as int]) as nat, 10),
            ),
            COMMA,
        )
    }
}

/// The pieces put one behind the other, if none of them is missing.
pub open spec fn collect(items: Seq<Option<Seq<u8>>>) -> Option<Seq<u8>>
    decreases items.len(),
{
    if items.len() == 0 {
        Some(seq![])
    } else {
        match (collect(items.drop_last()), items.last()) {
            (Some(head), Some(tail)) => Some(head + tail),
            _ => None,
        }
    }
}

/// What one part of a list of codes stands for: nothing if it is empty, the
/// byte that it denotes in the given radix, or a failure.
pub open spec fn code_of_part(part: Seq<u8>, radix: nat) -> Option<Seq<u8>> {
    if part.len() == 0 {
        Some(seq![])
    } else {
        match parse_unsigned(part, radix, 255) {
            Some(v) => Some(seq![v as u8]),
            None => None,
        }
    }
}

/// What one part of a list of shifted codes stands for: zero if it is empty;
/// otherwise the number that it denotes, less `key`, reduced to a byte; a
/// failure if it denotes no number below `65536` or one below `key`.
pub open spec fn shifted_code_of_part(part: Seq<u8>, key: u8) -> Option<Seq<u8>> {
    if part.len() == 0 {
        Some(seq![0u8])
    } else {
        match parse_unsigned(part, 10, 0xffff) {
            Some(v) => if v < key {
                None
            } else {
                Some(seq![((v - key) % 256) as u8])
            },
            None => None,
        }
    }
}

/// The bytes that a comma-separated list of codes in the given radix stands
/// for. Empty parts are passed over; any other part that is not a number
/// below `256` makes the whole list malformed.
pub open spec fn unrendered(input: Seq<u8>, radix: nat) -> Result<Seq<u8>, DarkstarError> {
    let parts = split(input, COMMA);
    match collect(Seq::new(parts.len(), |i: int| code_of_part(parts[i], radix))) {
        Some(bytes) => Ok(bytes),
        None => Err(DarkstarError::PipelineError),
    }
}

/// The bytes that a comma-separated list of shifted codes stands for; `input`
/// itself if the seed is empty, and no bytes if `input` is empty.
pub open spec fn unvigenere(input: Seq<u8>, seed: Seq<u8>) -> Result<Seq<u8>, DarkstarError> {
    if seed.len() == 0 {
        Ok(input)
    } else if input.len() == 0 {
        Ok(seq![])
    } else {
        let parts = split(input, COMMA);
        match collect(
            Seq::new(
                parts.len(),
                |i: int| shifted_code_of_part(parts[i], seed[i % seed.len() as int]),
            ),
        ) {
            Some(bytes) => Ok(bytes),
            None => Err(DarkstarError::PipelineError),
        }
    }
}

/// One missing piece makes the whole collection fail.
pub proof fn lemma_collect_none(items: Seq<Option<Seq<u8>>>, k: int)
    requires
        0 <= k < items.len(),
        items[k] is None,
    ensures
        collect(items) is None,
    decreases items.len(),
{
    if k < items.len() - 1 {
        lemma_collect_none(items.drop_last(), k);
    }
}

/// Pieces of one byte each collect to the sequence of those bytes.
pub proof fn lemma_collect_singletons(items: Seq<Option<Seq<u8>>>, bytes: Seq<u8>)
    requires
        items.len() == bytes.len(),
        forall|i: int| 0 <= i < items.len() ==> #[trigger] items[i] == Some(seq![bytes[i]]),
    ensures
        collect(items) == Some(bytes),
    decreases items.len(),
{
    if items.len() == 0 {
        assert(bytes =~= seq![]);
    } else {
        lemma_collect_singletons(items.drop_last(), bytes.drop_last());
        assert(items.last() == Some(seq![bytes[bytes.len() - 1]]));
        assert(bytes.drop_last() + seq![bytes[bytes.len() - 1]] =~= bytes);
    }
}

/// Reading a list of codes undoes writing it.
pub proof fn lemma_unrendered_rendered(input: Seq<u8>, radix: nat)
    requires
        2 <= radix <= 10,
    ensures
        unrendered(rendered(input, radix), radix) == Ok::<Seq<u8>, DarkstarError>(input),
{
    let written = Seq::new(input.len(), |i: int| digits(input[i] as nat, radix));
    let parts = split(rendered(input, radix), COMMA);
    let items = Seq::new(parts.len(), |i: int| code_of_part(parts[i], radix));
    if input.len() == 0 {
        assert(parts =~= seq![Seq::<u8>::empty()]);
        assert(items.drop_last() =~= Seq::<Option<Seq<u8>>>::empty());
        assert(collect(items.drop_last()) == Some(Seq::<u8>::empty()));
        assert(items.last() == Some(Seq::<u8>::empty()));
        assert(collect(items) == Some(Seq::<u8>::empty() + Seq::<u8>::empty()));
        assert(Seq::<u8>::empty() + Seq::<u8>::empty() =~= input);
    } else {
        assert(free_of(written, COMMA)) by {
            assert forall|i: int, j: int|
                0 <= i < written.len() && 0 <= j < written[i].len() implies #[trigger] written[i][j]
                != COMMA by {
                lemma_digits_free_of_comma(input[i] as nat, radix);
            }
        }
        lemma_split_join(written, COMMA);
        assert forall|i: int| 0 <= i < items.len() implies #[trigger] items[i] == Some(
            seq![input[i]],
        ) by {
            lemma_digits(input[i] as nat, radix);
            lemma_parse_digits(input[i] as nat, radix, 255);
        }
        lemma_collect_singletons(items, input);
    }
}

/// Reading a list of shifted codes undoes writing it.
pub proof fn lemma_unvigenere_vigenere(input: Seq<u8>, seed: Seq<u8>)
    ensures
        unvigenere(vigenere(input, seed), seed) == Ok::<Seq<u8>, DarkstarError>(input),
{
    if seed.len() == 0 {
    } else if input.len() == 0 {
        assert(vigenere(input, seed) =~= seq![]);
        assert(input =~= seq![]);
    } else {
        let len = seed.len() as int;
        let written = Seq::new(
            input.len(),
            |i: int| digits((input[i] + seed[i % len]) as nat, 10),
        );
        assert(free_of(written, COMMA)) by {
            assert forall|i: int, j: int|
                0 <= i < written.len() && 0 <= j < written[i].len() implies #[trigger] written[i][j]
                != COMMA by {
                lemma_digits_free_of_comma((input[i] + seed[i % len]) as nat, 10);
            }
        }
        lemma_split_join(written, COMMA);
        let text = vigenere(input, seed);
        lemma_digits((input[0] + seed[0int % len]) as nat, 10);
        assert(text.len() > 0) by {
            lemma_join_len(written, COMMA);
        }
        let parts = split(text, COMMA);
        let items = Seq::new(
            parts.len(),
            |i: int| shifted_code_of_part(parts[i], seed[i % len]),
        );
        assert forall|i: int| 0 <= i < items.len() implies #[trigger] items[i] == Some(
            seq![input[i]],
        ) by {
            let v = (input[i] + seed[i % len]) as nat;
            lemma_digits(v, 10);
            lemma_parse_digits(v, 10, 0xffff);
        }
        lemma_collect_singletons(items, input);
    }
}

/// A joined list is at least as long as its first part.
pub proof fn lemma_join_len(parts: Seq<Seq<u8>>, sep: u8)
    requires
        parts.len() >= 1,
    ensures
        join(parts, sep).len() >= parts[0].len(),
    decreases parts.len(),
{
    if parts.len() > 1 {
        lemma_join_len(parts.drop_last(), sep);
    }
}

/// Writes the bytes of `input` in the given radix, joined by commas.
fn render(input: &[u8], radix: u32) -> (out: Vec<u8>)
    requires
        2 <= radix <= 10,
    ensures
        out@ == rendered(input@, radix as nat),
{
    let ghost written = Seq::new(input@.len(), |i: int| digits(input@[i] as nat, radix as nat));
    let mut out: Vec<u8> = Vec::new();
    let mut i: usize = 0;
    while i < input.len()
        invariant
            i <= input.len(),
            2 <= radix <= 10,
            written == Seq::new(input@.len(), |i: int| digits(input@[i] as nat, radix as nat)),
            out@ == join(written.take(i as int), COMMA),
        decreases input.len() - i,
    {
        if i > 0 {
            out.push(COMMA);
        }
        push_digits(&mut out, input[i] as u32, radix);
        proof {
            assert(written.take(i + 1).drop_last() =~= written.take(i as int));
            assert(written.take(i + 1).last() == written[i as int]);
            if i == 0 {
                assert(Seq::<u8>::empty() + written[0] =~= written[0]);
            }
        }
        i = i + 1;
    }
    proof {
        assert(written.take(i as int) =~= written);
    }
    out
}

/// Reads a comma-separated list of codes in the given radix.
fn unrender(input: &[u8], radix: u32) -> (r: Result<Vec<u8>, DarkstarError>)
    requires
        2 <= radix <= 10,
    ensures
        bytes_result(r) == unrendered(input@, radix as nat),
{
    let parts = split_on(input, COMMA);
    let ghost cut = split(input@, COMMA);
    let ghost items = Seq::new(cut.len(), |i: int| code_of_part(cut[i], radix as nat));
    let mut out: Vec<u8> = Vec::new();
    let mut i: usize = 0;
    while i < parts.len()
        invariant
            i <= parts.len(),
            2 <= radix <= 10,
            cut == split(input@, COMMA),
            cut == byte_lists(parts@),
            items == Seq::new(cut.len(), |i: int| code_of_part(cut[i], radix as nat)),
            collect(items.take(i as int)) == Some(out@),
        decreases parts.len() - i,
    {
        let part = &parts[i];
        proof {
            assert(items.take(i + 1).drop_last() =~= items.take(i as int));
            assert(items.take(i + 1).last() == items[i as int]);
            assert(byte_lists(parts@)[i as int] == part@);
        }
        let ghost before = out@;
        if part.len() > 0 {
            match parse_number(part.as_slice(), radix, 255) {
                Some(v) => {
                    out.push(v as u8);
                    proof {
                        assert(before + seq![v as u8] =~= out@);
                    }
                },
                None => {
                    proof {
                        lemma_collect_none(items, i as int);
                    }
                    return Err(DarkstarError::PipelineError);
                },
            }
        } else {
            proof {
                assert(before + Seq::<u8>::empty() =~= out@);
            }
        }
        i = i + 1;
    }
    proof {
        assert(items.take(i as int) =~= items);
    }
    Ok(out)
}

impl DarkstarCrypt {
    /// Transform 2: each byte as a decimal number, the numbers joined by
    /// commas.
    pub fn obfuscate_to_char_codes_v2(input: &[u8], _seed: Option<&[u8]>, _is_v3: bool) -> (r:
        Result<Vec<u8>, DarkstarError>)
        ensures
            r matches Ok(out) && out@ == rendered(input@, 10),
    {
        Ok(render(input, 10))
    }

    /// The inverse of transform 2: the bytes that a list of decimal numbers
    /// stands for, or `PipelineError` for a malformed list.
    pub fn deobfuscate_from_char_codes_v2(input: &[u8], _seed: Option<&[u8]>, _is_v3: bool) -> (r:
        Result<Vec<u8>, DarkstarError>)
        ensures
            bytes_result(r) == unrendered(input@, 10),
    {
        unrender(input, 10)
    }

    /// Transform 3: each byte as a binary number without leading zeros, the
    /// numbers joined by commas.
    pub fn obfuscate_to_binary_v2(input: &[u8], _seed: Option<&[u8]>, _is_v3: bool) -> (r: Result<
        Vec<u8>,
        DarkstarError,
    >)
        ensures
            r matches Ok(out) && out@ == rendered(input@, 2),
    {
        Ok(render(input, 2))
    }

    /// The inverse of transform 3: the bytes that a list of binary numbers
    /// stands for, or `PipelineError` for a malformed list.
    pub fn deobfuscate_from_binary_v2(input: &[u8], _seed: Option<&[u8]>, _is_v3: bool) -> (r:
        Result<Vec<u8>, DarkstarError>)
        ensures
            bytes_result(r) == unrendered(input@, 2),
    {
        unrender(input, 2)
    }

    /// Transform 9: each byte, increased by the byte of the repeated seed at
    /// its position, as a decimal number, the numbers joined by commas. With
    /// an empty seed the input is returned as it is.
    pub fn obfuscate_with_vigenere_cipher_v2(input: &[u8], seed: Option<&[u8]>, _is_v3: bool) -> (r:
        Result<Vec<u8>, DarkstarError>)
        ensures
            r matches Ok(out) && out@ == vigenere(input@, seed_bytes(seed)),
    {
        let seed = seed_slice(seed);
        let mut out: Vec<u8> = Vec::new();
        if seed.len() == 0 {
            out.extend_from_slice(input);
            return Ok(out);
        }
        let ghost len = seed@.len() as int;
        let ghost written = Seq::new(
            input@.len(),
            |i: int| digits((input@[i] + seed@[i % len]) as nat, 10),
        );
        let mut i: usize = 0;
        while i < input.len()
            invariant
                i <= input.len(),
                len == seed@.len(),
                len > 0,
                written == Seq::new(
                    input@.len(),
                    |i: int| digits((input@[i] + seed@[i % len]) as nat, 10),
                ),
                out@ == join(written.take(i as int), COMMA),
            decreases input.len() - i,
        {
            if i > 0 {
                out.push(COMMA);
            }
            let key = seed[i % seed.len()];
            push_digits(&mut out, input[i] as u32 + key as u32, 10);
            proof {
                assert(written.take(i + 1).drop_last() =~= written.take(i as int));
                assert(written.take(i + 1).last() == written[i as int]);
                if i == 0 {
                    assert(Seq::<u8>::empty() + written[0] =~= written[0]);
                }
            }
            i = i + 1;
        }
        proof {
            assert(written.take(i as int) =~= written);
        }
        Ok(out)
    }

    /// The inverse of transform 9: the bytes that a list of shifted decimal
    /// numbers stands for. An empty part stands for the byte zero. A part
    /// that is no number below `65536`, or a number below the seed byte at its
    /// position, gives `PipelineError`. With an empty seed the input is
    /// returned as it is.
    pub fn deobfuscate_with_vigenere_cipher_v2(
        input: &[u8],
        seed: Option<&[u8]>,
        _is_v3: bool,
    ) -> (r: Result<Vec<u8>, DarkstarError>)
        ensures
            bytes_result(r) == unvigenere(input@, seed_bytes(seed)),
    {
        let keys = seed_slice(seed);
        let mut out: Vec<u8> = Vec::new();
        if keys.len() == 0 {
            out.extend_from_slice(input);
            proof {
                assert(out@ =~= input@);
            }
            return Ok(out);
        }
        if input.len() == 0 {
            return Ok(out);
        }
        let parts = split_on(input, COMMA);
        let ghost key_bytes = seed_bytes(seed);
        let ghost cut = split(input@, COMMA);
        let ghost items = Seq::new(
            cut.len(),
            |i: int| shifted_code_of_part(cut[i], key_bytes[i % key_bytes.len() as int]),
        );
        let mut i: usize = 0;
        while i < parts.len()
            invariant
                i <= parts.len(),
                keys@.len() > 0,
                input@.len() > 0,
                keys@ == key_bytes,
                key_bytes == seed_bytes(seed),
                cut == split(input@, COMMA),
                cut == byte_lists(parts@),
                items == Seq::new(
                    cut.len(),
                    |i: int| shifted_code_of_part(cut[i], key_bytes[i % key_bytes.len() as int]),
                ),
                collect(items.take(i as int)) == Some(out@),
            decreases parts.len() - i,
        {
            let part = &parts[i];
            let key = keys[i % keys.len()];
            proof {
                assert(items.take(i + 1).drop_last() =~= items.take(i as int));
                assert(items.take(i + 1).last() == items[i as int]);
                assert(byte_lists(parts@)[i as int] == part@);
            }
            let ghost before = out@;
            if part.len() == 0 {
                out.push(0);
                proof {
                    assert(before + seq![0u8] =~= out@);
                }
            } else {
                match parse_number(part.as_slice(), 10, 0xffff) {
                    Some(v) => {
                        if v < key as u32 {
                            proof {
                                lemma_collect_none(items, i as int);
                            }
                            return Err(DarkstarError::PipelineError);
                        }
                        let b = ((v - key as u32) % 256) as u8;
                        out.push(b);
                        proof {
                            assert(before + seq![b] =~= out@);
                        }
                    },
                    None => {
                        proof {
                            lemma_collect_none(items, i as int);
                        }
                        return Err(DarkstarError::PipelineError);
                    },
                }
            }
            i = i + 1;
        }
        proof {
            assert(items.take(i as int) =~= items);
        }
        Ok(out)
    }
}

} // verus!
