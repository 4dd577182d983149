//! The entry point of the library.

use crate::blob::{frame, frame_result, framed, unframe, unframed};
use crate::codec::{base64_bytes, base64_decode, base64_encode, base64_text, MAX_BYTES};
use crate::envelope::{
    cbc_opened, cbc_sealed, gcm_opened, gcm_sealed, random_bytes, text_result, ITERATIONS_V2,
};
use crate::error::DarkstarError;
use crate::json::{
    json_lists, json_pair_fields, json_pair_text, json_step_lists, json_tagged_fields,
    json_tagged_text, pair_view, read_pair, read_step_lists, read_tagged, write_pair,
    write_step_lists, write_tagged, CLOSE_BRACKET,
};
use crate::pipeline::{deobfuscated, obfuscated};
use crate::planner::{plan, plan_steps};
use crate::blob::{lemma_unframed_framed, words_fit};
use crate::pipeline::{lemma_obfuscated_succeeds, lemma_word_round_trip};
use crate::planner::lemma_plan_shape;
use crate::reverse_key::{
    lemma_packed_no_bracket, lemma_planned_packable, lemma_unpacked_packed, pack_result, packed,
    planned, step_lists, unpack_bytes, unpacked, valid_steps,
};
use crate::text::{lemma_join_split, lemma_split_valid};
use crate::text::{
    byte_lists, has_byte, has_char, holds_byte, holds_char, join, split, split_on, utf8_str,
    utf8_string,
};
use crate::transform::Transform;
use vstd::prelude::*;
use vstd::string::*;
use vstd::utf8::{encode_utf8, valid_utf8};

verus! {

/// The space that separates the words of a phrase.
pub const SPACE: u8 = 32;

/// The opening brace, without which a text holds no JSON object.
pub const OPEN_BRACE: char = '{';

/// The obfuscated words and the reverse key of a phrase.
pub struct Obfuscation {
    pub words: Seq<Seq<u8>>,
    pub key: Seq<Seq<usize>>,
}

/// The words, each passed through the step list planned for it, and the
/// step lists. The seed of a word's plan is the password followed by the
/// word. The first failure ends the work.
pub open spec fn obfuscate_words(words: Seq<Seq<u8>>, password: Seq<u8>, is_v3: bool) -> Result<
    Obfuscation,
    DarkstarError,
>
    decreases words.len(),
{
    if words.len() == 0 {
        Ok(Obfuscation { words: seq![], key: seq![] })
    } else {
        match obfuscate_words(words.drop_last(), password, is_v3) {
            Ok(done) => match plan(password + words.last(), is_v3) {
                Ok(steps) => match obfuscated(words.last(), steps, password, is_v3) {
                    Ok(bytes) => Ok(
                        Obfuscation { words: done.words.push(bytes), key: done.key.push(steps) },
                    ),
                    Err(e) => Err(e),
                },
                Err(e) => Err(e),
            },
            Err(e) => Err(e),
        }
    }
}

/// The sealed envelope of the blob of the obfuscated words: the blob in
/// base64, sealed in GCM mode with the first twelve bytes of `iv` for the
/// third version, in CBC mode with `iv` otherwise.
pub open spec fn sealed_blob(
    words: Seq<Seq<u8>>,
    password: Seq<u8>,
    is_v3: bool,
    salt: Seq<u8>,
    iv: Seq<u8>,
) -> Result<Seq<char>, DarkstarError> {
    match frame_result(words) {
        Ok(blob) => {
            let content = encode_utf8(base64_text(blob));
            if is_v3 {
                gcm_sealed(content, password, ITERATIONS_V2, salt, iv.take(12))
            } else {
                cbc_sealed(content, password, ITERATIONS_V2, salt, iv)
            }
        },
        Err(e) => Err(e),
    }
}

/// The text of a reverse key in its legacy form: the JSON array in base64.
/// `InvalidReverseKey` if the array has more than 2^30 bytes.
pub open spec fn legacy_key_text(key: Seq<Seq<usize>>) -> Result<Seq<char>, DarkstarError> {
    if json_lists(key).len() <= MAX_BYTES {
        Ok(base64_text(json_lists(key)))
    } else {
        Err(DarkstarError::InvalidReverseKey)
    }
}

/// The text of the reverse key: in legacy form with `force_v1`, packed
/// otherwise.
pub open spec fn key_text_of(key: Seq<Seq<usize>>, force_v1: bool, is_v3: bool) -> Result<
    Seq<char>,
    DarkstarError,
> {
    if force_v1 {
        legacy_key_text(key)
    } else {
        pack_result(key, is_v3)
    }
}

/// The encrypted data: the bare envelope with `force_v1`; otherwise a JSON
/// object that holds the version, 3 or 2, under `v` and the envelope under
/// `data`.
pub open spec fn data_text_of(envelope: Seq<char>, force_v1: bool, is_v3: bool) -> Seq<char> {
    if force_v1 {
        envelope
    } else {
        json_tagged_text(
            "v"@,
            if is_v3 {
                3u8
            } else {
                2u8
            },
            "data"@,
            envelope,
        )
    }
}

/// The two texts that encryption yields: the encrypted data and the reverse
/// key. The version is the first with `force_v1`, else the second with
/// `force_v2`, else the third.
pub open spec fn sealed_parts(
    mnemonic: Seq<u8>,
    password: Seq<u8>,
    force_v2: bool,
    force_v1: bool,
    salt: Seq<u8>,
    iv: Seq<u8>,
) -> Result<(Seq<char>, Seq<char>), DarkstarError> {
    let is_v3 = !force_v2 && !force_v1;
    match obfuscate_words(split(mnemonic, SPACE), password, is_v3) {
        Ok(done) => match sealed_blob(done.words, password, is_v3, salt, iv) {
            Ok(envelope) => match key_text_of(done.key, force_v1, is_v3) {
                Ok(key_text) => Ok((data_text_of(envelope, force_v1, is_v3), key_text)),
                Err(e) => Err(e),
            },
            Err(e) => Err(e),
        },
        Err(e) => Err(e),
    }
}

/// The JSON text that encryption yields: an object with the encrypted data
/// under `encryptedData` and the reverse key under `reverseKey`.
pub open spec fn sealed_json(
    mnemonic: Seq<u8>,
    password: Seq<u8>,
    force_v2: bool,
    force_v1: bool,
    salt: Seq<u8>,
    iv: Seq<u8>,
) -> Result<Seq<char>, DarkstarError> {
    match sealed_parts(mnemonic, password, force_v2, force_v1, salt, iv) {
        Ok((data, key)) => Ok(json_pair_text("encryptedData"@, data, "reverseKey"@, key)),
        Err(e) => Err(e),
    }
}

/// The version and the envelope of encrypted data: whether the version is
/// the third, and the envelope. Data without an opening brace, data that is
/// not JSON, and JSON without an integer under `v` are a bare envelope of
/// the first version. `VersionMismatch` for a version other than 2 and 3,
/// `InvalidFormat` if there is no text under `data`.
pub open spec fn detected(raw: Seq<char>) -> Result<(bool, Seq<char>), DarkstarError> {
    if !has_char(raw, OPEN_BRACE) {
        Ok((false, raw))
    } else {
        match json_tagged_fields(raw, "v"@, "data"@) {
            Some((Some(version), data)) => {
                if version == 2 || version == 3 {
                    match data {
                        Some(envelope) => Ok((version == 3, envelope)),
                        None => Err(DarkstarError::InvalidFormat),
                    }
                } else {
                    Err(DarkstarError::VersionMismatch)
                }
            },
            _ => Ok((false, raw)),
        }
    }
}

/// Whether every step of every list is the index of a transform.
pub open spec fn valid_key(key: Seq<Seq<usize>>) -> bool {
    forall|i: int| 0 <= i < key.len() ==> valid_steps(#[trigger] key[i])
}

/// The reverse key that a text stands for. Bytes that hold a closing
/// bracket and are a JSON array of arrays are a legacy key; all others are
/// a packed key, of the third version if `is_v3`. `InvalidFormat` if the
/// text is not base64, `InvalidReverseKey` if the bytes are no key or a
/// step is not the index of a transform.
pub open spec fn read_key(text: Seq<u8>, is_v3: bool) -> Result<Seq<Seq<usize>>, DarkstarError> {
    match base64_bytes(text) {
        Some(bytes) => {
            let legacy = if has_byte(bytes, CLOSE_BRACKET) {
                json_step_lists(bytes)
            } else {
                None
            };
            match legacy {
                Some(key) => if valid_key(key) {
                    Ok(key)
                } else {
                    Err(DarkstarError::InvalidReverseKey)
                },
                None => match unpacked(bytes, is_v3) {
                    Some(key) => Ok(key),
                    None => Err(DarkstarError::InvalidReverseKey),
                },
            }
        },
        None => Err(DarkstarError::InvalidFormat),
    }
}

/// The words that the records stand for, each passed back through the step
/// list at its place in the key. `InvalidFormat` for a word that is not
/// UTF-8. The first failure ends the work.
pub open spec fn recover_words(
    records: Seq<Seq<u8>>,
    key: Seq<Seq<usize>>,
    password: Seq<u8>,
    is_v3: bool,
) -> Result<Seq<Seq<u8>>, DarkstarError>
    decreases records.len(),
{
    if records.len() == 0 {
        Ok(seq![])
    } else {
        match recover_words(records.drop_last(), key, password, is_v3) {
            Ok(done) => match deobfuscated(
                records.last(),
                key[records.len() - 1],
                password,
                is_v3,
            ) {
                Ok(word) => if valid_utf8(word) {
                    Ok(done.push(word))
                } else {
                    Err(DarkstarError::InvalidFormat)
                },
                Err(e) => Err(e),
            },
            Err(e) => Err(e),
        }
    }
}

/// What the envelope of a version holds.
pub open spec fn opened_content(envelope: Seq<u8>, password: Seq<u8>, is_v3: bool) -> Result<
    Seq<u8>,
    DarkstarError,
> {
    if is_v3 {
        gcm_opened(envelope, password, ITERATIONS_V2)
    } else {
        cbc_opened(envelope, password, ITERATIONS_V2)
    }
}

/// The recovered words of the records, joined by spaces.
pub open spec fn recovered_phrase(
    records: Seq<Seq<u8>>,
    key: Seq<Seq<usize>>,
    password: Seq<u8>,
    is_v3: bool,
) -> Result<Seq<u8>, DarkstarError> {
    match recover_words(records, key, password, is_v3) {
        Ok(words) => Ok(join(words, SPACE)),
        Err(e) => Err(e),
    }
}

/// The bytes of the phrase that the sealed envelope and the key hold: the
/// envelope is opened, its content read as base64, the blob taken apart
/// into at most as many records as the key has lists, and the recovered
/// words joined by spaces.
pub open spec fn opened_phrase(
    envelope: Seq<u8>,
    key: Seq<Seq<usize>>,
    password: Seq<u8>,
    is_v3: bool,
) -> Result<Seq<u8>, DarkstarError> {
    match opened_content(envelope, password, is_v3) {
        Ok(content) => match base64_bytes(content) {
            Some(blob) => recovered_phrase(unframed(blob, key.len()), key, password, is_v3),
            None => Err(DarkstarError::InvalidFormat),
        },
        Err(e) => Err(e),
    }
}

/// The bytes of the phrase that decryption yields.
pub open spec fn decrypted(encrypted_data: Seq<char>, reverse_key: Seq<u8>, password: Seq<u8>) -> Result<
    Seq<u8>,
    DarkstarError,
> {
    match detected(encrypted_data) {
        Ok((is_v3, envelope)) => match read_key(reverse_key, is_v3) {
            Ok(key) => opened_phrase(encode_utf8(envelope), key, password, is_v3),
            Err(e) => Err(e),
        },
        Err(e) => Err(e),
    }
}

/// Whether the JSON text of a result holds encrypted data and a reverse key
/// that decrypt to `phrase` under `password`.
pub open spec fn opens_to(json: Seq<char>, password: Seq<u8>, phrase: Seq<u8>) -> bool {
    json_pair_fields(json, "encryptedData"@, "reverseKey"@) matches Some((data, key)) && decrypted(
        data,
        encode_utf8(key),
        password,
    ) == Ok::<Seq<u8>, DarkstarError>(phrase)
}

/// What checking the round trip of an encryption yields: the failure of the
/// encryption, or `true`, since what was encrypted always decrypts to the
/// phrase.
pub open spec fn round_trip_outcome(sealed: Result<Seq<char>, DarkstarError>) -> Result<
    bool,
    DarkstarError,
> {
    match sealed {
        Ok(_) => Ok(true),
        Err(e) => Err(e),
    }
}

/// The outcome of an encryption in two parts, with the parts as sequences
/// of characters.
pub open spec fn parts_result(r: Result<(String, String), DarkstarError>) -> Result<
    (Seq<char>, Seq<char>),
    DarkstarError,
> {
    match r {
        Ok((data, key)) => Ok((data@, key@)),
        Err(e) => Err(e),
    }
}

/// The outcome of a decryption, with the phrase as its bytes.
pub open spec fn phrase_result(r: Result<String, DarkstarError>) -> Result<Seq<u8>, DarkstarError> {
    match r {
        Ok(phrase) => Ok(encode_utf8(phrase@)),
        Err(e) => Err(e),
    }
}

/// Encrypts and decrypts mnemonic phrases. It holds the table of the twelve
/// transforms in their fixed order; a position in the table is what a reverse
/// key records.
pub struct DarkstarCrypt {
    transforms: Vec<Transform>,
}

impl DarkstarCrypt {
    #[verifier::type_invariant]
    spec fn table_is_fixed(self) -> bool {
        self.transforms@ == Transform::table()
    }

    /// The table of transforms that this value holds.
    pub closed spec fn table(self) -> Seq<Transform> {
        self.transforms@
    }

    /// A value whose table lists the twelve transforms in their fixed order.
    pub fn new() -> (crypt: DarkstarCrypt)
        ensures
            crypt.table() == Transform::table(),
    {
        let mut transforms: Vec<Transform> = Vec::new();
        transforms.push(Transform::Reverse);
        transforms.push(Transform::Atbash);
        transforms.push(Transform::CharCodes);
        transforms.push(Transform::Binary);
        transforms.push(Transform::Caesar);
        transforms.push(Transform::SwapAdjacent);
        transforms.push(Transform::Shuffle);
        transforms.push(Transform::Xor);
        transforms.push(Transform::Interleave);
        transforms.push(Transform::Vigenere);
        transforms.push(Transform::BlockReversal);
        transforms.push(Transform::Substitution);
        proof {
            assert(transforms@ =~= Transform::table());
        }
        DarkstarCrypt { transforms }
    }

    /// The transform at `index` of the table, if there is one.
    pub fn transform_at(&self, index: usize) -> (t: Option<Transform>)
        ensures
            t == Transform::at(index as int),
    {
        proof {
            use_type_invariant(self);
        }
        if index < self.transforms.len() {
            Some(self.transforms[index])
        } else {
            None
        }
    }
}

/// A failure on the first words is the failure of the whole phrase.
pub proof fn lemma_obfuscate_words_fails(
    words: Seq<Seq<u8>>,
    password: Seq<u8>,
    is_v3: bool,
    k: int,
)
    requires
        0 <= k <= words.len(),
        obfuscate_words(words.take(k), password, is_v3) is Err,
    ensures
        obfuscate_words(words, password, is_v3) == obfuscate_words(
            words.take(k),
            password,
            is_v3,
        ),
    decreases words.len(),
{
    if k == words.len() {
        assert(words.take(k) =~= words);
    } else {
        assert(words.drop_last().take(k) =~= words.take(k));
        lemma_obfuscate_words_fails(words.drop_last(), password, is_v3, k);
    }
}

/// What holds of the obfuscation of a phrase: there are as many obfuscated
/// words and step lists as words; each list is the plan for its word, seeded
/// with the password followed by the word; each obfuscated word is what its
/// word becomes under its list; and the lists are planned lists.
pub proof fn lemma_obfuscate_words_shape(words: Seq<Seq<u8>>, password: Seq<u8>, is_v3: bool)
    ensures
        obfuscate_words(words, password, is_v3) matches Ok(done) ==> {
            &&& done.words.len() == words.len()
            &&& done.key.len() == words.len()
            &&& planned(done.key, is_v3)
            &&& forall|i: int|
                0 <= i < words.len() ==> {
                    &&& plan(password + #[trigger] words[i], is_v3) == Ok::<
                        Seq<usize>,
                        DarkstarError,
                    >(done.key[i])
                    &&& obfuscated(words[i], done.key[i], password, is_v3) == Ok::<
                        Seq<u8>,
                        DarkstarError,
                    >(done.words[i])
                }
        },
    decreases words.len(),
{
    if words.len() > 0 {
        let front = words.drop_last();
        lemma_obfuscate_words_shape(front, password, is_v3);
        if let Ok(done) = obfuscate_words(words, password, is_v3) {
            let prev = obfuscate_words(front, password, is_v3).unwrap();
            let steps = plan(password + words.last(), is_v3).unwrap();
            lemma_plan_shape(password + words.last(), is_v3);
            assert forall|i: int| 0 <= i < words.len() implies {
                &&& plan(password + #[trigger] words[i], is_v3) == Ok::<Seq<usize>, DarkstarError>(
                    done.key[i],
                )
                &&& obfuscated(words[i], done.key[i], password, is_v3) == Ok::<
                    Seq<u8>,
                    DarkstarError,
                >(done.words[i])
            } by {
                if i < front.len() {
                    assert(front[i] == words[i]);
                    assert(done.key[i] == prev.key[i]);
                    assert(done.words[i] == prev.words[i]);
                }
            }
            assert forall|i: int| 0 <= i < done.key.len() implies {
                &&& valid_steps(#[trigger] done.key[i])
                &&& 12 <= done.key[i].len() <= 64
                &&& (!is_v3 ==> done.key[i].len() == 12)
            } by {
                if i < front.len() {
                    assert(done.key[i] == prev.key[i]);
                } else {
                    assert(done.key[i] == steps);
                }
            }
        }
    }
}

/// The obfuscation of a phrase does not fail: for every phrase and every
/// password that are text, each word is planned and obfuscated.
pub proof fn lemma_obfuscation_succeeds(mnemonic: Seq<char>, password: Seq<char>, is_v3: bool)
    ensures
        obfuscate_words(split(encode_utf8(mnemonic), SPACE), encode_utf8(password), is_v3) is Ok,
{
    vstd::utf8::encode_utf8_valid_utf8(mnemonic);
    vstd::utf8::encode_utf8_valid_utf8(password);
    lemma_split_valid(encode_utf8(mnemonic), SPACE);
    lemma_obfuscate_valid_words(split(encode_utf8(mnemonic), SPACE), encode_utf8(password), is_v3);
}

/// The obfuscation of words that are UTF-8 under a password that is UTF-8
/// does not fail.
pub proof fn lemma_obfuscate_valid_words(words: Seq<Seq<u8>>, password: Seq<u8>, is_v3: bool)
    requires
        valid_utf8(password),
        forall|i: int| 0 <= i < words.len() ==> valid_utf8(#[trigger] words[i]),
    ensures
        obfuscate_words(words, password, is_v3) is Ok,
    decreases words.len(),
{
    if words.len() > 0 {
        let front = words.drop_last();
        assert forall|i: int| 0 <= i < front.len() implies valid_utf8(#[trigger] front[i]) by {
            assert(front[i] == words[i]);
        }
        lemma_obfuscate_valid_words(front, password, is_v3);
        assert(valid_utf8(words[words.len() - 1]));
        vstd::utf8::valid_utf8_concat(password, words.last());
        lemma_plan_shape(password + words.last(), is_v3);
        let steps = plan(password + words.last(), is_v3).unwrap();
        lemma_obfuscated_succeeds(words.last(), steps, password, is_v3);
    }
}

/// Only the step lists at the places of the records count.
pub proof fn lemma_recover_words_key(
    records: Seq<Seq<u8>>,
    key_a: Seq<Seq<usize>>,
    key_b: Seq<Seq<usize>>,
    password: Seq<u8>,
    is_v3: bool,
)
    requires
        forall|i: int| 0 <= i < records.len() ==> key_a[i] == key_b[i],
    ensures
        recover_words(records, key_a, password, is_v3) == recover_words(
            records,
            key_b,
            password,
            is_v3,
        ),
    decreases records.len(),
{
    if records.len() > 0 {
        lemma_recover_words_key(records.drop_last(), key_a, key_b, password, is_v3);
    }
}

/// The words of a phrase are recovered from their obfuscation: if the words
/// are UTF-8 and their obfuscation succeeds, then passing the obfuscated
/// words back through the step lists gives the words.
pub proof fn lemma_recover_obfuscated(words: Seq<Seq<u8>>, password: Seq<u8>, is_v3: bool)
    requires
        forall|i: int| 0 <= i < words.len() ==> valid_utf8(#[trigger] words[i]),
    ensures
        obfuscate_words(words, password, is_v3) matches Ok(done) ==> recover_words(
            done.words,
            done.key,
            password,
            is_v3,
        ) == Ok::<Seq<Seq<u8>>, DarkstarError>(words),
    decreases words.len(),
{
    if let Ok(done) = obfuscate_words(words, password, is_v3) {
        if words.len() == 0 {
            assert(words =~= Seq::<Seq<u8>>::empty());
        } else {
            let front = words.drop_last();
            assert forall|i: int| 0 <= i < front.len() implies valid_utf8(#[trigger] front[i]) by {
                assert(front[i] == words[i]);
            }
            lemma_recover_obfuscated(front, password, is_v3);
            lemma_obfuscate_words_shape(front, password, is_v3);
            let prev = obfuscate_words(front, password, is_v3).unwrap();
            let steps = plan(password + words.last(), is_v3).unwrap();
            assert(done.words.drop_last() =~= prev.words);
            assert forall|i: int| 0 <= i < prev.words.len() implies done.key[i] == prev.key[i] by {}
            lemma_recover_words_key(prev.words, done.key, prev.key, password, is_v3);
            assert(done.key[done.words.len() - 1] == steps);
            lemma_word_round_trip(words.last(), steps, password, is_v3);
            assert(valid_utf8(words[words.len() - 1]));
            assert(front.push(words.last()) =~= words);
        }
    }
}

/// An envelope that holds the blob of the obfuscated words of a phrase opens
/// to the phrase under the step lists of the obfuscation.
pub proof fn lemma_phrase_opens(
    mnemonic: Seq<char>,
    password: Seq<u8>,
    is_v3: bool,
    envelope: Seq<u8>,
)
    ensures
        obfuscate_words(split(encode_utf8(mnemonic), SPACE), password, is_v3) matches Ok(done) ==> (
        frame_result(done.words) is Ok && (opened_content(envelope, password, is_v3) matches Ok(
            content,
        ) && base64_bytes(content) == Some(framed(done.words))) ==> opened_phrase(
            envelope,
            done.key,
            password,
            is_v3,
        ) == Ok::<Seq<u8>, DarkstarError>(encode_utf8(mnemonic))),
{
    let phrase = encode_utf8(mnemonic);
    let words = split(phrase, SPACE);
    vstd::utf8::encode_utf8_valid_utf8(mnemonic);
    lemma_split_valid(phrase, SPACE);
    lemma_obfuscate_words_shape(words, password, is_v3);
    lemma_recover_obfuscated(words, password, is_v3);
    lemma_join_split(phrase, SPACE);
    if let Ok(done) = obfuscate_words(words, password, is_v3) {
        if frame_result(done.words) is Ok {
            lemma_unframed_framed(done.words);
        }
    }
}

/// A failure on the first records is the failure of the whole blob.
pub proof fn lemma_recover_words_fails(
    records: Seq<Seq<u8>>,
    key: Seq<Seq<usize>>,
    password: Seq<u8>,
    is_v3: bool,
    k: int,
)
    requires
        0 <= k <= records.len(),
        recover_words(records.take(k), key, password, is_v3) is Err,
    ensures
        recover_words(records, key, password, is_v3) == recover_words(
            records.take(k),
            key,
            password,
            is_v3,
        ),
    decreases records.len(),
{
    if k == records.len() {
        assert(records.take(k) =~= records);
    } else {
        assert(records.drop_last().take(k) =~= records.take(k));
        lemma_recover_words_fails(records.drop_last(), key, password, is_v3, k);
    }
}

/// Reading never yields more records than it was allowed.
pub proof fn lemma_unframed_len(blob: Seq<u8>, limit: nat)
    ensures
        unframed(blob, limit).len() <= limit,
    decreases limit,
{
    if limit == 0 || blob.len() < 2 {
    } else {
        let len = blob[0] as int * 256 + blob[1] as int;
        if blob.len() >= 2 + len {
            lemma_unframed_len(blob.subrange(2 + len, blob.len() as int), (limit - 1) as nat);
        }
    }
}

/// Words of UTF-8, joined by spaces, are UTF-8.
pub proof fn lemma_joined_words_valid(words: Seq<Seq<u8>>)
    requires
        forall|i: int| 0 <= i < words.len() ==> valid_utf8(#[trigger] words[i]),
    ensures
        valid_utf8(join(words, SPACE)),
    decreases words.len(),
{
    if words.len() == 0 {
    } else if words.len() == 1 {
        assert(valid_utf8(words[0]));
    } else {
        let front = words.drop_last();
        assert forall|i: int| 0 <= i < front.len() implies valid_utf8(#[trigger] front[i]) by {
            assert(front[i] == words[i]);
        }
        lemma_joined_words_valid(front);
        let space = seq![' '];
        assert(vstd::utf8::is_ascii_chars(space));
        vstd::utf8::is_ascii_chars_encode_utf8(space);
        vstd::utf8::encode_utf8_valid_utf8(space);
        assert(encode_utf8(space) =~= seq![SPACE]);
        vstd::utf8::valid_utf8_concat(join(front, SPACE), seq![SPACE]);
        assert(join(front, SPACE) + seq![SPACE] =~= join(front, SPACE).push(SPACE));
        assert(valid_utf8(words[words.len() - 1]));
        vstd::utf8::valid_utf8_concat(join(front, SPACE).push(SPACE), words.last());
    }
}

impl DarkstarCrypt {
    /// Plans and applies the steps of every word.
    pub fn obfuscate_phrase(&self, words: &Vec<Vec<u8>>, password: &[u8], is_v3: bool) -> (r:
        Result<(Vec<Vec<u8>>, Vec<Vec<usize>>), DarkstarError>)
        ensures
            match r {
                Ok((done, key)) => obfuscate_words(byte_lists(words@), password@, is_v3) == Ok::<
                    Obfuscation,
                    DarkstarError,
                >(Obfuscation { words: byte_lists(done@), key: step_lists(key@) }),
                Err(e) => obfuscate_words(byte_lists(words@), password@, is_v3) == Err::<
                    Obfuscation,
                    DarkstarError,
                >(e),
            },
    {
        let ghost all = byte_lists(words@);
        let mut done: Vec<Vec<u8>> = Vec::new();
        let mut key: Vec<Vec<usize>> = Vec::new();
        let mut i: usize = 0;
        proof {
            assert(byte_lists(done@) =~= Seq::<Seq<u8>>::empty());
            assert(step_lists(key@) =~= Seq::<Seq<usize>>::empty());
            assert(all.take(0) =~= Seq::<Seq<u8>>::empty());
        }
        while i < words.len()
            invariant
                i <= words.len(),
                all == byte_lists(words@),
                obfuscate_words(all.take(i as int), password@, is_v3) == Ok::<
                    Obfuscation,
                    DarkstarError,
                >(Obfuscation { words: byte_lists(done@), key: step_lists(key@) }),
            decreases words.len() - i,
        {
            let word = &words[i];
            let ghost done_before = byte_lists(done@);
            let ghost key_before = step_lists(key@);
            proof {
                assert(all.take(i + 1).drop_last() =~= all.take(i as int));
                assert(all.take(i + 1).last() == word@);
            }
            let mut seed: Vec<u8> = Vec::new();
            seed.extend_from_slice(password);
            seed.extend_from_slice(word.as_slice());
            proof {
                assert(seed@ =~= password@ + word@);
            }
            let steps = match plan_steps(seed.as_slice(), is_v3) {
                Ok(steps) => steps,
                Err(e) => {
                    proof {
                        lemma_obfuscate_words_fails(all, password@, is_v3, i + 1);
                    }
                    return Err(e);
                },
            };
            let bytes = match self.obfuscate_word(
                word.as_slice(),
                steps.as_slice(),
                password,
                is_v3,
            ) {
                Ok(bytes) => bytes,
                Err(e) => {
                    proof {
                        lemma_obfuscate_words_fails(all, password@, is_v3, i + 1);
                    }
                    return Err(e);
                },
            };
            let ghost bytes_view = bytes@;
            let ghost steps_view = steps@;
            done.push(bytes);
            key.push(steps);
            proof {
                assert(byte_lists(done@) =~= done_before.push(bytes_view));
                assert(step_lists(key@) =~= key_before.push(steps_view));
            }
            i = i + 1;
        }
        proof {
            assert(all.take(i as int) =~= all);
        }
        Ok((done, key))
    }

    /// Frames the obfuscated words and seals the blob.
    pub fn seal_blob(
        words: &Vec<Vec<u8>>,
        password: &[u8],
        is_v3: bool,
        salt: &[u8; 16],
        iv: &[u8; 16],
    ) -> (r: Result<String, DarkstarError>)
        ensures
            text_result(r) == sealed_blob(byte_lists(words@), password@, is_v3, salt@, iv@),
            r matches Ok(envelope) ==> {
                &&& !has_char(envelope@, OPEN_BRACE)
                &&& frame_result(byte_lists(words@)) is Ok
                &&& opened_content(encode_utf8(envelope@), password@, is_v3) matches Ok(content)
                    && base64_bytes(content) == Some(framed(byte_lists(words@)))
            },
    {
        let blob = match frame(words) {
            Ok(blob) => blob,
            Err(e) => {
                return Err(e);
            },
        };
        let content = base64_encode(blob.as_slice());
        if is_v3 {
            let mut nonce = [0u8;12];
            let mut i: usize = 0;
            while i < 12
                invariant
                    i <= 12,
                    forall|k: int| 0 <= k < i ==> nonce@[k] == iv@[k],
                decreases 12 - i,
            {
                nonce[i] = iv[i];
                i = i + 1;
            }
            proof {
                assert(nonce@ =~= iv@.take(12));
            }
            Self::encrypt_aes256_gcm_with(
                content.as_str().as_bytes(),
                password,
                ITERATIONS_V2,
                salt,
                &nonce,
            )
        } else {
            Self::encrypt_aes256_with(
                content.as_str().as_bytes(),
                password,
                ITERATIONS_V2,
                salt,
                iv,
            )
        }
    }

    /// Encrypts a phrase under the given salt and initialisation vector and
    /// returns the encrypted data and the reverse key.
    pub fn encrypt_parts_with(
        &self,
        mnemonic: &str,
        password: &str,
        force_v2: bool,
        force_v1: bool,
        salt: &[u8; 16],
        iv: &[u8; 16],
    ) -> (r: Result<(String, String), DarkstarError>)
        ensures
            parts_result(r) == sealed_parts(
                mnemonic.spec_bytes(),
                password.spec_bytes(),
                force_v2,
                force_v1,
                salt@,
                iv@,
            ),
            r matches Ok((data, key)) ==> decrypted(
                data@,
                encode_utf8(key@),
                password.spec_bytes(),
            ) == Ok::<Seq<u8>, DarkstarError>(mnemonic.spec_bytes()),
    {
        let is_v3 = !force_v2 && !force_v1;
        let (envelope, key) = match self.seal_phrase(mnemonic, password, is_v3, salt, iv) {
            Ok(pair) => pair,
            Err(e) => {
                return Err(e);
            },
        };
        let key_text = match Self::key_text(&key, force_v1, is_v3) {
            Ok(text) => text,
            Err(e) => {
                return Err(e);
            },
        };
        Ok((Self::data_text(envelope, force_v1, is_v3), key_text))
    }

    /// Obfuscates the words of a phrase and seals their blob: the envelope
    /// and the reverse key. The envelope opens to the phrase under the key.
    pub fn seal_phrase(
        &self,
        mnemonic: &str,
        password: &str,
        is_v3: bool,
        salt: &[u8; 16],
        iv: &[u8; 16],
    ) -> (r: Result<(String, Vec<Vec<usize>>), DarkstarError>)
        ensures
            match r {
                Ok((envelope, key)) => {
                    &&& obfuscate_words(
                        split(mnemonic.spec_bytes(), SPACE),
                        password.spec_bytes(),
                        is_v3,
                    ) matches Ok(done) && done.key == step_lists(key@) && sealed_blob(
                        done.words,
                        password.spec_bytes(),
                        is_v3,
                        salt@,
                        iv@,
                    ) == Ok::<Seq<char>, DarkstarError>(envelope@)
                    &&& !has_char(envelope@, OPEN_BRACE)
                    &&& planned(step_lists(key@), is_v3)
                    &&& opened_phrase(
                        encode_utf8(envelope@),
                        step_lists(key@),
                        password.spec_bytes(),
                        is_v3,
                    ) == Ok::<Seq<u8>, DarkstarError>(mnemonic.spec_bytes())
                },
                Err(e) => match obfuscate_words(
                    split(mnemonic.spec_bytes(), SPACE),
                    password.spec_bytes(),
                    is_v3,
                ) {
                    Ok(done) => sealed_blob(done.words, password.spec_bytes(), is_v3, salt@, iv@)
                        == Err::<Seq<char>, DarkstarError>(e),
                    Err(first) => first == e,
                },
            },
    {
        let password_bytes = password.as_bytes();
        let words = split_on(mnemonic.as_bytes(), SPACE);
        let (done, key) = match self.obfuscate_phrase(&words, password_bytes, is_v3) {
            Ok(pair) => pair,
            Err(e) => {
                return Err(e);
            },
        };
        let envelope = match Self::seal_blob(&done, password_bytes, is_v3, salt, iv) {
            Ok(envelope) => envelope,
            Err(e) => {
                return Err(e);
            },
        };
        proof {
            lemma_obfuscate_words_shape(
                split(mnemonic.spec_bytes(), SPACE),
                password.spec_bytes(),
                is_v3,
            );
            lemma_phrase_opens(mnemonic@, password.spec_bytes(), is_v3, encode_utf8(envelope@));
        }
        Ok((envelope, key))
    }

    /// The text of a reverse key: in legacy form with `force_v1`, packed
    /// otherwise.
    pub fn key_text(key: &Vec<Vec<usize>>, force_v1: bool, is_v3: bool) -> (r: Result<
        String,
        DarkstarError,
    >)
        ensures
            text_result(r) == key_text_of(step_lists(key@), force_v1, is_v3),
            r matches Ok(text) ==> planned(step_lists(key@), is_v3) ==> read_key(
                encode_utf8(text@),
                is_v3,
            ) == Ok::<Seq<Seq<usize>>, DarkstarError>(step_lists(key@)),
    {
        let ghost lists = step_lists(key@);
        if force_v1 {
            let legacy = write_step_lists(key);
            if legacy.len() > MAX_BYTES {
                return Err(DarkstarError::InvalidReverseKey);
            }
            proof {
                assert(legacy@.last() == CLOSE_BRACKET);
                assert(has_byte(legacy@, CLOSE_BRACKET));
                if planned(lists, is_v3) {
                    assert(valid_key(lists));
                }
            }
            Ok(base64_encode(legacy.as_slice()))
        } else {
            proof {
                if planned(lists, is_v3) {
                    lemma_packed_no_bracket(lists, is_v3);
                    lemma_planned_packable(lists, is_v3);
                    lemma_unpacked_packed(lists, is_v3);
                    assert(!has_byte(packed(lists, is_v3), CLOSE_BRACKET));
                }
            }
            Self::pack_reverse_key(key, is_v3)
        }
    }

    /// The encrypted data that carries an envelope: the envelope itself with
    /// `force_v1`, otherwise tagged with the version.
    pub fn data_text(envelope: String, force_v1: bool, is_v3: bool) -> (data: String)
        ensures
            data@ == data_text_of(envelope@, force_v1, is_v3),
            !has_char(envelope@, OPEN_BRACE) && (force_v1 ==> !is_v3) ==> detected(data@) == Ok::<
                (bool, Seq<char>),
                DarkstarError,
            >((is_v3, envelope@)),
    {
        if force_v1 {
            envelope
        } else {
            proof {
                reveal_strlit("v");
                reveal_strlit("data");
                assert("v"@.len() != "data"@.len());
            }
            let version: u8 = if is_v3 {
                3
            } else {
                2
            };
            let data = write_tagged("v", version, "data", envelope.as_str());
            proof {
                assert(data@[0] == OPEN_BRACE);
                assert(has_char(data@, OPEN_BRACE));
            }
            data
        }
    }

    /// Encrypts a phrase under the given salt and initialisation vector and
    /// returns the JSON text of the result.
    pub fn encrypt_with(
        &self,
        mnemonic: &str,
        password: &str,
        force_v2: bool,
        force_v1: bool,
        salt: &[u8; 16],
        iv: &[u8; 16],
    ) -> (r: Result<String, DarkstarError>)
        ensures
            text_result(r) == sealed_json(
                mnemonic.spec_bytes(),
                password.spec_bytes(),
                force_v2,
                force_v1,
                salt@,
                iv@,
            ),
            r matches Ok(json) ==> opens_to(json@, password.spec_bytes(), mnemonic.spec_bytes()),
    {
        match self.encrypt_parts_with(mnemonic, password, force_v2, force_v1, salt, iv) {
            Ok((data, key)) => {
                proof {
                    reveal_strlit("encryptedData");
                    reveal_strlit("reverseKey");
                    assert("encryptedData"@.len() != "reverseKey"@.len());
                }
                Ok(write_pair("encryptedData", data.as_str(), "reverseKey", key.as_str()))
            },
            Err(e) => Err(e),
        }
    }

    /// Encrypts a phrase under a fresh random salt and initialisation vector
    /// and returns the JSON text of the result. The version is the first
    /// with `force_v1`, else the second with `force_v2`, else the third.
    pub fn encrypt(&self, mnemonic: &str, password: &str, force_v2: bool, force_v1: bool) -> (r:
        Result<String, DarkstarError>)
        ensures
            exists|salt: Seq<u8>, iv: Seq<u8>|
                salt.len() == 16 && iv.len() == 16 && text_result(r) == #[trigger] sealed_json(
                    mnemonic.spec_bytes(),
                    password.spec_bytes(),
                    force_v2,
                    force_v1,
                    salt,
                    iv,
                ),
            r matches Ok(json) ==> opens_to(json@, password.spec_bytes(), mnemonic.spec_bytes()),
    {
        let salt = random_bytes::<16>();
        let iv = random_bytes::<16>();
        self.encrypt_with(mnemonic, password, force_v2, force_v1, &salt, &iv)
    }

    /// Encrypts a phrase under a fresh random salt and initialisation
    /// vector, decrypts the result and tells whether the phrase came back.
    /// It always does: the outcome is `true` where the encryption under the
    /// salt and vector that were drawn succeeds, and the failure of that
    /// encryption where it does not.
    pub fn check_round_trip(&self, mnemonic: &str, password: &str, force_v2: bool, force_v1: bool) -> (r:
        Result<bool, DarkstarError>)
        ensures
            exists|salt: Seq<u8>, iv: Seq<u8>|
                salt.len() == 16 && iv.len() == 16 && r == round_trip_outcome(
                    #[trigger] sealed_json(
                        mnemonic.spec_bytes(),
                        password.spec_bytes(),
                        force_v2,
                        force_v1,
                        salt,
                        iv,
                    ),
                ),
    {
        let json = match self.encrypt(mnemonic, password, force_v2, force_v1) {
            Ok(json) => json,
            Err(e) => {
                return Err(e);
            },
        };
        let (data, key) = match Self::result_parts(json.as_str()) {
            Some(pair) => pair,
            None => {
                return Err(DarkstarError::InvalidFormat);
            },
        };
        let phrase = match self.decrypt(data.as_str(), key.as_str(), password) {
            Ok(phrase) => phrase,
            Err(e) => {
                return Err(e);
            },
        };
        proof {
            vstd::utf8::encode_utf8_decode_utf8(phrase@);
            vstd::utf8::encode_utf8_decode_utf8(mnemonic@);
        }
        Ok(phrase == String::from_str(mnemonic))
    }

    /// The encrypted data and the reverse key that the JSON text of a result
    /// holds, if it holds them.
    pub fn result_parts(json: &str) -> (parts: Option<(String, String)>)
        ensures
            pair_view(parts) == json_pair_fields(json@, "encryptedData"@, "reverseKey"@),
    {
        read_pair(json, "encryptedData", "reverseKey")
    }

    /// Tells the version and the envelope of encrypted data.
    pub fn detect(encrypted_data_raw: &str) -> (r: Result<(bool, String), DarkstarError>)
        ensures
            match r {
                Ok((is_v3, envelope)) => detected(encrypted_data_raw@) == Ok::<
                    (bool, Seq<char>),
                    DarkstarError,
                >((is_v3, envelope@)),
                Err(e) => detected(encrypted_data_raw@) == Err::<(bool, Seq<char>), DarkstarError>(
                    e,
                ),
            },
    {
        if !holds_char(encrypted_data_raw, OPEN_BRACE) {
            return Ok((false, String::from_str(encrypted_data_raw)));
        }
        match read_tagged(encrypted_data_raw, "v", "data") {
            Some((Some(version), data)) => {
                if version == 2 || version == 3 {
                    match data {
                        Some(envelope) => Ok((version == 3, envelope)),
                        None => Err(DarkstarError::InvalidFormat),
                    }
                } else {
                    Err(DarkstarError::VersionMismatch)
                }
            },
            _ => Ok((false, String::from_str(encrypted_data_raw))),
        }
    }

    /// Whether every step of the key is the index of a transform.
    pub fn key_is_valid(key: &Vec<Vec<usize>>) -> (valid: bool)
        ensures
            valid == valid_key(step_lists(key@)),
    {
        let mut i: usize = 0;
        while i < key.len()
            invariant
                i <= key.len(),
                forall|k: int| 0 <= k < i ==> valid_steps(#[trigger] step_lists(key@)[k]),
            decreases key.len() - i,
        {
            let steps = &key[i];
            let mut j: usize = 0;
            while j < steps.len()
                invariant
                    j <= steps.len(),
                    i < key.len(),
                    steps@ == step_lists(key@)[i as int],
                    forall|k: int| 0 <= k < j ==> #[trigger] steps@[k] < 12,
                decreases steps.len() - j,
            {
                if steps[j] >= 12 {
                    proof {
                        assert(!valid_steps(step_lists(key@)[i as int]));
                    }
                    return false;
                }
                j = j + 1;
            }
            i = i + 1;
        }
        true
    }

    /// Reads a reverse key in either form.
    pub fn read_reverse_key(reverse_key_b64: &str, is_v3: bool) -> (r: Result<
        Vec<Vec<usize>>,
        DarkstarError,
    >)
        ensures
            crate::reverse_key::lists_result(r) == read_key(reverse_key_b64.spec_bytes(), is_v3),
    {
        let bytes = match base64_decode(reverse_key_b64.as_bytes()) {
            Some(bytes) => bytes,
            None => {
                return Err(DarkstarError::InvalidFormat);
            },
        };
        let legacy = if holds_byte(bytes.as_slice(), CLOSE_BRACKET) {
            read_step_lists(bytes.as_slice())
        } else {
            None
        };
        match legacy {
            Some(key) => {
                if Self::key_is_valid(&key) {
                    Ok(key)
                } else {
                    Err(DarkstarError::InvalidReverseKey)
                }
            },
            None => match unpack_bytes(bytes.as_slice(), is_v3) {
                Some(key) => Ok(key),
                None => Err(DarkstarError::InvalidReverseKey),
            },
        }
    }

    /// Opens the envelope and recovers the phrase.
    pub fn open_phrase(&self, envelope: &str, key: &Vec<Vec<usize>>, password: &str, is_v3: bool) -> (r:
        Result<String, DarkstarError>)
        ensures
            phrase_result(r) == opened_phrase(
                envelope.spec_bytes(),
                step_lists(key@),
                password.spec_bytes(),
                is_v3,
            ),
    {
        let opened = if is_v3 {
            self.decrypt_aes256_gcm(envelope, password, ITERATIONS_V2)
        } else {
            self.decrypt_aes256(envelope, password, ITERATIONS_V2)
        };
        let content = match opened {
            Ok(content) => content,
            Err(e) => {
                return Err(e);
            },
        };
        let blob = match base64_decode(content.as_slice()) {
            Some(blob) => blob,
            None => {
                return Err(DarkstarError::InvalidFormat);
            },
        };
        let records = unframe(blob.as_slice(), key.len());
        proof {
            lemma_unframed_len(blob@, key@.len());
        }
        let phrase = match self.recover(&records, key, password.as_bytes(), is_v3) {
            Ok(phrase) => phrase,
            Err(e) => {
                return Err(e);
            },
        };
        match utf8_string(phrase.as_slice()) {
            Some(text) => Ok(text),
            None => Err(DarkstarError::InvalidFormat),
        }
    }

    /// Passes every record back through the step list at its place in the
    /// key and joins the words by spaces.
    pub fn recover(
        &self,
        records: &Vec<Vec<u8>>,
        key: &Vec<Vec<usize>>,
        password: &[u8],
        is_v3: bool,
    ) -> (r: Result<Vec<u8>, DarkstarError>)
        requires
            records@.len() <= key@.len(),
        ensures
            crate::error::bytes_result(r) == recovered_phrase(
                byte_lists(records@),
                step_lists(key@),
                password@,
                is_v3,
            ),
            r matches Ok(phrase) ==> valid_utf8(phrase@),
    {
        let ghost all = byte_lists(records@);
        let ghost lists = step_lists(key@);
        proof {
            assert(all.take(0) =~= Seq::<Seq<u8>>::empty());
        }
        let mut phrase: Vec<u8> = Vec::new();
        let ghost mut words: Seq<Seq<u8>> = Seq::empty();
        let mut i: usize = 0;
        while i < records.len()
            invariant
                i <= records.len(),
                records@.len() <= key@.len(),
                all == byte_lists(records@),
                lists == step_lists(key@),
                recover_words(all.take(i as int), lists, password@, is_v3) == Ok::<
                    Seq<Seq<u8>>,
                    DarkstarError,
                >(words),
                words.len() == i,
                forall|k: int| 0 <= k < words.len() ==> valid_utf8(#[trigger] words[k]),
                phrase@ == join(words, SPACE),
            decreases records.len() - i,
        {
            let record = &records[i];
            let steps = &key[i];
            proof {
                assert(all.take(i + 1).drop_last() =~= all.take(i as int));
                assert(all.take(i + 1).last() == record@);
                assert(lists[i as int] == steps@);
            }
            let word = match self.deobfuscate_word(
                record.as_slice(),
                steps.as_slice(),
                password,
                is_v3,
            ) {
                Ok(word) => word,
                Err(e) => {
                    proof {
                        lemma_recover_words_fails(all, lists, password@, is_v3, i + 1);
                    }
                    return Err(e);
                },
            };
            if utf8_str(word.as_slice()).is_none() {
                proof {
                    lemma_recover_words_fails(all, lists, password@, is_v3, i + 1);
                }
                return Err(DarkstarError::InvalidFormat);
            }
            if i > 0 {
                phrase.push(SPACE);
            }
            phrase.extend_from_slice(word.as_slice());
            proof {
                let next = words.push(word@);
                assert(next.drop_last() =~= words);
                if i == 0 {
                    assert(phrase@ =~= word@);
                }
                words = next;
            }
            i = i + 1;
        }
        proof {
            assert(all.take(i as int) =~= all);
            lemma_joined_words_valid(words);
        }
        Ok(phrase)
    }

    /// Decrypts encrypted data with its reverse key and the password, and
    /// returns the phrase.
    pub fn decrypt(&self, encrypted_data_raw: &str, reverse_key_b64: &str, password: &str) -> (r:
        Result<String, DarkstarError>)
        ensures
            phrase_result(r) == decrypted(
                encrypted_data_raw@,
                reverse_key_b64.spec_bytes(),
                password.spec_bytes(),
            ),
    {
        let (is_v3, envelope) = match Self::detect(encrypted_data_raw) {
            Ok(pair) => pair,
            Err(e) => {
                return Err(e);
            },
        };
        let key = match Self::read_reverse_key(reverse_key_b64, is_v3) {
            Ok(key) => key,
            Err(e) => {
                return Err(e);
            },
        };
        self.open_phrase(envelope.as_str(), &key, password, is_v3)
    }
}

} // verus!
