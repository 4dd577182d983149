//! Hexadecimal and base64 text, written and read by the `hex` and `base64`
//! crates.

use base64::Engine;
use vstd::prelude::*;
use vstd::string::*;
use vstd::utf8::{encode_utf8, is_ascii_chars, is_ascii_chars_encode_utf8};

verus! {

/// The longest byte sequence that the library encodes as text: 2^30 bytes.
pub const MAX_BYTES: usize = 0x4000_0000;

/// The lower-case hexadecimal digit of a value below sixteen.
pub open spec fn hex_digit(v: int) -> char {
    if v < 10 {
        ((48 + v) as u8) as char
    } else {
        ((87 + v) as u8) as char
    }
}

/// The bytes in lower-case hexadecimal, two digits for each.
pub open spec fn hex_chars(bytes: Seq<u8>) -> Seq<char> {
    Seq::new(
        2 * bytes.len(),
        |i: int|
            hex_digit(
                if i % 2 == 0 {
                    bytes[i / 2] as int / 16
                } else {
                    bytes[i / 2] as int % 16
                },
            ),
    )
}

/// The value of a hexadecimal digit of either case.
pub open spec fn hex_value(b: u8) -> Option<int> {
    if 48 <= b <= 57 {
        Some(b - 48)
    } else if 97 <= b <= 102 {
        Some(b - 87)
    } else if 65 <= b <= 70 {
        Some(b - 55)
    } else {
        None
    }
}

/// The bytes that a hexadecimal text stands for: none if the text has an odd
/// length or holds anything but hexadecimal digits.
pub open spec fn hex_bytes(text: Seq<u8>) -> Option<Seq<u8>> {
    if text.len() % 2 == 0 && (forall|i: int|
        0 <= i < text.len() ==> (#[trigger] hex_value(text[i])) is Some) {
        Some(
            Seq::new(
                text.len() / 2,
                |i: int| (hex_value(text[2 * i]).unwrap() * 16 + hex_value(text[2 * i + 1]).unwrap()) as u8,
            ),
        )
    } else {
        None
    }
}

/// The base64 text of `data`: standard alphabet, padded.
pub uninterp spec fn base64_text(data: Seq<u8>) -> Seq<char>;

/// The bytes that a base64 text stands for, if it is well-formed.
pub uninterp spec fn base64_bytes(text: Seq<u8>) -> Option<Seq<u8>>;

/// Whether `c` is a letter, a digit, `+`, `/` or `=`.
pub open spec fn is_base64_char(c: char) -> bool {
    ('A' <= c <= 'Z') || ('a' <= c <= 'z') || ('0' <= c <= '9') || c == '+' || c == '/' || c == '='
}

/// The bytes of a text of ASCII characters: one for each character.
pub open spec fn ascii_bytes(text: Seq<char>) -> Seq<u8> {
    Seq::new(text.len(), |i: int| text[i] as u8)
}

/// Hexadecimal text is ASCII, and reading it gives the bytes back.
pub proof fn lemma_hex_round_trip(bytes: Seq<u8>)
    ensures
        hex_chars(bytes).len() == 2 * bytes.len(),
        is_ascii_chars(hex_chars(bytes)),
        forall|i: int| 0 <= i < hex_chars(bytes).len() ==> #[trigger] hex_chars(bytes)[i] != '{',
        hex_bytes(ascii_bytes(hex_chars(bytes))) == Some(bytes),
{
    let text = hex_chars(bytes);
    let raw = ascii_bytes(text);
    assert forall|i: int| 0 <= i < text.len() implies {
        &&& 0 <= (#[trigger] text[i]) as nat <= 127
        &&& text[i] != '{'
        &&& hex_value(raw[i]) == Some(
            if i % 2 == 0 {
                bytes[i / 2] as int / 16
            } else {
                bytes[i / 2] as int % 16
            },
        )
    } by {
        let v = if i % 2 == 0 {
            bytes[i / 2] as int / 16
        } else {
            bytes[i / 2] as int % 16
        };
        assert(0 <= v < 16);
        assert(raw[i] == text[i] as u8);
    }
    assert forall|i: int| 0 <= i < raw.len() implies (#[trigger] hex_value(raw[i])) is Some by {
        assert(0 <= (text[i]) as nat <= 127);
    }
    let back = hex_bytes(raw).unwrap();
    assert forall|k: int| 0 <= k < bytes.len() implies back[k] == bytes[k] by {
        assert(0 <= (text[2 * k]) as nat <= 127);
        assert(0 <= (text[2 * k + 1]) as nat <= 127);
    }
    assert(back =~= bytes);
}

/// Calls `hex::encode`: each byte as two lower-case hexadecimal digits.
#[verifier::external_body]
pub(crate) fn hex_encode(bytes: &[u8]) -> (text: String)
    ensures
        text@ == hex_chars(bytes@),
{
    hex::encode(bytes)
}

/// Calls `hex::decode`: the bytes that the text stands for, digits of either
/// case accepted; nothing for a text of odd length or with any other byte.
#[verifier::external_body]
pub(crate) fn hex_decode(text: &[u8]) -> (bytes: Option<Vec<u8>>)
    ensures
        bytes is Some <==> hex_bytes(text@) is Some,
        bytes matches Some(b) ==> hex_bytes(text@) == Some(b@),
{
    hex::decode(text).ok()
}

/// Calls `encode` of the `base64` crate's standard engine. The contract
/// names the text, and states that it has four characters for every three
/// bytes begun, that it consists of characters of the base64 alphabet and the
/// padding sign, and that the crate's decoder reads the data back from it. Longer data than the engine can size a buffer for is
/// left out.
#[verifier::external_body]
pub(crate) fn base64_encode(data: &[u8]) -> (text: String)
    requires
        data@.len() / 3 * 4 + 4 <= usize::MAX,
    ensures
        text@ == base64_text(data@),
        text@.len() == (data@.len() + 2) / 3 * 4,
        forall|i: int| 0 <= i < text@.len() ==> is_base64_char(#[trigger] text@[i]),
        base64_bytes(encode_utf8(text@)) == Some(data@),
{
    base64::engine::general_purpose::STANDARD.encode(data)
}

/// Calls `decode` of the `base64` crate's standard engine: the bytes that
/// the text stands for, or nothing if the engine refuses it.
#[verifier::external_body]
pub(crate) fn base64_decode(text: &[u8]) -> (data: Option<Vec<u8>>)
    ensures
        data is Some <==> base64_bytes(text@) is Some,
        data matches Some(d) ==> base64_bytes(text@) == Some(d@),
{
    base64::engine::general_purpose::STANDARD.decode(text).ok()
}

} // verus!
