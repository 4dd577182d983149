//! The JSON texts of the format, written and read by `serde_json`: the object
//! that tags an envelope with its version, the object that carries the two
//! parts of the result, and the legacy form of a reverse key.

use crate::reverse_key::step_lists;
use crate::text::{digits, join, COMMA};
use vstd::prelude::*;
use vstd::string::*;

verus! {

/// The opening bracket of a JSON array.
pub const OPEN_BRACKET: u8 = 91;

/// The closing bracket of a JSON array.
pub const CLOSE_BRACKET: u8 = 93;

/// The JSON text of an object with a number under one key and a text under
/// another.
pub uninterp spec fn json_tagged_text(
    number_key: Seq<char>,
    number: u8,
    text_key: Seq<char>,
    text: Seq<char>,
) -> Seq<char>;

/// The JSON text of an object with two texts under two keys.
pub uninterp spec fn json_pair_text(
    first_key: Seq<char>,
    first: Seq<char>,
    second_key: Seq<char>,
    second: Seq<char>,
) -> Seq<char>;

/// What a JSON text holds under two keys: nothing if it is not JSON; else
/// under the first key an integer, if there is one, and under the second a
/// text, if there is one.
pub uninterp spec fn json_tagged_fields(
    raw: Seq<char>,
    number_key: Seq<char>,
    text_key: Seq<char>,
) -> Option<(Option<i64>, Option<Seq<char>>)>;

/// The two texts that a JSON text holds under two keys, if it is JSON and
/// holds a text under each.
pub uninterp spec fn json_pair_fields(raw: Seq<char>, first_key: Seq<char>, second_key: Seq<char>) -> Option<
    (Seq<char>, Seq<char>),
>;

/// The step lists that a JSON array of arrays of numbers stands for, if the
/// bytes are one.
pub uninterp spec fn json_step_lists(bytes: Seq<u8>) -> Option<Seq<Seq<usize>>>;

/// The JSON array of the numbers: in decimal, separated by commas, in
/// brackets.
pub open spec fn json_list(steps: Seq<usize>) -> Seq<u8> {
    seq![OPEN_BRACKET] + join(Seq::new(steps.len(), |j: int| digits(steps[j] as nat, 10)), COMMA)
        + seq![CLOSE_BRACKET]
}

/// The JSON array of the arrays of the lists.
pub open spec fn json_lists(lists: Seq<Seq<usize>>) -> Seq<u8> {
    seq![OPEN_BRACKET] + join(Seq::new(lists.len(), |i: int| json_list(lists[i])), COMMA)
        + seq![CLOSE_BRACKET]
}

/// What was read under a number key and a text key, as mathematical values.
pub open spec fn tagged_view(fields: Option<(Option<i64>, Option<String>)>) -> Option<
    (Option<i64>, Option<Seq<char>>),
> {
    match fields {
        Some((number, text)) => Some(
            (
                number,
                match text {
                    Some(t) => Some(t@),
                    None => None,
                },
            ),
        ),
        None => None,
    }
}

/// What was read under two text keys, as mathematical values.
pub open spec fn pair_view(fields: Option<(String, String)>) -> Option<(Seq<char>, Seq<char>)> {
    match fields {
        Some((first, second)) => Some((first@, second@)),
        None => None,
    }
}

/// Builds a `serde_json` object of a number and a text and calls its
/// `to_string`. The contract names the text, and states that it begins with
/// an opening brace and that `serde_json` reads the number and the text back
/// from it under the two keys.
#[verifier::external_body]
pub(crate) fn write_tagged(number_key: &str, number: u8, text_key: &str, text: &str) -> (json:
    String)
    requires
        number_key@ != text_key@,
    ensures
        json@ == json_tagged_text(number_key@, number, text_key@, text@),
        json@.len() > 0 && json@[0] == '{',
        json_tagged_fields(json@, number_key@, text_key@) == Some(
            (Some(number as i64), Some(text@)),
        ),
{
    let mut map = serde_json::Map::new();
    map.insert(number_key.to_string(), serde_json::Value::from(number));
    map.insert(text_key.to_string(), serde_json::Value::from(text));
    serde_json::Value::Object(map).to_string()
}

/// Calls `serde_json::from_str` and reads the value under a number key with
/// `as_i64` and the value under a text key with `as_str`.
#[verifier::external_body]
pub(crate) fn read_tagged(raw: &str, number_key: &str, text_key: &str) -> (fields: Option<
    (Option<i64>, Option<String>),
>)
    ensures
        tagged_view(fields) == json_tagged_fields(raw@, number_key@, text_key@),
{
    match serde_json::from_str::<serde_json::Value>(raw) {
        Ok(value) => Some(
            (value[number_key].as_i64(), value[text_key].as_str().map(String::from)),
        ),
        Err(_) => None,
    }
}

/// Builds a `serde_json` object of two texts and calls its `to_string`. The
/// contract names the text, and states that `serde_json` reads the two texts
/// back from it under the two keys.
#[verifier::external_body]
pub(crate) fn write_pair(first_key: &str, first: &str, second_key: &str, second: &str) -> (json:
    String)
    requires
        first_key@ != second_key@,
    ensures
        json@ == json_pair_text(first_key@, first@, second_key@, second@),
        json_pair_fields(json@, first_key@, second_key@) == Some((first@, second@)),
{
    let mut map = serde_json::Map::new();
    map.insert(first_key.to_string(), serde_json::Value::from(first));
    map.insert(second_key.to_string(), serde_json::Value::from(second));
    serde_json::Value::Object(map).to_string()
}

/// Calls `serde_json::from_str` and reads the values under two keys with
/// `as_str`.
#[verifier::external_body]
pub(crate) fn read_pair(raw: &str, first_key: &str, second_key: &str) -> (fields: Option<
    (String, String),
>)
    ensures
        pair_view(fields) == json_pair_fields(raw@, first_key@, second_key@),
{
    let value = serde_json::from_str::<serde_json::Value>(raw).ok()?;
    let first = value[first_key].as_str()?;
    let second = value[second_key].as_str()?;
    Some((first.to_string(), second.to_string()))
}

/// Calls `serde_json::to_vec` on the step lists: an array of arrays of
/// decimal numbers, without spaces. The contract states the bytes, and that
/// `serde_json` reads the lists back from them.
#[verifier::external_body]
pub(crate) fn write_step_lists(lists: &Vec<Vec<usize>>) -> (json: Vec<u8>)
    ensures
        json@ == json_lists(step_lists(lists@)),
        json_step_lists(json@) == Some(step_lists(lists@)),
{
    serde_json::to_vec(lists).unwrap_or_default()
}

/// Calls `serde_json::from_slice` for an array of arrays of numbers.
#[verifier::external_body]
pub(crate) fn read_step_lists(bytes: &[u8]) -> (lists: Option<Vec<Vec<usize>>>)
    ensures
        lists is Some <==> json_step_lists(bytes@) is Some,
        lists matches Some(l) ==> json_step_lists(bytes@) == Some(step_lists(l@)),
{
    serde_json::from_slice::<Vec<Vec<usize>>>(bytes).ok()
}

} // verus!
