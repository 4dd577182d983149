//! Numbers written as digits, lists written with commas, and UTF-8.
//!
//! Several transforms render bytes as text and read them back. This module
//! holds the two directions and the proofs that one undoes the other.

use vstd::prelude::*;
use vstd::string::*;
use vstd::utf8::{decode_utf8, encode_utf8, valid_utf8};

verus! {

/// The comma that separates the numbers of a list.
pub const COMMA: u8 = 44;

/// The plus sign that may precede the digits of a number.
pub const PLUS: u8 = 43;

/// The character of the digit `0`.
pub const ZERO: u8 = 48;

/// Whether `b` is a digit in the given radix (at most ten).
pub open spec fn is_digit(b: u8, radix: nat) -> bool {
    ZERO <= b < ZERO + radix
}

/// The character of the digit `d`, for `d` below ten.
pub open spec fn digit_char(d: nat) -> u8 {
    if d < 10 {
        (ZERO + d) as u8
    } else {
        ZERO
    }
}

/// The digits of `n` in the given radix, most significant first, without
/// leading zeros; `0` is written as one digit.
pub open spec fn digits(n: nat, radix: nat) -> Seq<u8>
    decreases n,
    via digits_decreases
{
    if radix < 2 || n < radix {
        seq![digit_char(n)]
    } else {
        digits(n / radix, radix).push(digit_char(n % radix))
    }
}

#[via_fn]
proof fn digits_decreases(n: nat, radix: nat) {
    if !(radix < 2 || n < radix) {
        assert(n / radix < n) by (nonlinear_arith)
            requires
                radix >= 2,
                n >= radix,
        ;
    }
}

/// The number that a sequence of digits stands for.
pub open spec fn digits_value(text: Seq<u8>, radix: nat) -> nat
    decreases text.len(),
{
    if text.len() == 0 {
        0
    } else {
        digits_value(text.drop_last(), radix) * radix + (text.last() - ZERO) as nat
    }
}

/// Whether every byte of `text` is a digit in the given radix.
pub open spec fn all_digits(text: Seq<u8>, radix: nat) -> bool {
    forall|i: int| 0 <= i < text.len() ==> is_digit(#[trigger] text[i], radix)
}

/// The number that `text` denotes: an optional plus sign, then at least one
/// digit, leading zeros allowed, the value at most `max`. `None` for any
/// other text.
pub open spec fn parse_unsigned(text: Seq<u8>, radix: nat, max: nat) -> Option<nat> {
    let body = if text.len() > 0 && text[0] == PLUS {
        text.drop_first()
    } else {
        text
    };
    if body.len() > 0 && all_digits(body, radix) && digits_value(body, radix) <= max {
        Some(digits_value(body, radix))
    } else {
        None
    }
}

/// The parts joined by `sep`; the empty list gives the empty text.
pub open spec fn join(parts: Seq<Seq<u8>>, sep: u8) -> Seq<u8>
    decreases parts.len(),
{
    if parts.len() == 0 {
        seq![]
    } else if parts.len() == 1 {
        parts[0]
    } else {
        join(parts.drop_last(), sep).push(sep) + parts.last()
    }
}

/// The parts of `text` between occurrences of `sep`; always at least one
/// part, and one more than there are separators.
pub open spec fn split(text: Seq<u8>, sep: u8) -> Seq<Seq<u8>>
    decreases text.len(),
{
    if text.len() == 0 {
        seq![seq![]]
    } else {
        let before = split(text.drop_last(), sep);
        if text.last() == sep {
            before.push(seq![])
        } else {
            before.drop_last().push(before.last().push(text.last()))
        }
    }
}

/// The byte sequences that a vector of byte vectors holds.
pub open spec fn byte_lists(lists: Seq<Vec<u8>>) -> Seq<Seq<u8>> {
    Seq::new(lists.len(), |i: int| lists[i]@)
}

/// Whether `sep` occurs in none of the parts.
pub open spec fn free_of(parts: Seq<Seq<u8>>, sep: u8) -> bool {
    forall|i: int, j: int|
        0 <= i < parts.len() && 0 <= j < parts[i].len() ==> #[trigger] parts[i][j] != sep
}

/// Splitting always yields at least one part.
pub proof fn lemma_split_nonempty(text: Seq<u8>, sep: u8)
    ensures
        split(text, sep).len() >= 1,
    decreases text.len(),
{
    if text.len() > 0 {
        lemma_split_nonempty(text.drop_last(), sep);
    }
}

/// Splitting the text `text + tail`, where `tail` holds no separator, extends
/// the last part of the split of `text` by `tail`.
pub proof fn lemma_split_append(text: Seq<u8>, tail: Seq<u8>, sep: u8)
    requires
        forall|j: int| 0 <= j < tail.len() ==> tail[j] != sep,
    ensures
        split(text + tail, sep) == split(text, sep).drop_last().push(
            split(text, sep).last() + tail,
        ),
    decreases tail.len(),
{
    lemma_split_nonempty(text, sep);
    let s = split(text, sep);
    if tail.len() == 0 {
        assert(text + tail =~= text);
        assert(s.last() + tail =~= s.last());
        assert(s.drop_last().push(s.last()) =~= s);
    } else {
        let shorter = tail.drop_last();
        lemma_split_append(text, shorter, sep);
        assert((text + tail).drop_last() =~= text + shorter);
        assert((text + tail).last() == tail.last());
        let before = split(text + shorter, sep);
        assert(before.drop_last() =~= s.drop_last());
        assert(before.last().push(tail.last()) =~= s.last() + tail);
    }
}

/// Splitting undoes joining, for a list of at least one part whose parts hold
/// no separator.
pub proof fn lemma_split_join(parts: Seq<Seq<u8>>, sep: u8)
    requires
        parts.len() >= 1,
        free_of(parts, sep),
    ensures
        split(join(parts, sep), sep) == parts,
    decreases parts.len(),
{
    if parts.len() == 1 {
        assert(split(seq![], sep) == seq![Seq::<u8>::empty()]);
        lemma_split_append(seq![], parts[0], sep);
        assert(Seq::<u8>::empty() + parts[0] =~= parts[0]);
        assert(seq![Seq::<u8>::empty()].drop_last().push(parts[0]) =~= parts);
    } else {
        let front = parts.drop_last();
        assert(free_of(front, sep)) by {
            assert forall|i: int, j: int|
                0 <= i < front.len() && 0 <= j < front[i].len() implies #[trigger] front[i][j]
                != sep by {
                assert(front[i] == parts[i]);
                assert(parts[i][j] != sep);
            }
        }
        lemma_split_join(front, sep);
        let head = join(front, sep).push(sep);
        assert(head.drop_last() =~= join(front, sep));
        assert(split(head, sep) == front.push(seq![]));
        assert forall|j: int| 0 <= j < parts.last().len() implies parts.last()[j] != sep by {
            assert(parts[parts.len() - 1][j] != sep);
        }
        lemma_split_append(head, parts.last(), sep);
        assert(Seq::<u8>::empty() + parts.last() =~= parts.last());
        assert(front.push(seq![]).drop_last() =~= front);
        assert(front.push(parts.last()) =~= parts);
    }
}

/// Joining undoes splitting.
pub proof fn lemma_join_split(text: Seq<u8>, sep: u8)
    ensures
        join(split(text, sep), sep) == text,
    decreases text.len(),
{
    if text.len() == 0 {
        assert(join(split(text, sep), sep) =~= text);
    } else {
        let shorter = text.drop_last();
        lemma_join_split(shorter, sep);
        lemma_split_nonempty(shorter, sep);
        let before = split(shorter, sep);
        let parts = split(text, sep);
        if text.last() == sep {
            assert(parts.drop_last() =~= before);
            assert(join(before, sep).push(sep) + Seq::<u8>::empty() =~= text);
        } else {
            let grown = before.last().push(text.last());
            if before.len() == 1 {
                assert(parts =~= seq![grown]);
                assert(grown =~= text);
            } else {
                assert(parts.drop_last() =~= before.drop_last());
                assert(join(before.drop_last(), sep).push(sep) + grown =~= (join(
                    before.drop_last(),
                    sep,
                ).push(sep) + before.last()).push(text.last()));
                assert(shorter.push(text.last()) =~= text);
            }
        }
    }
}

/// Whether `part` is the stretch of `text` from `a` to `b`, where `a` is the
/// start of the text or follows a separator, and `b` is the end of the text
/// or the place of a separator.
pub open spec fn is_cut(text: Seq<u8>, sep: u8, part: Seq<u8>, a: int, b: int) -> bool {
    &&& 0 <= a <= b <= text.len()
    &&& (a == 0 || text[a - 1] == sep)
    &&& (b == text.len() || text[b] == sep)
    &&& part == text.subrange(a, b)
}

/// Whether `part` is some stretch of `text` between separators that ends
/// before the end of the text.
pub open spec fn is_inner_part(text: Seq<u8>, sep: u8, part: Seq<u8>) -> bool {
    exists|a: int, b: int| b < text.len() && #[trigger] is_cut(text, sep, part, a, b)
}

/// Whether `part` is the stretch of `text` behind its last separator.
pub open spec fn is_last_part(text: Seq<u8>, sep: u8, part: Seq<u8>) -> bool {
    exists|a: int| #[trigger] is_cut(text, sep, part, a, text.len() as int)
}

/// Every part of a split text is a stretch of the text between separators.
pub proof fn lemma_split_cuts(text: Seq<u8>, sep: u8)
    ensures
        split(text, sep).len() >= 1,
        is_last_part(text, sep, split(text, sep).last()),
        forall|i: int|
            0 <= i < split(text, sep).len() - 1 ==> is_inner_part(
                text,
                sep,
                #[trigger] split(text, sep)[i],
            ),
    decreases text.len(),
{
    let parts = split(text, sep);
    let n = text.len() as int;
    if n == 0 {
        assert(parts.last() =~= text.subrange(0, 0));
        assert(is_cut(text, sep, parts.last(), 0, 0));
    } else {
        let shorter = text.drop_last();
        lemma_split_cuts(shorter, sep);
        let before = split(shorter, sep);
        let a = choose|a: int| #[trigger] is_cut(shorter, sep, before.last(), a, n - 1);
        assert forall|i: int| 0 <= i < before.len() - 1 implies is_inner_part(
            text,
            sep,
            #[trigger] before[i],
        ) by {
            let (x, y) = choose|x: int, y: int|
                y < shorter.len() && #[trigger] is_cut(shorter, sep, before[i], x, y);
            assert(shorter.subrange(x, y) =~= text.subrange(x, y));
            assert(is_cut(text, sep, before[i], x, y));
        }
        if text.last() == sep {
            assert(shorter.subrange(a, n - 1) =~= text.subrange(a, n - 1));
            assert(is_cut(text, sep, before.last(), a, n - 1));
            assert(text.subrange(n, n) =~= Seq::<u8>::empty());
            assert(is_cut(text, sep, parts.last(), n, n));
            assert forall|i: int| 0 <= i < parts.len() - 1 implies is_inner_part(
                text,
                sep,
                #[trigger] parts[i],
            ) by {
                assert(parts[i] == before[i]);
            }
        } else {
            assert(shorter.subrange(a, n - 1).push(text.last()) =~= text.subrange(a, n));
            assert(is_cut(text, sep, parts.last(), a, n));
            assert forall|i: int| 0 <= i < parts.len() - 1 implies is_inner_part(
                text,
                sep,
                #[trigger] parts[i],
            ) by {
                assert(parts[i] == before[i]);
            }
        }
    }
}

/// A stretch of UTF-8 text between ASCII separators is UTF-8.
pub proof fn lemma_cut_valid(text: Seq<u8>, sep: u8, part: Seq<u8>, a: int, b: int)
    requires
        valid_utf8(text),
        sep < 128,
        is_cut(text, sep, part, a, b),
    ensures
        valid_utf8(part),
{
    if b == text.len() {
        vstd::utf8::is_char_boundary_start_end_of_seq(text);
    } else {
        vstd::utf8::is_char_boundary_iff_not_is_continuation_byte(text, b);
    }
    vstd::utf8::valid_utf8_split(text, b);
    let head = text.subrange(0, b);
    if a == 0 {
    } else {
        assert(head[a - 1] == sep);
        vstd::utf8::is_char_boundary_iff_not_is_continuation_byte(head, a - 1);
        vstd::utf8::valid_utf8_split(head, a - 1);
        let tail = head.subrange(a - 1, b);
        assert(tail[0] == sep);
        assert(vstd::utf8::pop_first_scalar(tail) =~= part);
    }
}

/// The parts of a UTF-8 text that is split at an ASCII separator are UTF-8.
pub proof fn lemma_split_valid(text: Seq<u8>, sep: u8)
    requires
        valid_utf8(text),
        sep < 128,
    ensures
        forall|i: int|
            0 <= i < split(text, sep).len() ==> valid_utf8(#[trigger] split(text, sep)[i]),
{
    lemma_split_cuts(text, sep);
    let parts = split(text, sep);
    assert forall|i: int| 0 <= i < parts.len() implies valid_utf8(#[trigger] parts[i]) by {
        if i == parts.len() - 1 {
            let a = choose|a: int| #[trigger] is_cut(text, sep, parts.last(), a, text.len() as int);
            lemma_cut_valid(text, sep, parts[i], a, text.len() as int);
        } else {
            assert(is_inner_part(text, sep, parts[i]));
            let (a, b) = choose|a: int, b: int|
                b < text.len() && #[trigger] is_cut(text, sep, parts[i], a, b);
            lemma_cut_valid(text, sep, parts[i], a, b);
        }
    }
}

/// The digits of a number are digits, at least one of them, and stand for the
/// number.
pub proof fn lemma_digits(n: nat, radix: nat)
    requires
        2 <= radix <= 10,
    ensures
        digits(n, radix).len() >= 1,
        all_digits(digits(n, radix), radix),
        digits_value(digits(n, radix), radix) == n,
    decreases n,
{
    let d = digits(n, radix);
    if n < radix {
        assert(d.drop_last() =~= Seq::<u8>::empty());
        assert(digits_value(d.drop_last(), radix) == 0);
        assert(digits_value(d.drop_last(), radix) * radix == 0) by (nonlinear_arith)
            requires
                digits_value(d.drop_last(), radix) == 0,
        ;
    } else {
        lemma_digits(n / radix, radix);
        let front = digits(n / radix, radix);
        assert(d.drop_last() =~= front);
        assert(n % radix < radix) by (nonlinear_arith)
            requires
                radix >= 2,
        ;
        assert((n / radix) * radix + n % radix == n) by (nonlinear_arith)
            requires
                radix >= 2,
        ;
        assert forall|i: int| 0 <= i < d.len() implies is_digit(#[trigger] d[i], radix) by {
            if i < front.len() {
                assert(d[i] == front[i]);
            }
        }
    }
}

/// Reading undoes writing: the digits of a number within the limit parse as
/// that number.
pub proof fn lemma_parse_digits(n: nat, radix: nat, max: nat)
    requires
        2 <= radix <= 10,
        n <= max,
    ensures
        parse_unsigned(digits(n, radix), radix, max) == Some(n),
{
    lemma_digits(n, radix);
    let d = digits(n, radix);
    assert(is_digit(d[0], radix));
}

/// Bytes below 128 are UTF-8.
pub proof fn lemma_ascii_valid(bytes: Seq<u8>)
    requires
        forall|i: int| 0 <= i < bytes.len() ==> #[trigger] bytes[i] < 128,
    ensures
        valid_utf8(bytes),
{
    let chars = Seq::new(bytes.len(), |i: int| bytes[i] as char);
    assert(vstd::utf8::is_ascii_chars(chars)) by {
        assert forall|i: int| 0 <= i < chars.len() implies '\0' <= #[trigger] chars[i]
            <= '\u{7f}' by {
            assert(bytes[i] < 128);
        }
    }
    vstd::utf8::is_ascii_chars_encode_utf8(chars);
    vstd::utf8::encode_utf8_valid_utf8(chars);
    assert(encode_utf8(chars) =~= bytes) by {
        assert forall|i: int| 0 <= i < bytes.len() implies encode_utf8(chars)[i] == bytes[i] by {
            assert(chars[i] as u8 == encode_utf8(chars)[i]);
            assert(bytes[i] < 128);
        }
    }
}

/// The digits of a number are UTF-8.
pub proof fn lemma_digits_valid(n: nat, radix: nat)
    requires
        2 <= radix <= 10,
    ensures
        valid_utf8(digits(n, radix)),
{
    lemma_digits(n, radix);
    let d = digits(n, radix);
    assert forall|i: int| 0 <= i < d.len() implies #[trigger] d[i] < 128 by {
        assert(is_digit(d[i], radix));
    }
    lemma_ascii_valid(d);
}

/// No digit is a comma.
pub proof fn lemma_digits_free_of_comma(n: nat, radix: nat)
    requires
        2 <= radix <= 10,
    ensures
        forall|j: int| 0 <= j < digits(n, radix).len() ==> digits(n, radix)[j] != COMMA,
{
    lemma_digits(n, radix);
    let d = digits(n, radix);
    assert forall|j: int| 0 <= j < d.len() implies d[j] != COMMA by {
        assert(is_digit(d[j], radix));
    }
}

/// A number's value is at least that of any prefix of its digits.
pub proof fn lemma_digits_value_prefix(text: Seq<u8>, radix: nat, k: int)
    requires
        radix >= 1,
        0 <= k <= text.len(),
        all_digits(text, radix),
    ensures
        digits_value(text.take(k), radix) <= digits_value(text, radix),
    decreases text.len() - k,
{
    if k == text.len() {
        assert(text.take(k) =~= text);
    } else {
        lemma_digits_value_prefix(text.drop_last(), radix, k);
        assert(text.drop_last().take(k) =~= text.take(k));
        let v = digits_value(text.drop_last(), radix);
        assert(is_digit(text[text.len() - 1], radix));
        assert(v * radix >= v) by (nonlinear_arith)
            requires
                radix >= 1,
                v >= 0,
        ;
    }
}

/// Appends the digits of `n` in the given radix to `out`.
pub fn push_digits(out: &mut Vec<u8>, n: u32, radix: u32)
    requires
        2 <= radix <= 10,
    ensures
        final(out)@ == old(out)@ + digits(n as nat, radix as nat),
{
    let mut low: Vec<u8> = Vec::new();
    let mut m = n;
    while m >= radix
        invariant
            2 <= radix <= 10,
            digits(n as nat, radix as nat) == digits(m as nat, radix as nat) + low@.reverse(),
        decreases m,
    {
        let d = (m % radix) as u8;
        let ghost before = low@;
        low.push(ZERO + d);
        proof {
            assert(low@.reverse() =~= seq![digit_char((m % radix) as nat)] + before.reverse());
            assert(digits(m as nat, radix as nat) == digits((m / radix) as nat, radix as nat).push(
                digit_char((m % radix) as nat),
            ));
            assert(digits((m / radix) as nat, radix as nat).push(digit_char((m % radix) as nat))
                + before.reverse() =~= digits((m / radix) as nat, radix as nat) + low@.reverse());
        }
        m = m / radix;
    }
    let ghost start = out@;
    out.push(ZERO + m as u8);
    let mut k = low.len();
    while k > 0
        invariant
            k <= low.len(),
            out@ == start + seq![digit_char(m as nat)] + low@.reverse().take(low.len() - k),
        decreases k,
    {
        k = k - 1;
        let ghost before = out@;
        out.push(low[k]);
        proof {
            let r = low@.reverse();
            assert(r[low.len() - 1 - k] == low@[k as int]);
            assert(r.take(low.len() - k) =~= r.take(low.len() - k - 1).push(low@[k as int]));
        }
    }
    proof {
        assert(low@.reverse().take(low.len() as int) =~= low@.reverse());
        assert(digits(m as nat, radix as nat) =~= seq![digit_char(m as nat)]);
        assert(start + seq![digit_char(m as nat)] + low@.reverse() =~= start + (seq![
            digit_char(m as nat),
        ] + low@.reverse()));
    }
}

/// Reads `text` as a number in the given radix, at most `max`.
pub fn parse_number(text: &[u8], radix: u32, max: u32) -> (value: Option<u32>)
    requires
        2 <= radix <= 10,
        max <= 0xffff,
    ensures
        value is Some <==> parse_unsigned(text@, radix as nat, max as nat) is Some,
        value matches Some(v) ==> parse_unsigned(text@, radix as nat, max as nat) == Some(
            v as nat,
        ),
{
    let start: usize = if text.len() > 0 && text[0] == PLUS {
        1
    } else {
        0
    };
    let ghost body = text@.skip(start as int);
    proof {
        if start == 1 {
            assert(text@.drop_first() =~= body);
        } else {
            assert(text@ =~= body);
        }
    }
    if start == text.len() {
        return None;
    }
    let mut acc: u32 = 0;
    let mut i: usize = start;
    while i < text.len()
        invariant
            start <= i <= text.len(),
            2 <= radix <= 10,
            max <= 0xffff,
            body == text@.skip(start as int),
            body == if text@.len() > 0 && text@[0] == PLUS {
                text@.drop_first()
            } else {
                text@
            },
            all_digits(body.take(i - start), radix as nat),
            acc == digits_value(body.take(i - start), radix as nat),
            acc <= max,
        decreases text.len() - i,
    {
        let b = text[i];
        let ghost k = i - start;
        proof {
            assert(body[k] == b);
            assert(body.take(k + 1).drop_last() =~= body.take(k));
            assert(body.take(k + 1).last() == b);
        }
        if b < ZERO || (b - ZERO) as u32 >= radix {
            proof {
                assert(!is_digit(body[k], radix as nat));
            }
            return None;
        }
        proof {
            assert(acc * radix <= 0xffff * 10) by (nonlinear_arith)
                requires
                    acc <= 0xffff,
                    radix <= 10,
            ;
        }
        let next = acc * radix + (b - ZERO) as u32;
        proof {
            assert forall|j: int| 0 <= j < body.take(k + 1).len() implies is_digit(
                #[trigger] body.take(k + 1)[j],
                radix as nat,
            ) by {
                if j < k {
                    assert(body.take(k + 1)[j] == body.take(k)[j]);
                }
            }
        }
        if next > max {
            proof {
                if all_digits(body, radix as nat) {
                    lemma_digits_value_prefix(body, radix as nat, k + 1);
                }
            }
            return None;
        }
        acc = next;
        i = i + 1;
    }
    proof {
        assert(body.take(i - start) =~= body);
    }
    Some(acc)
}

/// Cuts `text` at every occurrence of `sep`.
pub fn split_on(text: &[u8], sep: u8) -> (parts: Vec<Vec<u8>>)
    ensures
        byte_lists(parts@) == split(text@, sep),
{
    let mut parts: Vec<Vec<u8>> = Vec::new();
    let mut current: Vec<u8> = Vec::new();
    let mut i: usize = 0;
    while i < text.len()
        invariant
            i <= text.len(),
            split(text@.take(i as int), sep) == byte_lists(parts@).push(current@),
        decreases text.len() - i,
    {
        let b = text[i];
        let ghost done = byte_lists(parts@);
        let ghost part = current@;
        proof {
            assert(text@.take(i + 1).drop_last() =~= text@.take(i as int));
            assert(text@.take(i + 1).last() == b);
            assert(done.push(part).drop_last() =~= done);
        }
        if b == sep {
            parts.push(current);
            current = Vec::new();
            proof {
                assert(byte_lists(parts@) =~= done.push(part));
            }
        } else {
            current.push(b);
        }
        i = i + 1;
    }
    let ghost done = byte_lists(parts@);
    let ghost part = current@;
    proof {
        assert(text@.take(i as int) =~= text@);
    }
    parts.push(current);
    proof {
        assert(byte_lists(parts@) =~= done.push(part));
    }
    parts
}

/// Whether `c` occurs in `text`.
pub open spec fn has_char(text: Seq<char>, c: char) -> bool {
    exists|i: int| 0 <= i < text.len() && text[i] == c
}

/// Whether `b` occurs in `bytes`.
pub open spec fn has_byte(bytes: Seq<u8>, b: u8) -> bool {
    exists|i: int| 0 <= i < bytes.len() && bytes[i] == b
}

/// Whether `c` occurs in `text`.
pub fn holds_char(text: &str, c: char) -> (found: bool)
    ensures
        found == has_char(text@, c),
{
    let mut found = false;
    for ch in it: text.chars()
        invariant
            it.seq() == text@,
            found == has_char(text@.take(it.index() as int), c),
    {
        proof {
            let before = text@.take(it.index() as int);
            let after = text@.take(it.index() + 1);
            if has_char(before, c) {
                let k = choose|k: int| 0 <= k < before.len() && before[k] == c;
                assert(after[k] == c);
            }
            if ch == c {
                assert(after[it.index() as int] == c);
            }
            if has_char(after, c) {
                let k = choose|k: int| 0 <= k < after.len() && after[k] == c;
                if k < it.index() {
                    assert(before[k] == c);
                }
            }
        }
        if ch == c {
            found = true;
        }
    }
    proof {
        assert(text@.take(text@.len() as int) =~= text@);
    }
    found
}

/// Whether `b` occurs in `bytes`.
pub fn holds_byte(bytes: &[u8], b: u8) -> (found: bool)
    ensures
        found == has_byte(bytes@, b),
{
    let mut i: usize = 0;
    while i < bytes.len()
        invariant
            i <= bytes.len(),
            forall|k: int| 0 <= k < i ==> bytes@[k] != b,
        decreases bytes.len() - i,
    {
        if bytes[i] == b {
            return true;
        }
        i = i + 1;
    }
    false
}

/// The bytes of an optional seed: none for a missing one.
pub open spec fn seed_bytes(seed: Option<&[u8]>) -> Seq<u8> {
    match seed {
        Some(bytes) => bytes@,
        None => seq![],
    }
}

/// The bytes of an optional seed as a slice.
pub fn seed_slice<'a>(seed: Option<&'a [u8]>) -> (bytes: &'a [u8])
    ensures
        bytes@ == seed_bytes(seed),
{
    match seed {
        Some(bytes) => bytes,
        None => {
            let empty: &'static [u8; 0] = &[];
            assert(empty@ =~= seq![]);
            empty.as_slice()
        },
    }
}

/// Calls `core::str::from_utf8`: the bytes as a string slice if they are
/// well-formed UTF-8, and nothing otherwise.
#[verifier::external_body]
pub(crate) fn utf8_str(bytes: &[u8]) -> (text: Option<&str>)
    ensures
        text is Some <==> valid_utf8(bytes@),
        text matches Some(s) ==> s.spec_bytes() == bytes@,
{
    core::str::from_utf8(bytes).ok()
}

/// The bytes as an owned string, if they are well-formed UTF-8.
pub fn utf8_string(bytes: &[u8]) -> (text: Option<String>)
    ensures
        text is Some <==> valid_utf8(bytes@),
        text matches Some(s) ==> encode_utf8(s@) == bytes@ && s@ == decode_utf8(bytes@),
{
    match utf8_str(bytes) {
        Some(s) => {
            proof {
                vstd::utf8::encode_utf8_decode_utf8(s@);
            }
            Some(String::from_str(s))
        },
        None => None,
    }
}

} // verus!
