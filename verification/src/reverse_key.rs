//! The packed form of a reverse key: two steps to a byte, and for the third
//! version the number of steps in front of each word's steps.

use crate::codec::{base64_bytes, base64_decode, base64_encode, base64_text, MAX_BYTES};
use crate::crypt::DarkstarCrypt;
use crate::envelope::text_result;
use crate::error::DarkstarError;
use vstd::prelude::*;
use vstd::string::*;
use vstd::utf8::encode_utf8;

verus! {

/// The step lists that a vector of vectors holds.
pub open spec fn step_lists(lists: Seq<Vec<usize>>) -> Seq<Seq<usize>> {
    Seq::new(lists.len(), |i: int| lists[i]@)
}

/// The outcome of reading a reverse key, with the step lists as sequences.
pub open spec fn lists_result(r: Result<Vec<Vec<usize>>, DarkstarError>) -> Result<
    Seq<Seq<usize>>,
    DarkstarError,
> {
    match r {
        Ok(lists) => Ok(step_lists(lists@)),
        Err(e) => Err(e),
    }
}

/// The byte that holds `high` in its upper and `low` in its lower four bits;
/// of either only the lowest four bits count.
pub open spec fn nibble_pair(high: usize, low: usize) -> u8 {
    ((high % 16) * 16 + low % 16) as u8
}

/// The steps, two to a byte; a last single step is paired with zero.
pub open spec fn packed_steps(steps: Seq<usize>) -> Seq<u8> {
    Seq::new(
        (steps.len() + 1) / 2,
        |k: int|
            nibble_pair(
                steps[2 * k],
                if 2 * k + 1 < steps.len() {
                    steps[2 * k + 1]
                } else {
                    0
                },
            ),
    )
}

/// The packed steps of one word, for the third version behind the number of
/// steps (its lowest eight bits).
pub open spec fn packed_word(steps: Seq<usize>, is_v3: bool) -> Seq<u8> {
    if is_v3 {
        seq![(steps.len() % 256) as u8] + packed_steps(steps)
    } else {
        packed_steps(steps)
    }
}

/// The packed words of a reverse key, one behind the other.
pub open spec fn packed(lists: Seq<Seq<usize>>, is_v3: bool) -> Seq<u8>
    decreases lists.len(),
{
    if lists.len() == 0 {
        seq![]
    } else {
        packed(lists.drop_last(), is_v3) + packed_word(lists.last(), is_v3)
    }
}

/// The first `count` half-bytes of `bytes`, upper half first.
pub open spec fn nibbles(bytes: Seq<u8>, count: nat) -> Seq<usize> {
    Seq::new(
        count,
        |i: int|
            if i % 2 == 0 {
                (bytes[i / 2] / 16) as usize
            } else {
                (bytes[i / 2] % 16) as usize
            },
    )
}

/// Whether every step is the index of a transform.
pub open spec fn valid_steps(steps: Seq<usize>) -> bool {
    forall|i: int| 0 <= i < steps.len() ==> #[trigger] steps[i] < 12
}

/// Whether the packed form holds the reverse key completely: every step is
/// the index of a transform, and every word has twelve steps, or for the
/// third version at most 255.
pub open spec fn packable(lists: Seq<Seq<usize>>, is_v3: bool) -> bool {
    forall|i: int|
        0 <= i < lists.len() ==> valid_steps(#[trigger] lists[i]) && if is_v3 {
            lists[i].len() <= 255
        } else {
            lists[i].len() == 12
        }
}

/// The reverse key that packed bytes stand for. Each word has twelve steps,
/// or for the third version as many as the byte in front of it says; a half
/// byte that pads an odd number of steps is dropped. None if the bytes end
/// within a word or a step is not the index of a transform.
pub open spec fn unpacked(bytes: Seq<u8>, is_v3: bool) -> Option<Seq<Seq<usize>>>
    decreases bytes.len(),
{
    if bytes.len() == 0 {
        Some(seq![])
    } else {
        let count = if is_v3 {
            bytes[0] as nat
        } else {
            12
        };
        let start: int = if is_v3 {
            1
        } else {
            0
        };
        let end = start + (count + 1) / 2;
        if bytes.len() < end {
            None
        } else {
            let steps = nibbles(bytes.subrange(start, end), count);
            if !valid_steps(steps) {
                None
            } else {
                match unpacked(bytes.subrange(end, bytes.len() as int), is_v3) {
                    Some(rest) => Some(seq![steps] + rest),
                    None => None,
                }
            }
        }
    }
}

/// The text of a packed reverse key. `InvalidReverseKey` if the packed form
/// has more than 2^30 bytes.
pub open spec fn pack_result(lists: Seq<Seq<usize>>, is_v3: bool) -> Result<
    Seq<char>,
    DarkstarError,
> {
    if packed(lists, is_v3).len() <= MAX_BYTES {
        Ok(base64_text(packed(lists, is_v3)))
    } else {
        Err(DarkstarError::InvalidReverseKey)
    }
}

/// The reverse key that a packed text stands for. `InvalidFormat` if the
/// text is not base64, `InvalidReverseKey` if the bytes are no packed key.
pub open spec fn unpack_result(text: Seq<u8>, is_v3: bool) -> Result<
    Seq<Seq<usize>>,
    DarkstarError,
> {
    match base64_bytes(text) {
        Some(bytes) => match unpacked(bytes, is_v3) {
            Some(lists) => Ok(lists),
            None => Err(DarkstarError::InvalidReverseKey),
        },
        None => Err(DarkstarError::InvalidFormat),
    }
}

/// The packed form of a reverse key begins with its first word.
pub proof fn lemma_packed_first(lists: Seq<Seq<usize>>, is_v3: bool)
    requires
        lists.len() > 0,
    ensures
        packed(lists, is_v3) == packed_word(lists[0], is_v3) + packed(lists.drop_first(), is_v3),
    decreases lists.len(),
{
    if lists.len() == 1 {
        assert(lists.drop_last() =~= Seq::<Seq<usize>>::empty());
        assert(lists.drop_first() =~= Seq::<Seq<usize>>::empty());
        assert(packed(lists, is_v3) =~= packed_word(lists[0], is_v3) + packed(
            lists.drop_first(),
            is_v3,
        ));
    } else {
        lemma_packed_first(lists.drop_last(), is_v3);
        assert(lists.drop_last().drop_first() =~= lists.drop_first().drop_last());
        assert(lists.drop_first().last() == lists.last());
        assert(packed(lists, is_v3) =~= packed_word(lists[0], is_v3) + packed(
            lists.drop_first(),
            is_v3,
        ));
    }
}

/// The half-bytes of packed steps are the steps.
pub proof fn lemma_nibbles_packed(steps: Seq<usize>)
    requires
        valid_steps(steps),
    ensures
        nibbles(packed_steps(steps), steps.len()) == steps,
{
    let back = nibbles(packed_steps(steps), steps.len());
    assert forall|i: int| 0 <= i < steps.len() implies back[i] == steps[i] by {
        let k = i / 2;
        assert(steps[2 * k] < 12);
        if 2 * k + 1 < steps.len() {
            assert(steps[2 * k + 1] < 12);
        }
    }
    assert(back =~= steps);
}

/// Unpacking gives back the reverse key that was packed, if the packed form
/// holds it completely.
pub proof fn lemma_unpacked_packed(lists: Seq<Seq<usize>>, is_v3: bool)
    requires
        packable(lists, is_v3),
    ensures
        unpacked(packed(lists, is_v3), is_v3) == Some(lists),
    decreases lists.len(),
{
    if lists.len() == 0 {
    } else {
        lemma_packed_first(lists, is_v3);
        let first = lists[0];
        let rest = lists.drop_first();
        assert(packable(rest, is_v3)) by {
            assert forall|i: int| 0 <= i < rest.len() implies valid_steps(#[trigger] rest[i])
                && if is_v3 {
                rest[i].len() <= 255
            } else {
                rest[i].len() == 12
            } by {
                assert(rest[i] == lists[i + 1]);
            }
        }
        lemma_unpacked_packed(rest, is_v3);
        lemma_nibbles_packed(first);
        let bytes = packed(lists, is_v3);
        let word = packed_word(first, is_v3);
        assert(valid_steps(first));
        let count = first.len();
        let start: int = if is_v3 {
            1
        } else {
            0
        };
        let end = start + (count + 1) / 2;
        assert(word.len() == end);
        assert(bytes.len() >= end);
        if is_v3 {
            assert(bytes[0] == word[0]);
            assert(bytes[0] as nat == count);
        }
        assert(bytes.subrange(start, end) =~= packed_steps(first));
        assert(bytes.subrange(end, bytes.len() as int) =~= packed(rest, is_v3));
        assert(seq![first] + rest =~= lists);
    }
}

/// Packing the half-bytes of whole bytes gives the bytes back.
pub proof fn lemma_packed_nibbles(piece: Seq<u8>)
    ensures
        packed_steps(nibbles(piece, 2 * piece.len())) == piece,
{
    let steps = nibbles(piece, 2 * piece.len());
    let again = packed_steps(steps);
    assert(again.len() == piece.len());
    assert forall|k: int| 0 <= k < piece.len() implies again[k] == piece[k] by {
        let b = piece[k];
        assert(steps[2 * k] == (b / 16) as usize);
        assert(steps[2 * k + 1] == (b % 16) as usize);
        assert(nibble_pair((b / 16) as usize, (b % 16) as usize) == b);
    }
    assert(again =~= piece);
}

/// What is unpacked is held completely by its packed form, so that packing
/// and unpacking it gives it back.
pub proof fn lemma_unpacked_packable(bytes: Seq<u8>, is_v3: bool)
    ensures
        unpacked(bytes, is_v3) matches Some(lists) ==> packable(lists, is_v3) && unpacked(
            packed(lists, is_v3),
            is_v3,
        ) == Some(lists),
    decreases bytes.len(),
{
    if let Some(lists) = unpacked(bytes, is_v3) {
        if bytes.len() > 0 {
            let count = if is_v3 {
                bytes[0] as nat
            } else {
                12
            };
            let start: int = if is_v3 {
                1
            } else {
                0
            };
            let end = start + (count + 1) / 2;
            let steps = nibbles(bytes.subrange(start, end), count);
            let tail = bytes.subrange(end, bytes.len() as int);
            lemma_unpacked_packable(tail, is_v3);
            let rest = unpacked(tail, is_v3).unwrap();
            assert(lists == seq![steps] + rest);
            assert forall|i: int| 0 <= i < lists.len() implies valid_steps(#[trigger] lists[i])
                && if is_v3 {
                lists[i].len() <= 255
            } else {
                lists[i].len() == 12
            } by {
                if i > 0 {
                    assert(lists[i] == rest[i - 1]);
                } else {
                    assert(lists[i] == steps);
                }
            }
        }
        lemma_unpacked_packed(lists, is_v3);
    }
}

/// Packing what was unpacked from bytes of the second version gives those
/// bytes back.
pub proof fn lemma_packed_unpacked(bytes: Seq<u8>)
    ensures
        unpacked(bytes, false) matches Some(lists) ==> packed(lists, false) == bytes,
    decreases bytes.len(),
{
    if let Some(lists) = unpacked(bytes, false) {
        if bytes.len() == 0 {
            assert(packed(lists, false) =~= bytes);
        } else {
            let piece = bytes.subrange(0, 6);
            let steps = nibbles(piece, 12);
            let tail = bytes.subrange(6, bytes.len() as int);
            lemma_packed_unpacked(tail);
            let rest = unpacked(tail, false).unwrap();
            assert(lists == seq![steps] + rest);
            assert(lists.drop_first() =~= rest);
            assert(lists[0] == steps);
            lemma_packed_first(lists, false);
            lemma_packed_nibbles(piece);
            assert(piece + tail =~= bytes);
        }
    }
}

/// Whether the lists are what planning yields: every step is the index of a
/// transform and every list has between 12 and 64 steps, exactly 12 unless
/// the third version planned it.
pub open spec fn planned(lists: Seq<Seq<usize>>, is_v3: bool) -> bool {
    forall|i: int|
        0 <= i < lists.len() ==> {
            &&& valid_steps(#[trigger] lists[i])
            &&& 12 <= lists[i].len() <= 64
            &&& (!is_v3 ==> lists[i].len() == 12)
        }
}

/// The packed form of planned lists holds no closing bracket, the byte 93:
/// neither as a number of steps nor as a pair of steps.
pub proof fn lemma_packed_no_bracket(lists: Seq<Seq<usize>>, is_v3: bool)
    requires
        planned(lists, is_v3),
    ensures
        forall|k: int|
            0 <= k < packed(lists, is_v3).len() ==> #[trigger] packed(lists, is_v3)[k] != 93,
    decreases lists.len(),
{
    if lists.len() > 0 {
        let front = lists.drop_last();
        assert(planned(front, is_v3)) by {
            assert forall|i: int| 0 <= i < front.len() implies {
                &&& valid_steps(#[trigger] front[i])
                &&& 12 <= front[i].len() <= 64
                &&& (!is_v3 ==> front[i].len() == 12)
            } by {
                assert(front[i] == lists[i]);
            }
        }
        lemma_packed_no_bracket(front, is_v3);
        let steps = lists.last();
        assert(steps == lists[lists.len() - 1]);
        assert(valid_steps(steps));
        let body = packed_steps(steps);
        assert forall|k: int| 0 <= k < body.len() implies #[trigger] body[k] != 93 by {
            assert(steps[2 * k] < 12);
            if 2 * k + 1 < steps.len() {
                assert(steps[2 * k + 1] < 12);
            }
        }
        let word = packed_word(steps, is_v3);
        assert forall|k: int| 0 <= k < word.len() implies #[trigger] word[k] != 93 by {
            if is_v3 {
                if k > 0 {
                    assert(word[k] == body[k - 1]);
                }
            }
        }
        let all = packed(lists, is_v3);
        let head = packed(front, is_v3);
        assert forall|k: int| 0 <= k < all.len() implies #[trigger] all[k] != 93 by {
            if k < head.len() {
                assert(all[k] == head[k]);
            } else {
                assert(all[k] == word[k - head.len()]);
            }
        }
    }
}

/// Planned lists are held completely by their packed form.
pub proof fn lemma_planned_packable(lists: Seq<Seq<usize>>, is_v3: bool)
    requires
        planned(lists, is_v3),
    ensures
        packable(lists, is_v3),
{
    assert forall|i: int| 0 <= i < lists.len() implies valid_steps(#[trigger] lists[i]) && if is_v3 {
        lists[i].len() <= 255
    } else {
        lists[i].len() == 12
    } by {
        assert(12 <= lists[i].len() <= 64);
    }
}

/// Packs the steps of one word onto `out`.
fn pack_word(out: &mut Vec<u8>, steps: &Vec<usize>, is_v3: bool)
    ensures
        final(out)@ == old(out)@ + packed_word(steps@, is_v3),
{
    let ghost start = out@;
    let n = steps.len();
    if is_v3 {
        out.push((n % 256) as u8);
    }
    let ghost head = out@;
    let ghost body = packed_steps(steps@);
    let pairs = n / 2 + n % 2;
    let mut k: usize = 0;
    while k < pairs
        invariant
            k <= pairs,
            n == steps@.len(),
            pairs == (n + 1) / 2,
            body == packed_steps(steps@),
            out@ == head + body.take(k as int),
        decreases pairs - k,
    {
        let high = steps[2 * k];
        let low = if n - 2 * k > 1 {
            steps[2 * k + 1]
        } else {
            0
        };
        let b = ((high % 16) * 16 + low % 16) as u8;
        out.push(b);
        proof {
            assert(head + body.take(k + 1) =~= (head + body.take(k as int)).push(b));
        }
        k = k + 1;
    }
    proof {
        assert(body.take(pairs as int) =~= body);
        if is_v3 {
            assert(head + body =~= start + (seq![(n % 256) as u8] + body));
        }
    }
}

/// The bytes of a reverse key in packed form, if they are at most 2^30.
fn pack_bytes(reverse_key: &Vec<Vec<usize>>, is_v3: bool) -> (bytes: Option<Vec<u8>>)
    ensures
        match bytes {
            Some(b) => b@ == packed(step_lists(reverse_key@), is_v3) && b@.len() <= MAX_BYTES,
            None => packed(step_lists(reverse_key@), is_v3).len() > MAX_BYTES,
        },
{
    let ghost lists = step_lists(reverse_key@);
    let mut buffer: Vec<u8> = Vec::new();
    let mut i: usize = 0;
    while i < reverse_key.len()
        invariant
            i <= reverse_key.len(),
            lists == step_lists(reverse_key@),
            buffer@ == packed(lists.take(i as int), is_v3),
            buffer@.len() <= MAX_BYTES,
        decreases reverse_key.len() - i,
    {
        let word = &reverse_key[i];
        proof {
            assert(lists.take(i + 1).drop_last() =~= lists.take(i as int));
            assert(lists.take(i + 1).last() == word@);
        }
        let size = word.len() / 2 + word.len() % 2 + if is_v3 {
            1usize
        } else {
            0usize
        };
        proof {
            assert(packed_word(word@, is_v3).len() == size);
        }
        if size > MAX_BYTES - buffer.len() {
            proof {
                lemma_packed_len(lists, is_v3, i + 1);
            }
            return None;
        }
        pack_word(&mut buffer, word, is_v3);
        i = i + 1;
    }
    proof {
        assert(lists.take(i as int) =~= lists);
    }
    Some(buffer)
}

/// The packed form grows with the reverse key.
pub proof fn lemma_packed_len(lists: Seq<Seq<usize>>, is_v3: bool, k: int)
    requires
        0 <= k <= lists.len(),
    ensures
        packed(lists.take(k), is_v3).len() <= packed(lists, is_v3).len(),
    decreases lists.len(),
{
    if k == lists.len() {
        assert(lists.take(k) =~= lists);
    } else {
        assert(lists.drop_last().take(k) =~= lists.take(k));
        lemma_packed_len(lists.drop_last(), is_v3, k);
    }
}

/// Reads the steps of one word of `count` steps from `bytes`.
fn unpack_word(bytes: &[u8], count: usize) -> (steps: Option<Vec<usize>>)
    requires
        bytes@.len() == (count + 1) / 2,
    ensures
        steps is Some <==> valid_steps(nibbles(bytes@, count as nat)),
        steps matches Some(s) ==> s@ == nibbles(bytes@, count as nat),
{
    let ghost all = nibbles(bytes@, count as nat);
    let mut steps: Vec<usize> = Vec::new();
    let mut i: usize = 0;
    while i < count
        invariant
            i <= count,
            bytes@.len() == (count + 1) / 2,
            all == nibbles(bytes@, count as nat),
            steps@ == all.take(i as int),
            valid_steps(all.take(i as int)),
        decreases count - i,
    {
        let b = bytes[i / 2];
        let step = if i % 2 == 0 {
            (b / 16) as usize
        } else {
            (b % 16) as usize
        };
        proof {
            assert(all[i as int] == step);
        }
        if step >= 12 {
            return None;
        }
        steps.push(step);
        proof {
            assert(all.take(i + 1) =~= all.take(i as int).push(step));
            assert forall|k: int| 0 <= k < all.take(i + 1).len() implies #[trigger] all.take(
                i + 1,
            )[k] < 12 by {
                if k < i {
                    assert(all.take(i + 1)[k] == all.take(i as int)[k]);
                }
            }
        }
        i = i + 1;
    }
    proof {
        assert(all.take(count as int) =~= all);
    }
    Some(steps)
}

/// Reads a reverse key from its packed bytes.
pub fn unpack_bytes(bytes: &[u8], is_v3: bool) -> (lists: Option<Vec<Vec<usize>>>)
    ensures
        lists is Some <==> unpacked(bytes@, is_v3) is Some,
        lists matches Some(l) ==> unpacked(bytes@, is_v3) == Some(step_lists(l@)),
{
    let mut reverse_key: Vec<Vec<usize>> = Vec::new();
    let mut offset: usize = 0;
    proof {
        assert(bytes@.subrange(0, bytes@.len() as int) =~= bytes@);
        match unpacked(bytes@, is_v3) {
            Some(rest) => {
                assert(step_lists(reverse_key@) + rest =~= rest);
            },
            None => {},
        }
    }
    while offset < bytes.len()
        invariant
            offset <= bytes@.len(),
            unpacked(bytes@, is_v3) == match unpacked(
                bytes@.subrange(offset as int, bytes@.len() as int),
                is_v3,
            ) {
                Some(rest) => Some(step_lists(reverse_key@) + rest),
                None => None,
            },
        decreases bytes@.len() - offset,
    {
        let ghost tail = bytes@.subrange(offset as int, bytes@.len() as int);
        let ghost done = step_lists(reverse_key@);
        let count: usize = if is_v3 {
            bytes[offset] as usize
        } else {
            12
        };
        let start: usize = if is_v3 {
            offset + 1
        } else {
            offset
        };
        let size = (count + 1) / 2;
        proof {
            assert(tail[0] == bytes@[offset as int]);
        }
        if bytes.len() - start < size {
            return None;
        }
        let piece = vstd::slice::slice_subrange(bytes, start, start + size);
        proof {
            assert(piece@ =~= tail.subrange(start - offset, start - offset + size));
            assert(tail.subrange(start - offset + size, tail.len() as int) =~= bytes@.subrange(
                start + size,
                bytes@.len() as int,
            ));
        }
        let steps = match unpack_word(piece, count) {
            Some(steps) => steps,
            None => {
                return None;
            },
        };
        let ghost word = steps@;
        reverse_key.push(steps);
        proof {
            assert(step_lists(reverse_key@) =~= done.push(word));
            match unpacked(bytes@.subrange(start + size, bytes@.len() as int), is_v3) {
                Some(rest) => {
                    assert(done + (seq![word] + rest) =~= done.push(word) + rest);
                },
                None => {},
            }
        }
        offset = start + size;
    }
    proof {
        assert(step_lists(reverse_key@) + Seq::<Seq<usize>>::empty() =~= step_lists(
            reverse_key@,
        ));
    }
    Some(reverse_key)
}

impl DarkstarCrypt {
    /// The reverse key in packed form, as base64 text. Of each step only the
    /// lowest four bits are kept, of each number of steps the lowest eight.
    /// If the packed form holds the key completely, unpacking the text gives
    /// the key back.
    pub fn pack_reverse_key(reverse_key: &Vec<Vec<usize>>, is_v3: bool) -> (r: Result<
        String,
        DarkstarError,
    >)
        ensures
            text_result(r) == pack_result(step_lists(reverse_key@), is_v3),
            r matches Ok(text) ==> base64_bytes(encode_utf8(text@)) == Some(
                packed(step_lists(reverse_key@), is_v3),
            ),
            r matches Ok(text) ==> packable(step_lists(reverse_key@), is_v3) ==> unpack_result(
                encode_utf8(text@),
                is_v3,
            ) == Ok::<Seq<Seq<usize>>, DarkstarError>(step_lists(reverse_key@)),
    {
        match pack_bytes(reverse_key, is_v3) {
            Some(bytes) => {
                proof {
                    if packable(step_lists(reverse_key@), is_v3) {
                        lemma_unpacked_packed(step_lists(reverse_key@), is_v3);
                    }
                }
                Ok(base64_encode(bytes.as_slice()))
            },
            None => Err(DarkstarError::InvalidReverseKey),
        }
    }

    /// The reverse key that a packed base64 text stands for. `InvalidFormat`
    /// if the text is not base64; `InvalidReverseKey` if the bytes end within
    /// a word (for the second version: if their number is no multiple of
    /// six) or a step is not the index of a transform.
    pub fn unpack_reverse_key(b64: &str, is_v3: bool) -> (r: Result<Vec<Vec<usize>>, DarkstarError>)
        ensures
            lists_result(r) == unpack_result(b64.spec_bytes(), is_v3),
    {
        let bytes = match base64_decode(b64.as_bytes()) {
            Some(bytes) => bytes,
            None => {
                return Err(DarkstarError::InvalidFormat);
            },
        };
        match unpack_bytes(bytes.as_slice(), is_v3) {
            Some(lists) => Ok(lists),
            None => Err(DarkstarError::InvalidReverseKey),
        }
    }
}

} // verus!
