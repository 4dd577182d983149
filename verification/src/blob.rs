//! The blob that carries the obfuscated words: for each word a record of its
//! length, as two bytes with the high byte first, and its bytes.

use crate::codec::MAX_BYTES;
use crate::error::{bytes_result, DarkstarError};
use crate::text::byte_lists;
use vstd::prelude::*;
use vstd::slice::slice_subrange;

verus! {

/// The longest word that a record can hold.
pub const MAX_WORD_BYTES: usize = 65535;

/// The record of one word.
pub open spec fn record(word: Seq<u8>) -> Seq<u8> {
    seq![(word.len() / 256) as u8, (word.len() % 256) as u8] + word
}

/// The records of the words, one behind the other.
pub open spec fn framed(words: Seq<Seq<u8>>) -> Seq<u8>
    decreases words.len(),
{
    if words.len() == 0 {
        seq![]
    } else {
        framed(words.drop_last()) + record(words.last())
    }
}

/// Whether every word fits a record.
pub open spec fn words_fit(words: Seq<Seq<u8>>) -> bool {
    forall|i: int| 0 <= i < words.len() ==> (#[trigger] words[i]).len() <= MAX_WORD_BYTES
}

/// The blob of the words. `PipelineError` if a word has more than 65535 bytes
/// or the blob would have more than 2^30.
pub open spec fn frame_result(words: Seq<Seq<u8>>) -> Result<Seq<u8>, DarkstarError> {
    if words_fit(words) && framed(words).len() <= MAX_BYTES {
        Ok(framed(words))
    } else {
        Err(DarkstarError::PipelineError)
    }
}

/// The words of the leading records of `blob`, at most `limit` of them.
/// Reading ends where the blob does, or before a record that the blob does
/// not hold completely.
pub open spec fn unframed(blob: Seq<u8>, limit: nat) -> Seq<Seq<u8>>
    decreases limit,
{
    if limit == 0 || blob.len() < 2 {
        seq![]
    } else {
        let len = blob[0] as int * 256 + blob[1] as int;
        if blob.len() < 2 + len {
            seq![]
        } else {
            seq![blob.subrange(2, 2 + len)] + unframed(
                blob.subrange(2 + len, blob.len() as int),
                (limit - 1) as nat,
            )
        }
    }
}

/// A blob grows with its words.
pub proof fn lemma_framed_len(words: Seq<Seq<u8>>, k: int)
    requires
        0 <= k <= words.len(),
    ensures
        framed(words.take(k)).len() <= framed(words).len(),
        framed(words).len() >= 2 * words.len(),
    decreases words.len(),
{
    if words.len() > 0 {
        lemma_framed_len(words.drop_last(), if k == words.len() { k - 1 } else { k });
        if k == words.len() {
            assert(words.take(k) =~= words);
        } else {
            assert(words.drop_last().take(k) =~= words.take(k));
        }
    } else {
        assert(words.take(k) =~= words);
    }
}

/// The blob of a list of words begins with the record of the first.
pub proof fn lemma_framed_first(words: Seq<Seq<u8>>)
    requires
        words.len() > 0,
    ensures
        framed(words) == record(words[0]) + framed(words.drop_first()),
    decreases words.len(),
{
    if words.len() == 1 {
        assert(words.drop_last() =~= Seq::<Seq<u8>>::empty());
        assert(words.drop_first() =~= Seq::<Seq<u8>>::empty());
        assert(framed(words) =~= record(words[0]) + framed(words.drop_first()));
    } else {
        lemma_framed_first(words.drop_last());
        assert(words.drop_last().drop_first() =~= words.drop_first().drop_last());
        assert(words.drop_first().last() == words.last());
        assert(framed(words) =~= record(words[0]) + framed(words.drop_first()));
    }
}

/// Reading a blob gives back the words that it was made of, if each of them
/// fits a record.
pub proof fn lemma_unframed_framed(words: Seq<Seq<u8>>)
    requires
        words_fit(words),
    ensures
        unframed(framed(words), words.len()) == words,
    decreases words.len(),
{
    if words.len() == 0 {
        assert(unframed(framed(words), 0) =~= words);
    } else {
        lemma_framed_first(words);
        let first = words[0];
        let rest = words.drop_first();
        assert(words_fit(rest)) by {
            assert forall|i: int| 0 <= i < rest.len() implies (#[trigger] rest[i]).len()
                <= MAX_WORD_BYTES by {
                assert(rest[i] == words[i + 1]);
            }
        }
        lemma_unframed_framed(rest);
        let blob = framed(words);
        let n = first.len() as int;
        assert(n <= MAX_WORD_BYTES);
        assert(blob[0] == (n / 256) as u8);
        assert(blob[1] == (n % 256) as u8);
        assert(blob[0] as int * 256 + blob[1] as int == n);
        assert(blob.subrange(2, 2 + n) =~= first);
        assert(blob.subrange(2 + n, blob.len() as int) =~= framed(rest));
        assert(seq![first] + rest =~= words);
    }
}

/// Frames the words into a blob.
pub fn frame(words: &Vec<Vec<u8>>) -> (r: Result<Vec<u8>, DarkstarError>)
    ensures
        bytes_result(r) == frame_result(byte_lists(words@)),
{
    let ghost all = byte_lists(words@);
    let mut blob: Vec<u8> = Vec::new();
    let mut i: usize = 0;
    while i < words.len()
        invariant
            i <= words.len(),
            all == byte_lists(words@),
            blob@ == framed(all.take(i as int)),
            blob@.len() <= MAX_BYTES,
            words_fit(all.take(i as int)),
        decreases words.len() - i,
    {
        let word = &words[i];
        let len = word.len();
        proof {
            assert(all.take(i + 1).drop_last() =~= all.take(i as int));
            assert(all.take(i + 1).last() == word@);
            assert(all[i as int] == word@);
        }
        if len > MAX_WORD_BYTES {
            return Err(DarkstarError::PipelineError);
        }
        if blob.len() + 2 + len > MAX_BYTES {
            proof {
                lemma_framed_len(all, i + 1);
            }
            return Err(DarkstarError::PipelineError);
        }
        let ghost before = blob@;
        blob.push((len / 256) as u8);
        blob.push((len % 256) as u8);
        blob.extend_from_slice(word.as_slice());
        proof {
            assert(blob@ =~= before + record(word@));
            assert forall|k: int| 0 <= k < all.take(i + 1).len() implies (#[trigger] all.take(
                i + 1,
            )[k]).len() <= MAX_WORD_BYTES by {
                if k < i {
                    assert(all.take(i + 1)[k] == all.take(i as int)[k]);
                }
            }
        }
        i = i + 1;
    }
    proof {
        assert(all.take(i as int) =~= all);
    }
    Ok(blob)
}

/// Reads the words of the leading records of `blob`, at most `limit`.
pub fn unframe(blob: &[u8], limit: usize) -> (words: Vec<Vec<u8>>)
    ensures
        byte_lists(words@) == unframed(blob@, limit as nat),
{
    let mut words: Vec<Vec<u8>> = Vec::new();
    let mut offset: usize = 0;
    proof {
        assert(blob@.subrange(0, blob@.len() as int) =~= blob@);
        assert(byte_lists(words@) + unframed(blob@, limit as nat) =~= unframed(
            blob@,
            limit as nat,
        ));
    }
    loop
        invariant
            offset <= blob@.len(),
            words@.len() <= limit,
            unframed(blob@, limit as nat) == byte_lists(words@) + unframed(
                blob@.subrange(offset as int, blob@.len() as int),
                (limit - words@.len()) as nat,
            ),
        ensures
            byte_lists(words@) == unframed(blob@, limit as nat),
        decreases blob@.len() - offset, limit - words@.len(),
    {
        let ghost rest = blob@.subrange(offset as int, blob@.len() as int);
        let ghost done = byte_lists(words@);
        if words.len() >= limit || blob.len() - offset < 2 {
            proof {
                assert(done + Seq::<Seq<u8>>::empty() =~= done);
            }
            break ;
        }
        let len = blob[offset] as usize * 256 + blob[offset + 1] as usize;
        proof {
            assert(rest[0] == blob@[offset as int]);
            assert(rest[1] == blob@[offset + 1]);
        }
        if blob.len() - offset - 2 < len {
            proof {
                assert(done + Seq::<Seq<u8>>::empty() =~= done);
            }
            break ;
        }
        let piece = slice_subrange(blob, offset + 2, offset + 2 + len);
        let mut word: Vec<u8> = Vec::new();
        word.extend_from_slice(piece);
        proof {
            assert(word@ =~= rest.subrange(2, 2 + len));
            assert(rest.subrange(2 + len, rest.len() as int) =~= blob@.subrange(
                offset + 2 + len,
                blob@.len() as int,
            ));
        }
        words.push(word);
        proof {
            let tail = unframed(
                blob@.subrange(offset + 2 + len, blob@.len() as int),
                (limit - words@.len()) as nat,
            );
            assert(byte_lists(words@) =~= done.push(word@));
            assert(done + (seq![word@] + tail) =~= done.push(word@) + tail);
        }
        offset = offset + 2 + len;
    }
    words
}

} // verus!
