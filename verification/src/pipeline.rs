//! The passage of one word through its step list, forward and backward.

use crate::crypt::DarkstarCrypt;
use crate::error::{bytes_result, DarkstarError};
use crate::text::{digits, lemma_digits_valid, push_digits, seed_bytes};
use crate::transform::{lemma_forward_succeeds, lemma_transform_round_trip, Transform};
use vstd::utf8::valid_utf8;
use vstd::arithmetic::div_mod::lemma_add_mod_noop;
use vstd::prelude::*;

verus! {

/// The sum of the numbers.
pub open spec fn total(numbers: Seq<usize>) -> nat
    decreases numbers.len(),
{
    if numbers.len() == 0 {
        0
    } else {
        total(numbers.drop_last()) + numbers.last() as nat
    }
}

/// The checksum of the numbers: their sum modulo 997.
pub open spec fn checksum(numbers: Seq<usize>) -> nat {
    total(numbers) % 997
}

/// The first twelve steps of a step list, or all of a shorter one.
pub open spec fn leading_steps(steps: Seq<usize>) -> Seq<usize> {
    if steps.len() <= 12 {
        steps
    } else {
        steps.take(12)
    }
}

/// The seed that the seeded transforms of a word are given: the password,
/// followed by the decimal digits of the checksum of the first twelve steps.
pub open spec fn combined_seed(password: Seq<u8>, steps: Seq<usize>) -> Seq<u8> {
    password + digits(checksum(leading_steps(steps)), 10)
}

/// What the step with the given index makes of `input`. A seeded transform
/// is given the seed, any other an empty one. `InvalidReverseKey` if the
/// index names no transform.
pub open spec fn step_forward(index: usize, input: Seq<u8>, seed: Seq<u8>, is_v3: bool) -> Result<
    Seq<u8>,
    DarkstarError,
> {
    match Transform::at(index as int) {
        Some(t) => t.forward(
            input,
            if t.is_seeded() {
                seed
            } else {
                seq![]
            },
            is_v3,
        ),
        None => Err(DarkstarError::InvalidReverseKey),
    }
}

/// What the inverse of the step with the given index makes of `input`.
pub open spec fn step_backward(index: usize, input: Seq<u8>, seed: Seq<u8>, is_v3: bool) -> Result<
    Seq<u8>,
    DarkstarError,
> {
    match Transform::at(index as int) {
        Some(t) => t.inverse(
            input,
            if t.is_seeded() {
                seed
            } else {
                seq![]
            },
            is_v3,
        ),
        None => Err(DarkstarError::InvalidReverseKey),
    }
}

/// The steps applied to `input` from the first to the last; the first
/// failure ends the run.
pub open spec fn run_forward(input: Seq<u8>, steps: Seq<usize>, seed: Seq<u8>, is_v3: bool) -> Result<
    Seq<u8>,
    DarkstarError,
>
    decreases steps.len(),
{
    if steps.len() == 0 {
        Ok(input)
    } else {
        match run_forward(input, steps.drop_last(), seed, is_v3) {
            Ok(mid) => step_forward(steps.last(), mid, seed, is_v3),
            Err(e) => Err(e),
        }
    }
}

/// The inverses of the steps applied to `input` from the last step to the
/// first; the first failure ends the run.
pub open spec fn run_backward(input: Seq<u8>, steps: Seq<usize>, seed: Seq<u8>, is_v3: bool) -> Result<
    Seq<u8>,
    DarkstarError,
>
    decreases steps.len(),
{
    if steps.len() == 0 {
        Ok(input)
    } else {
        match step_backward(steps.last(), input, seed, is_v3) {
            Ok(mid) => run_backward(mid, steps.drop_last(), seed, is_v3),
            Err(e) => Err(e),
        }
    }
}

/// What a word becomes under its step list and the password.
pub open spec fn obfuscated(word: Seq<u8>, steps: Seq<usize>, password: Seq<u8>, is_v3: bool) -> Result<
    Seq<u8>,
    DarkstarError,
> {
    run_forward(word, steps, combined_seed(password, steps), is_v3)
}

/// The word that became `bytes` under the step list and the password.
pub open spec fn deobfuscated(
    bytes: Seq<u8>,
    steps: Seq<usize>,
    password: Seq<u8>,
    is_v3: bool,
) -> Result<Seq<u8>, DarkstarError> {
    run_backward(bytes, steps, combined_seed(password, steps), is_v3)
}

/// A run that has failed after some of the steps has failed.
pub proof fn lemma_run_forward_fails(
    input: Seq<u8>,
    steps: Seq<usize>,
    seed: Seq<u8>,
    is_v3: bool,
    k: int,
)
    requires
        0 <= k <= steps.len(),
        run_forward(input, steps.take(k), seed, is_v3) is Err,
    ensures
        run_forward(input, steps, seed, is_v3) == run_forward(input, steps.take(k), seed, is_v3),
    decreases steps.len(),
{
    if k == steps.len() {
        assert(steps.take(k) =~= steps);
    } else {
        assert(steps.drop_last().take(k) =~= steps.take(k));
        lemma_run_forward_fails(input, steps.drop_last(), seed, is_v3, k);
    }
}

/// A word is obfuscated without failure if the password is UTF-8 and every
/// step is the index of a transform.
pub proof fn lemma_obfuscated_succeeds(
    word: Seq<u8>,
    steps: Seq<usize>,
    password: Seq<u8>,
    is_v3: bool,
)
    requires
        valid_utf8(password),
        forall|i: int| 0 <= i < steps.len() ==> #[trigger] steps[i] < 12,
    ensures
        obfuscated(word, steps, password, is_v3) is Ok,
{
    let seed = combined_seed(password, steps);
    lemma_digits_valid(checksum(leading_steps(steps)), 10);
    vstd::utf8::valid_utf8_concat(password, digits(checksum(leading_steps(steps)), 10));
    lemma_run_forward_succeeds(word, steps, seed, is_v3);
}

/// A forward run does not fail if the seed is UTF-8 and every step is the
/// index of a transform.
pub proof fn lemma_run_forward_succeeds(
    input: Seq<u8>,
    steps: Seq<usize>,
    seed: Seq<u8>,
    is_v3: bool,
)
    requires
        valid_utf8(seed),
        forall|i: int| 0 <= i < steps.len() ==> #[trigger] steps[i] < 12,
    ensures
        run_forward(input, steps, seed, is_v3) is Ok,
    decreases steps.len(),
{
    if steps.len() > 0 {
        let front = steps.drop_last();
        assert forall|i: int| 0 <= i < front.len() implies #[trigger] front[i] < 12 by {
            assert(front[i] == steps[i]);
        }
        lemma_run_forward_succeeds(input, front, seed, is_v3);
        let mid = run_forward(input, front, seed, is_v3).unwrap();
        assert(steps[steps.len() - 1] < 12);
        let t = Transform::at(steps.last() as int).unwrap();
        if t.is_seeded() {
            lemma_forward_succeeds(t, mid, seed, is_v3);
        } else {
            lemma_forward_succeeds(t, mid, seq![], is_v3);
        }
    }
}

/// The backward run undoes the forward run: if the steps turn `input` into
/// an output, then their inverses, from the last to the first and under the
/// same seed, turn that output into `input`.
pub proof fn lemma_run_round_trip(input: Seq<u8>, steps: Seq<usize>, seed: Seq<u8>, is_v3: bool)
    ensures
        run_forward(input, steps, seed, is_v3) matches Ok(output) ==> run_backward(
            output,
            steps,
            seed,
            is_v3,
        ) == Ok::<Seq<u8>, DarkstarError>(input),
    decreases steps.len(),
{
    if steps.len() > 0 {
        lemma_run_round_trip(input, steps.drop_last(), seed, is_v3);
        if let Ok(mid) = run_forward(input, steps.drop_last(), seed, is_v3) {
            if let Some(t) = Transform::at(steps.last() as int) {
                lemma_transform_round_trip(
                    t,
                    mid,
                    if t.is_seeded() {
                        seed
                    } else {
                        seq![]
                    },
                    is_v3,
                );
            }
        }
    }
}

/// A word that was obfuscated is recovered from the result by the same step
/// list and password.
pub proof fn lemma_word_round_trip(
    word: Seq<u8>,
    steps: Seq<usize>,
    password: Seq<u8>,
    is_v3: bool,
)
    ensures
        obfuscated(word, steps, password, is_v3) matches Ok(bytes) ==> deobfuscated(
            bytes,
            steps,
            password,
            is_v3,
        ) == Ok::<Seq<u8>, DarkstarError>(word),
{
    lemma_run_round_trip(word, steps, combined_seed(password, steps), is_v3);
}

impl DarkstarCrypt {
    /// The checksum of the numbers: their sum modulo 997, and `0` for none.
    pub fn generate_checksum(numbers: &[usize]) -> (sum: usize)
        ensures
            sum == checksum(numbers@),
    {
        let mut acc: usize = 0;
        let mut i: usize = 0;
        while i < numbers.len()
            invariant
                i <= numbers.len(),
                acc < 997,
                acc == total(numbers@.take(i as int)) % 997,
            decreases numbers.len() - i,
        {
            let ghost before = total(numbers@.take(i as int));
            proof {
                assert(numbers@.take(i + 1).drop_last() =~= numbers@.take(i as int));
                lemma_add_mod_noop(before as int, numbers@[i as int] as int, 997);
            }
            acc = (acc + numbers[i] % 997) % 997;
            i = i + 1;
        }
        proof {
            assert(numbers@.take(i as int) =~= numbers@);
        }
        acc
    }

    /// The seed for the seeded transforms of a word.
    pub fn word_seed(password: &[u8], steps: &[usize]) -> (seed: Vec<u8>)
        ensures
            seed@ == combined_seed(password@, steps@),
    {
        let sum = if steps.len() <= 12 {
            Self::generate_checksum(steps)
        } else {
            let (first, _) = steps.split_at(12);
            proof {
                assert(first@ =~= steps@.take(12));
            }
            Self::generate_checksum(first)
        };
        let mut seed: Vec<u8> = Vec::new();
        seed.extend_from_slice(password);
        proof {
            assert(seed@ =~= password@);
        }
        push_digits(&mut seed, sum as u32, 10);
        seed
    }

    /// Passes a word through its step list, from the first step to the last.
    /// An index in `steps` that names no transform gives `InvalidReverseKey`,
    /// a password that is not UTF-8 `InvalidFormat`.
    pub fn obfuscate_word(&self, word: &[u8], steps: &[usize], password: &[u8], is_v3: bool) -> (r:
        Result<Vec<u8>, DarkstarError>)
        ensures
            bytes_result(r) == obfuscated(word@, steps@, password@, is_v3),
    {
        let seed = Self::word_seed(password, steps);
        let mut current: Vec<u8> = Vec::new();
        current.extend_from_slice(word);
        proof {
            assert(current@ =~= word@);
            assert(steps@.take(0) =~= Seq::<usize>::empty());
        }
        let mut i: usize = 0;
        while i < steps.len()
            invariant
                i <= steps.len(),
                seed@ == combined_seed(password@, steps@),
                run_forward(word@, steps@.take(i as int), seed@, is_v3) == Ok::<
                    Seq<u8>,
                    DarkstarError,
                >(current@),
            decreases steps.len() - i,
        {
            let index = steps[i];
            proof {
                assert(steps@.take(i + 1).drop_last() =~= steps@.take(i as int));
                assert(steps@.take(i + 1).last() == index);
            }
            let next = match self.transform_at(index) {
                Some(t) => {
                    if index >= 6 {
                        t.apply(current.as_slice(), Some(seed.as_slice()), is_v3)
                    } else {
                        t.apply(current.as_slice(), None, is_v3)
                    }
                },
                None => Err(DarkstarError::InvalidReverseKey),
            };
            match next {
                Ok(bytes) => {
                    current = bytes;
                },
                Err(e) => {
                    proof {
                        lemma_run_forward_fails(word@, steps@, seed@, is_v3, i + 1);
                    }
                    return Err(e);
                },
            }
            i = i + 1;
        }
        proof {
            assert(steps@.take(i as int) =~= steps@);
        }
        Ok(current)
    }

    /// Passes the bytes of an obfuscated word back through its step list,
    /// from the last step to the first. An index in `steps` that names no
    /// transform gives `InvalidReverseKey`, bytes that an inverse cannot read
    /// `PipelineError`, a password that is not UTF-8 `InvalidFormat`.
    pub fn deobfuscate_word(&self, bytes: &[u8], steps: &[usize], password: &[u8], is_v3: bool) -> (r:
        Result<Vec<u8>, DarkstarError>)
        ensures
            bytes_result(r) == deobfuscated(bytes@, steps@, password@, is_v3),
    {
        let seed = Self::word_seed(password, steps);
        let mut current: Vec<u8> = Vec::new();
        current.extend_from_slice(bytes);
        proof {
            assert(current@ =~= bytes@);
            assert(steps@.take(steps@.len() as int) =~= steps@);
        }
        let mut k: usize = steps.len();
        while k > 0
            invariant
                k <= steps.len(),
                seed@ == combined_seed(password@, steps@),
                run_backward(bytes@, steps@, seed@, is_v3) == run_backward(
                    current@,
                    steps@.take(k as int),
                    seed@,
                    is_v3,
                ),
            decreases k,
        {
            let index = steps[k - 1];
            proof {
                assert(steps@.take(k as int).drop_last() =~= steps@.take(k - 1));
                assert(steps@.take(k as int).last() == index);
            }
            let next = match self.transform_at(index) {
                Some(t) => {
                    if index >= 6 {
                        t.invert(current.as_slice(), Some(seed.as_slice()), is_v3)
                    } else {
                        t.invert(current.as_slice(), None, is_v3)
                    }
                },
                None => Err(DarkstarError::InvalidReverseKey),
            };
            match next {
                Ok(bytes) => {
                    current = bytes;
                },
                Err(e) => {
                    return Err(e);
                },
            }
            k = k - 1;
        }
        proof {
            assert(steps@.take(0) =~= Seq::<usize>::empty());
        }
        Ok(current)
    }
}

} // verus!
