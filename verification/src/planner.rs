//! The choice of the transforms that a word goes through: which, in what
//! order, and how many.

use crate::error::DarkstarError;
use crate::hash::{sha256, sha256_digest};
use crate::prng::PrngState;
use crate::seeded::{seed_state, seeded_rng};
use crate::shuffle::{iota, lemma_fisher_yates_order, shuffle, shuffled, swaps};
use vstd::prelude::*;

verus! {

/// The twelve transform indices in order.
pub open spec fn positions() -> Seq<usize> {
    Seq::new(12, |i: int| i as usize)
}

/// The twelve transform indices in the order that `rng` shuffles them into.
pub open spec fn selection(rng: PrngState) -> Seq<usize> {
    shuffled(positions(), rng)
}

/// The number of steps for the selection seed `seed`: twelve, and for the
/// third version as many more as the first two bytes of the SHA-256 digest of
/// the seed, read as one big-endian number, leave when divided by 53.
pub open spec fn cycle_depth(seed: Seq<u8>, is_v3: bool) -> nat {
    if is_v3 {
        let digest = sha256_digest(seed);
        (12 + (digest[0] as nat * 256 + digest[1] as nat) % 53) as nat
    } else {
        12
    }
}

/// The index that stands at step `i` for the selected index `index`: behind
/// the first twelve steps the four transforms that write bytes as text or
/// double the length give way to the transform two places further on.
pub open spec fn rotated(index: usize, i: int) -> usize {
    if i >= 12 && (index == 2 || index == 3 || index == 8 || index == 9) {
        ((index + 2) % 12) as usize
    } else {
        index
    }
}

/// The step list of `depth` steps that cycles through `selected`.
pub open spec fn steps_of(selected: Seq<usize>, depth: nat) -> Seq<usize> {
    Seq::new(depth, |i: int| rotated(selected[i % 12], i))
}

/// The step list for a word: `seed` is the password followed by the word.
/// `InvalidFormat` if `seed` is not UTF-8.
pub open spec fn plan(seed: Seq<u8>, is_v3: bool) -> Result<Seq<usize>, DarkstarError> {
    match seed_state(seed, is_v3) {
        Some(rng) => Ok(steps_of(selection(rng), cycle_depth(seed, is_v3))),
        None => Err(DarkstarError::InvalidFormat),
    }
}

/// The outcome of planning, with the step list as a sequence.
pub open spec fn steps_result(r: Result<Vec<usize>, DarkstarError>) -> Result<
    Seq<usize>,
    DarkstarError,
> {
    match r {
        Ok(steps) => Ok(steps@),
        Err(e) => Err(e),
    }
}

/// A selection holds twelve indices, each below twelve.
pub proof fn lemma_selection(rng: PrngState)
    ensures
        selection(rng).len() == 12,
        forall|i: int| 0 <= i < 12 ==> #[trigger] selection(rng)[i] < 12,
{
    lemma_fisher_yates_order(positions(), rng, swaps(12));
    let order = shuffled(iota(12), rng);
    assert forall|i: int| 0 <= i < 12 implies #[trigger] selection(rng)[i] < 12 by {
        assert(selection(rng)[i] == positions()[order[i]]);
        assert(0 <= order[i] < 12);
    }
}

/// What holds of every planned step list: it has between 12 and 64 steps
/// (exactly 12 unless the third version plans it), every step is the index
/// of a transform, the first twelve steps are the selection itself, and
/// from the thirteenth step on none is 2, 3, 8 or 9.
pub proof fn lemma_plan_shape(seed: Seq<u8>, is_v3: bool)
    ensures
        plan(seed, is_v3) matches Ok(steps) ==> {
            &&& 12 <= steps.len() <= 64
            &&& (!is_v3 ==> steps.len() == 12)
            &&& forall|i: int| 0 <= i < steps.len() ==> #[trigger] steps[i] < 12
            &&& steps.take(12) == selection(seed_state(seed, is_v3).unwrap())
            &&& forall|i: int|
                12 <= i < steps.len() ==> {
                    let s = #[trigger] steps[i];
                    s != 2 && s != 3 && s != 8 && s != 9
                }
        },
{
    if let Some(rng) = seed_state(seed, is_v3) {
        lemma_selection(rng);
        let steps = steps_of(selection(rng), cycle_depth(seed, is_v3));
        assert forall|i: int| 0 <= i < steps.len() implies #[trigger] steps[i] < 12 by {
            assert(selection(rng)[i % 12] < 12);
        }
        assert forall|i: int| 12 <= i < steps.len() implies {
            let s = #[trigger] steps[i];
            s != 2 && s != 3 && s != 8 && s != 9
        } by {
            assert(selection(rng)[i % 12] < 12);
        }
        assert(steps.take(12) =~= selection(rng));
    }
}

/// Planning is a function of the seed and the version: equal inputs give
/// equal step lists.
pub proof fn lemma_plan_deterministic(seed_a: Seq<u8>, v3_a: bool, seed_b: Seq<u8>, v3_b: bool)
    requires
        seed_a == seed_b,
        v3_a == v3_b,
    ensures
        plan(seed_a, v3_a) == plan(seed_b, v3_b),
{
}

/// Plans the steps for a word: `seed` is the password followed by the word.
pub fn plan_steps(seed: &[u8], is_v3: bool) -> (r: Result<Vec<usize>, DarkstarError>)
    ensures
        steps_result(r) == plan(seed@, is_v3),
        r is Ok <==> vstd::utf8::valid_utf8(seed@),
        r matches Ok(steps) ==> {
            &&& 12 <= steps@.len() <= 64
            &&& (!is_v3 ==> steps@.len() == 12)
            &&& forall|i: int| 0 <= i < steps@.len() ==> #[trigger] steps@[i] < 12
            &&& forall|i: int|
                12 <= i < steps@.len() ==> {
                    let s = #[trigger] steps@[i];
                    s != 2 && s != 3 && s != 8 && s != 9
                }
        },
{
    proof {
        lemma_plan_shape(seed@, is_v3);
    }
    let mut rng = match seeded_rng(seed, is_v3) {
        Ok(rng) => rng,
        Err(e) => {
            return Err(e);
        },
    };
    let mut selected: Vec<usize> = Vec::new();
    let mut i: usize = 0;
    while i < 12
        invariant
            i <= 12,
            selected@ == positions().take(i as int),
        decreases 12 - i,
    {
        selected.push(i);
        proof {
            assert(positions().take(i + 1) =~= positions().take(i as int).push(i));
        }
        i = i + 1;
    }
    proof {
        assert(positions().take(12) =~= positions());
        lemma_selection(rng@);
    }
    shuffle(&mut selected, &mut rng);
    let mut depth: usize = 12;
    if is_v3 {
        let digest = sha256(seed);
        let value = digest[0] as usize * 256 + digest[1] as usize;
        depth = 12 + value % 53;
    }
    let ghost wanted = steps_of(selected@, depth as nat);
    let mut steps: Vec<usize> = Vec::new();
    let mut i: usize = 0;
    while i < depth
        invariant
            i <= depth,
            selected@.len() == 12,
            forall|k: int| 0 <= k < 12 ==> #[trigger] selected@[k] < 12,
            wanted == steps_of(selected@, depth as nat),
            steps@ == wanted.take(i as int),
        decreases depth - i,
    {
        let mut index = selected[i % 12];
        if i >= 12 && (index == 2 || index == 3 || index == 8 || index == 9) {
            index = (index + 2) % 12;
        }
        steps.push(index);
        proof {
            assert(wanted.take(i + 1) =~= wanted.take(i as int).push(index));
        }
        i = i + 1;
    }
    proof {
        assert(wanted.take(depth as int) =~= wanted);
    }
    Ok(steps)
}

} // verus!
