//! The two deterministic generators that drive the seeded transforms and the
//! choice of the transform sequence.
//!
//! A generator yields 32-bit numerators `r`; the fraction it stands for is
//! `r / 2^32`, a value in `[0, 1)`. An index below `n` is drawn as
//! `floor(r * n / 2^32)`.

use crate::hash::{sha256, sha256_digest};
use vstd::prelude::*;
use vstd::string::*;
use vstd::utf8::encode_utf8;

verus! {

/// The state of a generator, as a mathematical value.
pub enum PrngState {
    /// The single word of the Mulberry generator.
    Mulberry { state: u32 },
    /// The eight words and the step counter of the hash-seeded generator.
    ChaCha { words: Seq<u32>, counter: u32 },
}

/// One character folded into the Mulberry seed accumulator.
pub open spec fn mulberry_absorb(h: u32, c: char) -> u32 {
    let m = (h ^ (c as u32)).wrapping_mul(3432918353u32);
    (m << 13u32) | (m >> 19u32)
}

/// The accumulator after all of `chars` were folded in, left to right.
pub open spec fn mulberry_fold(chars: Seq<char>) -> u32
    decreases chars.len(),
{
    if chars.len() == 0 {
        0u32
    } else {
        mulberry_absorb(mulberry_fold(chars.drop_last()), chars.last())
    }
}

/// The final scrambling of the accumulator, which gives the initial state.
pub open spec fn mulberry_finish(h: u32) -> u32 {
    let a = (h ^ (h >> 16u32)).wrapping_mul(2246822507u32);
    let b = (a ^ (a >> 13u32)).wrapping_mul(3266489909u32);
    b ^ (b >> 16u32)
}

/// The tempering shared by both generators.
pub open spec fn temper(t: u32) -> u32 {
    let u = t.wrapping_add((t ^ (t >> 7u32)).wrapping_mul(61u32 | t)) ^ t;
    u ^ (u >> 14u32)
}

/// The numerator that a Mulberry generator yields once its state has been
/// advanced to `state`.
pub open spec fn mulberry_output(state: u32) -> u32 {
    temper((state ^ (state >> 15u32)).wrapping_mul(1u32 | state))
}

/// The big-endian 32-bit word at bytes `4 * i .. 4 * i + 4` of `digest`: the
/// value of the `i`-th group of eight digits of its hexadecimal form.
pub open spec fn digest_word(digest: Seq<u8>, i: int) -> u32 {
    ((digest[4 * i] as u32) << 24u32) | ((digest[4 * i + 1] as u32) << 16u32) | ((digest[4 * i
        + 2] as u32) << 8u32) | (digest[4 * i + 3] as u32)
}

/// The three state words that one step of the hash-seeded generator reads,
/// after the step has mixed them: `(x, y, z)`.
pub open spec fn chacha_mix(x0: u32, y0: u32, z0: u32, counter: u32) -> (u32, u32, u32) {
    let x1 = x0.wrapping_add(y0).wrapping_add(counter);
    let z1 = z0 ^ x1;
    let z2 = (z1 << 16u32) | (z1 >> 16u32);
    let y1 = y0.wrapping_add(z2).wrapping_add(counter.wrapping_mul(3u32));
    let x2 = x1 ^ y1;
    let x3 = (x2 << 12u32) | (x2 >> 20u32);
    (x3, y1, z2)
}

/// The numerator that the hash-seeded generator yields for the mixed words.
pub open spec fn chacha_output(x: u32, y: u32, z: u32) -> u32 {
    let t = x.wrapping_add(y).wrapping_add(z);
    temper((t ^ (t >> 15u32)).wrapping_mul(1u32 | t))
}

/// The index below `n` that the numerator `r` selects: `floor(r * n / 2^32)`.
pub open spec fn scale(r: u32, n: nat) -> nat {
    (r as nat * n) / 0x1_0000_0000
}

impl PrngState {
    /// The state of a fresh generator seeded with `seed`: the hash-seeded
    /// generator if `is_v3`, the Mulberry generator otherwise.
    pub open spec fn seeded(seed: Seq<char>, is_v3: bool) -> PrngState {
        if is_v3 {
            let digest = sha256_digest(encode_utf8(seed));
            PrngState::ChaCha { words: Seq::new(8, |i: int| digest_word(digest, i)), counter: 0 }
        } else {
            PrngState::Mulberry { state: mulberry_finish(mulberry_fold(seed)) }
        }
    }

    /// The state after one draw.
    #[verifier::opaque]
    pub open spec fn step(self) -> PrngState {
        match self {
            PrngState::Mulberry { state } => PrngState::Mulberry {
                state: state.wrapping_add(0x6d2b79f5u32),
            },
            PrngState::ChaCha { words, counter } => {
                let c = counter.wrapping_add(1u32);
                let i0 = c as int % 8;
                let i3 = (c + 3) % 8;
                let i5 = (c + 5) % 8;
                let (x, y, z) = chacha_mix(words[i0], words[i3], words[i5], c);
                PrngState::ChaCha {
                    words: words.update(i0, x).update(i3, y).update(i5, z),
                    counter: c,
                }
            },
        }
    }

    /// The numerator that the next draw yields.
    #[verifier::opaque]
    pub open spec fn output(self) -> u32 {
        match self {
            PrngState::Mulberry { state } => mulberry_output(state.wrapping_add(0x6d2b79f5u32)),
            PrngState::ChaCha { words, counter } => {
                let c = counter.wrapping_add(1u32);
                let (x, y, z) = chacha_mix(words[c as int % 8], words[(c + 3) % 8], words[(c + 5) % 8], c);
                chacha_output(x, y, z)
            },
        }
    }

    /// The state after `n` draws.
    pub open spec fn after(self, n: nat) -> PrngState
        decreases n,
    {
        if n == 0 {
            self
        } else {
            self.after((n - 1) as nat).step()
        }
    }

    /// The index below `bound` that the draw after `n` earlier ones selects.
    pub open spec fn pick_at(self, n: nat, bound: nat) -> nat {
        scale(self.after(n).output(), bound)
    }
}

/// The Mulberry generator, seeded from the characters of a string.
pub struct Mulberry32 {
    pub state: u32,
}

impl View for Mulberry32 {
    type V = PrngState;

    open spec fn view(&self) -> PrngState {
        PrngState::Mulberry { state: self.state }
    }
}

impl Mulberry32 {
    /// A generator seeded with `seed_str`.
    pub fn new(seed_str: &str) -> (m: Mulberry32)
        ensures
            m@ == PrngState::seeded(seed_str@, false),
    {
        let mut m = Mulberry32 { state: 0 };
        m.seed(seed_str);
        m
    }

    /// Replaces the state by the one that `seed_str` gives.
    pub fn seed(&mut self, seed_str: &str)
        ensures
            final(self)@ == PrngState::seeded(seed_str@, false),
    {
        let mut h: u32 = 0;
        for c in it: seed_str.chars()
            invariant
                it.seq() == seed_str@,
                h == mulberry_fold(seed_str@.take(it.index() as int)),
        {
            proof {
                assert(seed_str@.take(it.index() + 1).drop_last() =~= seed_str@.take(
                    it.index() as int,
                ));
            }
            let m = (h ^ (c as u32)).wrapping_mul(3432918353u32);
            h = (m << 13u32) | (m >> 19u32);
        }
        proof {
            assert(seed_str@.take(seed_str@.len() as int) =~= seed_str@);
        }
        let a = (h ^ (h >> 16u32)).wrapping_mul(2246822507u32);
        let b = (a ^ (a >> 13u32)).wrapping_mul(3266489909u32);
        self.state = b ^ (b >> 16u32);
    }

    /// Draws the next numerator.
    pub fn next(&mut self) -> (r: u32)
        ensures
            r == old(self)@.output(),
            final(self)@ == old(self)@.step(),
    {
        proof {
            reveal(PrngState::step);
            reveal(PrngState::output);
        }
        self.state = self.state.wrapping_add(0x6d2b79f5u32);
        tempered((self.state ^ (self.state >> 15u32)).wrapping_mul(1u32 | self.state))
    }
}

/// The hash-seeded generator: eight state words taken from the SHA-256 digest
/// of the seed, mixed three at a time.
pub struct ChaCha20PRNG {
    pub state: [u32; 8],
    pub counter: u32,
}

impl View for ChaCha20PRNG {
    type V = PrngState;

    open spec fn view(&self) -> PrngState {
        PrngState::ChaCha { words: self.state@, counter: self.counter }
    }
}

impl ChaCha20PRNG {
    /// A generator seeded with `seed_str`.
    pub fn new(seed_str: &str) -> (c: ChaCha20PRNG)
        ensures
            c@ == PrngState::seeded(seed_str@, true),
    {
        let digest = sha256(seed_str.as_bytes());
        let mut state = [0u32;8];
        let mut i: usize = 0;
        while i < 8
            invariant
                i <= 8,
                forall|k: int| 0 <= k < i ==> state@[k] == digest_word(digest@, k),
            decreases 8 - i,
        {
            let word = ((digest[4 * i] as u32) << 24u32) | ((digest[4 * i + 1] as u32) << 16u32) | ((
            digest[4 * i + 2] as u32) << 8u32) | (digest[4 * i + 3] as u32);
            state[i] = word;
            i = i + 1;
        }
        proof {
            assert(state@ =~= Seq::new(8, |k: int| digest_word(digest@, k)));
        }
        ChaCha20PRNG { state, counter: 0 }
    }

    /// Draws the next numerator.
    pub fn next(&mut self) -> (r: u32)
        ensures
            r == old(self)@.output(),
            final(self)@ == old(self)@.step(),
    {
        let c = self.counter.wrapping_add(1u32);
        let i0 = (c % 8) as usize;
        let i3 = ((c % 8 + 3) % 8) as usize;
        let i5 = ((c % 8 + 5) % 8) as usize;
        assert(i0 == c as int % 8 && i3 == (c + 3) % 8 && i5 == (c + 5) % 8);
        let ghost words = self.state@;
        let (x, y, z) = mix(self.state[i0], self.state[i3], self.state[i5], c);
        self.counter = c;
        self.state[i0] = x;
        self.state[i3] = y;
        self.state[i5] = z;
        proof {
            reveal(PrngState::step);
            reveal(PrngState::output);
            assert(self.state@ =~= words.update(i0 as int, x).update(i3 as int, y).update(
                i5 as int,
                z,
            ));
        }
        let t = x.wrapping_add(y).wrapping_add(z);
        tempered((t ^ (t >> 15u32)).wrapping_mul(1u32 | t))
    }
}

/// Mixes the three words that a step of the hash-seeded generator reads.
fn mix(x0: u32, y0: u32, z0: u32, counter: u32) -> (r: (u32, u32, u32))
    ensures
        r == chacha_mix(x0, y0, z0, counter),
{
    let x1 = x0.wrapping_add(y0).wrapping_add(counter);
    let z1 = z0 ^ x1;
    let z2 = (z1 << 16u32) | (z1 >> 16u32);
    let y1 = y0.wrapping_add(z2).wrapping_add(counter.wrapping_mul(3u32));
    let x2 = x1 ^ y1;
    let x3 = (x2 << 12u32) | (x2 >> 20u32);
    (x3, y1, z2)
}

/// Tempers a word into the numerator that is handed out.
fn tempered(t: u32) -> (r: u32)
    ensures
        r == temper(t),
{
    let u = t.wrapping_add((t ^ (t >> 7u32)).wrapping_mul(61u32 | t)) ^ t;
    u ^ (u >> 14u32)
}

/// The generator that a version selects.
pub enum ActivePRNG {
    Mulberry(Mulberry32),
    ChaCha(ChaCha20PRNG),
}

impl View for ActivePRNG {
    type V = PrngState;

    open spec fn view(&self) -> PrngState {
        match self {
            ActivePRNG::Mulberry(m) => m@,
            ActivePRNG::ChaCha(c) => c@,
        }
    }
}

impl ActivePRNG {
    /// A generator seeded with `seed_str`: the hash-seeded one if `is_v3`,
    /// the Mulberry one otherwise.
    pub fn new(seed_str: &str, is_v3: bool) -> (rng: ActivePRNG)
        ensures
            rng@ == PrngState::seeded(seed_str@, is_v3),
    {
        if is_v3 {
            ActivePRNG::ChaCha(ChaCha20PRNG::new(seed_str))
        } else {
            ActivePRNG::Mulberry(Mulberry32::new(seed_str))
        }
    }

    /// Draws the next numerator.
    pub fn next(&mut self) -> (r: u32)
        ensures
            r == old(self)@.output(),
            final(self)@ == old(self)@.step(),
    {
        match self {
            ActivePRNG::Mulberry(m) => m.next(),
            ActivePRNG::ChaCha(c) => c.next(),
        }
    }

    /// Draws an index below `bound`; `0` if `bound` is `0`.
    pub fn pick(&mut self, bound: usize) -> (index: usize)
        ensures
            index == scale(old(self)@.output(), bound as nat),
            bound > 0 ==> index < bound,
            bound == 0 ==> index == 0,
            final(self)@ == old(self)@.step(),
    {
        let r = self.next();
        proof {
            lemma_scale_bound(r, bound as nat);
        }
        ((r as u128 * bound as u128) / 0x1_0000_0000u128) as usize
    }
}

/// A drawn index lies below its bound.
pub proof fn lemma_scale_bound(r: u32, bound: nat)
    ensures
        bound > 0 ==> scale(r, bound) < bound,
        bound == 0 ==> scale(r, bound) == 0,
        r as nat * bound <= 0xffff_ffff * bound,
{
    assert(r as nat * bound <= 0xffff_ffff * bound) by (nonlinear_arith)
        requires
            r <= 0xffff_ffff,
    ;
    if bound > 0 {
        assert((r as nat * bound) / 0x1_0000_0000 < bound) by (nonlinear_arith)
            requires
                r as nat * bound <= 0xffff_ffff * bound,
                bound > 0,
        ;
    } else {
        assert(r as nat * bound == 0) by (nonlinear_arith)
            requires
                bound == 0,
        ;
    }
}

} // verus!
