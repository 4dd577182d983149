use darkstar::prng::{ActivePRNG, ChaCha20PRNG, Mulberry32};

const MULBERRY_ABC: [u32; 8] = [
    3503977557, 3628720696, 3646384291, 172023958, 2754192596, 1394903979, 26148962, 201067888,
];

const CHACHA_ABC: [u32; 8] = [
    342935232, 4201994163, 655230032, 2797501218, 1663053699, 524367221, 2260114552, 171700384,
];

#[test]
fn mulberry_seed_of_abc() {
    let m = Mulberry32::new("abc");
    assert_eq!(m.state, 1088663059);
}

#[test]
fn mulberry_seed_replaces_the_state() {
    let mut m = Mulberry32::new("something else");
    m.seed("abc");
    assert_eq!(m.state, 1088663059);
}

#[test]
fn mulberry_first_eight_outputs_of_abc() {
    let mut m = Mulberry32::new("abc");
    for expected in MULBERRY_ABC {
        assert_eq!(m.next(), expected);
    }
}

#[test]
fn mulberry_outputs_as_fractions() {
    let fractions: [f64; 8] = [
        0.8158333499450237,
        0.8448773752897978,
        0.8489900014828891,
        0.040052448865026236,
        0.6412604348734021,
        0.32477639126591384,
        0.006088279653340578,
        0.04681476578116417,
    ];
    let mut m = Mulberry32::new("abc");
    for expected in fractions {
        let got = m.next() as f64 / 4294967296.0;
        assert_eq!(got, expected);
    }
}

#[test]
fn chacha_state_is_the_digest_in_big_endian_words() {
    let c = ChaCha20PRNG::new("abc");
    assert_eq!(
        c.state,
        [
            0xba7816bf, 0x8f01cfea, 0x414140de, 0x5dae2223, 0xb00361a3, 0x96177a9c, 0xb410ff61,
            0xf20015ad
        ]
    );
    assert_eq!(c.counter, 0);
}

#[test]
fn chacha_first_eight_outputs_of_abc() {
    let mut c = ChaCha20PRNG::new("abc");
    for expected in CHACHA_ABC {
        assert_eq!(c.next(), expected);
    }
    assert_eq!(c.counter, 8);
}

#[test]
fn chacha_outputs_as_fractions() {
    let fractions: [f64; 8] = [
        0.07984583079814911,
        0.9783530056010932,
        0.1525576300919056,
        0.6513440092094243,
        0.38720986316911876,
        0.1220887575764209,
        0.5262239258736372,
        0.03997711092233658,
    ];
    let mut c = ChaCha20PRNG::new("abc");
    for expected in fractions {
        let got = c.next() as f64 / 4294967296.0;
        assert_eq!(got, expected);
    }
}

#[test]
fn active_prng_selects_by_version() {
    let mut legacy = ActivePRNG::new("abc", false);
    let mut current = ActivePRNG::new("abc", true);
    assert_eq!(legacy.next(), MULBERRY_ABC[0]);
    assert_eq!(current.next(), CHACHA_ABC[0]);
    assert!(matches!(legacy, ActivePRNG::Mulberry(_)));
    assert!(matches!(current, ActivePRNG::ChaCha(_)));
}

#[test]
fn pick_scales_the_numerator() {
    let mut rng = ActivePRNG::new("abc", false);
    // floor(0.8158333499450237 * 12) = 9
    assert_eq!(rng.pick(12), 9);
    // floor(0.8448773752897978 * 36) = 30
    assert_eq!(rng.pick(36), 30);
    // floor(0.8489900014828891 * 256) = 217
    assert_eq!(rng.pick(256), 217);
    assert_eq!(rng.pick(0), 0);
    assert_eq!(rng.pick(1), 0);
}

#[test]
fn pick_agrees_with_the_fraction() {
    let mut a = ActivePRNG::new("MySecre!Password12366", true);
    let mut b = ActivePRNG::new("MySecre!Password12366", true);
    for n in [1usize, 2, 3, 12, 36, 255, 256, 1000, 65535, 1_000_000] {
        let expected = ((b.next() as f64 / 4294967296.0) * n as f64) as usize;
        assert_eq!(a.pick(n), expected);
    }
}

#[test]
fn seeding_with_non_ascii_text_uses_code_points() {
    // One step of the fold for U+00E9, then the final scrambling.
    let mut h: u32 = 0;
    h = (h ^ 0xE9).wrapping_mul(3432918353);
    h = (h << 13) | (h >> 19);
    h = (h ^ (h >> 16)).wrapping_mul(2246822507);
    h = (h ^ (h >> 13)).wrapping_mul(3266489909);
    h ^= h >> 16;
    assert_eq!(Mulberry32::new("é").state, h);
}

#[test]
fn empty_seed_gives_state_zero() {
    assert_eq!(Mulberry32::new("").state, 0);
}
