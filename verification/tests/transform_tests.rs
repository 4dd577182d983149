use darkstar::crypt::DarkstarCrypt;
use darkstar::error::DarkstarError;
use darkstar::transform::Transform;

const INPUT: &[u8] = b"Hello, World!";
const SEED: &[u8] = b"seed66";

const ALL: [Transform; 12] = [
    Transform::Reverse,
    Transform::Atbash,
    Transform::CharCodes,
    Transform::Binary,
    Transform::Caesar,
    Transform::SwapAdjacent,
    Transform::Shuffle,
    Transform::Xor,
    Transform::Interleave,
    Transform::Vigenere,
    Transform::BlockReversal,
    Transform::Substitution,
];

#[test]
fn reversing() {
    let out = DarkstarCrypt::obfuscate_by_reversing_v2(INPUT, None, false).unwrap();
    assert_eq!(out, b"!dlroW ,olleH".to_vec());
    assert_eq!(DarkstarCrypt::deobfuscate_by_reversing_v2(&out, None, false).unwrap(), INPUT);
}

#[test]
fn atbash() {
    let out = DarkstarCrypt::obfuscate_with_atbash_cipher_v2(INPUT, None, false).unwrap();
    assert_eq!(out, b"Svool, Dliow!".to_vec());
    assert_eq!(DarkstarCrypt::deobfuscate_with_atbash_cipher_v2(&out, None, false).unwrap(), INPUT);
    let edges = DarkstarCrypt::obfuscate_with_atbash_cipher_v2(b"AZaz@[`{", None, true).unwrap();
    assert_eq!(edges, b"ZAza@[`{".to_vec());
}

#[test]
fn char_codes() {
    let out = DarkstarCrypt::obfuscate_to_char_codes_v2(INPUT, None, false).unwrap();
    assert_eq!(out, b"72,101,108,108,111,44,32,87,111,114,108,100,33".to_vec());
    assert_eq!(DarkstarCrypt::deobfuscate_from_char_codes_v2(&out, None, false).unwrap(), INPUT);
    assert_eq!(
        DarkstarCrypt::obfuscate_to_char_codes_v2(&[0, 9, 10, 255], None, false).unwrap(),
        b"0,9,10,255".to_vec()
    );
    assert_eq!(
        DarkstarCrypt::obfuscate_to_char_codes_v2(&[], None, false).unwrap(),
        Vec::<u8>::new()
    );
}

#[test]
fn char_codes_reading() {
    let read = |text: &[u8]| DarkstarCrypt::deobfuscate_from_char_codes_v2(text, None, false);
    assert_eq!(read(b""), Ok(vec![]));
    assert_eq!(read(b"7"), Ok(vec![7]));
    assert_eq!(read(b",,1,,2,"), Ok(vec![1, 2]));
    assert_eq!(read(b"+12,007"), Ok(vec![12, 7]));
    assert_eq!(read(b"255"), Ok(vec![255]));
    assert_eq!(read(b"256"), Err(DarkstarError::PipelineError));
    assert_eq!(read(b"1,x"), Err(DarkstarError::PipelineError));
    assert_eq!(read(b"-1"), Err(DarkstarError::PipelineError));
    assert_eq!(read(b"+"), Err(DarkstarError::PipelineError));
    assert_eq!(read(b"1 ,2"), Err(DarkstarError::PipelineError));
    assert_eq!(read(&[0xff]), Err(DarkstarError::PipelineError));
    assert_eq!(read(b"00000000000000000000000000000000000001"), Ok(vec![1]));
}

#[test]
fn binary() {
    let out = DarkstarCrypt::obfuscate_to_binary_v2(b"Hi", None, false).unwrap();
    assert_eq!(out, b"1001000,1101001".to_vec());
    assert_eq!(DarkstarCrypt::deobfuscate_from_binary_v2(&out, None, false).unwrap(), b"Hi");
    assert_eq!(
        DarkstarCrypt::obfuscate_to_binary_v2(&[0, 1, 255], None, false).unwrap(),
        b"0,1,11111111".to_vec()
    );
}

#[test]
fn binary_reading() {
    let read = |text: &[u8]| DarkstarCrypt::deobfuscate_from_binary_v2(text, None, false);
    assert_eq!(read(b"11111111"), Ok(vec![255]));
    assert_eq!(read(b"100000000"), Err(DarkstarError::PipelineError));
    assert_eq!(read(b"000000001"), Ok(vec![1]));
    assert_eq!(read(b"102"), Err(DarkstarError::PipelineError));
    assert_eq!(read(b"+1,,0"), Ok(vec![1, 0]));
}

#[test]
fn caesar() {
    let out = DarkstarCrypt::obfuscate_with_caesar_cipher_v2(INPUT, None, false).unwrap();
    assert_eq!(out, b"Uryyb, Jbeyq!".to_vec());
    assert_eq!(DarkstarCrypt::deobfuscate_with_caesar_cipher_v2(&out, None, false).unwrap(), INPUT);
}

#[test]
fn swapping_adjacent_bytes() {
    let out = DarkstarCrypt::obfuscate_by_swapping_adjacent_bytes_v2(INPUT, None, false).unwrap();
    assert_eq!(out, b"eHll,oW rodl!".to_vec());
    assert_eq!(
        DarkstarCrypt::deobfuscate_by_swapping_adjacent_bytes_v2(&out, None, false).unwrap(),
        INPUT
    );
    assert_eq!(
        DarkstarCrypt::obfuscate_by_swapping_adjacent_bytes_v2(b"ab", None, false).unwrap(),
        b"ba".to_vec()
    );
    assert_eq!(
        DarkstarCrypt::obfuscate_by_swapping_adjacent_bytes_v2(b"a", None, false).unwrap(),
        b"a".to_vec()
    );
}

#[test]
fn shuffling() {
    let legacy = DarkstarCrypt::obfuscate_by_shuffling_v2(INPUT, Some(SEED), false).unwrap();
    assert_eq!(legacy, vec![72, 111, 87, 32, 100, 114, 44, 101, 111, 108, 33, 108, 108]);
    let current = DarkstarCrypt::obfuscate_by_shuffling_v2(INPUT, Some(SEED), true).unwrap();
    assert_eq!(current, vec![100, 111, 108, 44, 72, 32, 33, 101, 114, 87, 108, 108, 111]);
    assert_eq!(
        DarkstarCrypt::deobfuscate_by_shuffling_v2(&legacy, Some(SEED), false).unwrap(),
        INPUT
    );
    assert_eq!(
        DarkstarCrypt::deobfuscate_by_shuffling_v2(&current, Some(SEED), true).unwrap(),
        INPUT
    );
}

#[test]
fn xor() {
    let out = DarkstarCrypt::obfuscate_with_xor_v2(INPUT, Some(SEED), false).unwrap();
    assert_eq!(out, vec![59, 0, 9, 8, 89, 26, 83, 50, 10, 22, 90, 82, 82]);
    assert_eq!(DarkstarCrypt::deobfuscate_with_xor_v2(&out, Some(SEED), false).unwrap(), INPUT);
    assert_eq!(DarkstarCrypt::obfuscate_with_xor_v2(INPUT, None, false).unwrap(), INPUT);
    assert_eq!(DarkstarCrypt::obfuscate_with_xor_v2(INPUT, Some(b""), false).unwrap(), INPUT);
}

#[test]
fn interleaving() {
    let legacy = DarkstarCrypt::obfuscate_by_interleaving_v2(INPUT, Some(SEED), false).unwrap();
    assert_eq!(
        legacy,
        vec![
            72, 105, 101, 105, 108, 108, 108, 109, 111, 54, 44, 102, 32, 48, 87, 119, 111, 116,
            114, 53, 108, 110, 100, 48, 33, 119
        ]
    );
    let current = DarkstarCrypt::obfuscate_by_interleaving_v2(INPUT, Some(SEED), true).unwrap();
    assert_eq!(
        current,
        vec![
            72, 108, 101, 106, 108, 106, 108, 50, 111, 50, 44, 105, 32, 120, 87, 50, 111, 97, 114,
            101, 108, 49, 100, 57, 33, 115
        ]
    );
    assert_eq!(
        DarkstarCrypt::deobfuscate_by_deinterleaving_v2(&legacy, Some(SEED), false).unwrap(),
        INPUT
    );
    assert_eq!(
        DarkstarCrypt::deobfuscate_by_deinterleaving_v2(b"abc", None, false).unwrap(),
        b"ac".to_vec()
    );
}

#[test]
fn vigenere() {
    let out = DarkstarCrypt::obfuscate_with_vigenere_cipher_v2(INPUT, Some(SEED), false).unwrap();
    assert_eq!(out, b"187,202,209,208,165,98,147,188,212,214,162,154,148".to_vec());
    assert_eq!(
        DarkstarCrypt::deobfuscate_with_vigenere_cipher_v2(&out, Some(SEED), false).unwrap(),
        INPUT
    );
    // 255 + 255 is written with three digits and read back
    let high = DarkstarCrypt::obfuscate_with_vigenere_cipher_v2(&[255], Some(&[255]), false)
        .unwrap();
    assert_eq!(high, b"510".to_vec());
    assert_eq!(
        DarkstarCrypt::deobfuscate_with_vigenere_cipher_v2(&high, Some(&[255]), false).unwrap(),
        vec![255]
    );
}

#[test]
fn vigenere_reading() {
    let read =
        |text: &[u8], seed: &[u8]| DarkstarCrypt::deobfuscate_with_vigenere_cipher_v2(text, Some(seed), false);
    assert_eq!(read(b"", b"k"), Ok(vec![]));
    // an empty part stands for zero
    assert_eq!(read(b",", b"k"), Ok(vec![0, 0]));
    assert_eq!(read(b"108,,110", b"k"), Ok(vec![1, 0, 3]));
    // a number below the key byte is refused
    assert_eq!(read(b"106", b"k"), Err(DarkstarError::PipelineError));
    assert_eq!(read(b"abc", b"k"), Err(DarkstarError::PipelineError));
    assert_eq!(read(b"65536", b"k"), Err(DarkstarError::PipelineError));
    // a difference above 255 keeps its lowest eight bits
    assert_eq!(read(b"65535", b"\x01"), Ok(vec![254]));
    // without a seed the input comes back as it is
    assert_eq!(
        DarkstarCrypt::deobfuscate_with_vigenere_cipher_v2(b"abc", None, false),
        Ok(b"abc".to_vec())
    );
    assert_eq!(
        DarkstarCrypt::obfuscate_with_vigenere_cipher_v2(b"abc", None, false),
        Ok(b"abc".to_vec())
    );
}

#[test]
fn seeded_block_reversal() {
    let out =
        DarkstarCrypt::obfuscate_with_seeded_block_reversal_v2(INPUT, Some(SEED), false).unwrap();
    assert_eq!(out, vec![108, 101, 72, 44, 111, 108, 111, 87, 32, 100, 108, 114, 33]);
    assert_eq!(
        DarkstarCrypt::deobfuscate_with_seeded_block_reversal_v2(&out, Some(SEED), false).unwrap(),
        INPUT
    );
    // inputs of fewer than two bytes still use blocks of two
    assert_eq!(
        DarkstarCrypt::obfuscate_with_seeded_block_reversal_v2(b"a", Some(SEED), true).unwrap(),
        b"a".to_vec()
    );
    assert_eq!(
        DarkstarCrypt::obfuscate_with_seeded_block_reversal_v2(b"abc", Some(SEED), true).unwrap(),
        b"bac".to_vec()
    );
}

#[test]
fn seeded_substitution() {
    let legacy =
        DarkstarCrypt::obfuscate_with_seeded_substitution_v2(INPUT, Some(SEED), false).unwrap();
    assert_eq!(legacy, vec![165, 235, 130, 130, 159, 71, 180, 37, 159, 131, 130, 239, 231]);
    let current =
        DarkstarCrypt::obfuscate_with_seeded_substitution_v2(INPUT, Some(SEED), true).unwrap();
    assert_eq!(current, vec![184, 242, 13, 13, 231, 172, 6, 42, 231, 108, 13, 78, 126]);
    assert_eq!(
        DarkstarCrypt::deobfuscate_with_seeded_substitution_v2(&legacy, Some(SEED), false)
            .unwrap(),
        INPUT
    );
    assert_eq!(
        DarkstarCrypt::deobfuscate_with_seeded_substitution_v2(&current, Some(SEED), true)
            .unwrap(),
        INPUT
    );
}

#[test]
fn a_seed_that_is_not_utf8_is_refused_by_the_generator_transforms() {
    let bad: &[u8] = &[0xff, 0xfe];
    for t in [
        Transform::Shuffle,
        Transform::Interleave,
        Transform::BlockReversal,
        Transform::Substitution,
    ] {
        assert_eq!(t.apply(INPUT, Some(bad), false), Err(DarkstarError::InvalidFormat));
        assert_eq!(t.apply(INPUT, Some(bad), true), Err(DarkstarError::InvalidFormat));
    }
    for t in [Transform::Shuffle, Transform::BlockReversal, Transform::Substitution] {
        assert_eq!(t.invert(INPUT, Some(bad), true), Err(DarkstarError::InvalidFormat));
    }
    // the transforms that use the seed as bytes take it
    assert!(Transform::Xor.apply(INPUT, Some(bad), false).is_ok());
    assert!(Transform::Vigenere.apply(INPUT, Some(bad), false).is_ok());
}

#[test]
fn every_transform_is_undone_by_its_inverse() {
    let inputs: Vec<Vec<u8>> = vec![
        vec![],
        vec![0],
        vec![255],
        b"a".to_vec(),
        b"ab".to_vec(),
        b"abc".to_vec(),
        INPUT.to_vec(),
        "caf\u{e9} na\u{ef}ve \u{1F600}".as_bytes().to_vec(),
        (0..=255u8).collect(),
        (0..1024u32).map(|i| (i * 7 + 3) as u8).collect(),
    ];
    let seeds: Vec<Option<&[u8]>> = vec![None, Some(b""), Some(b"k"), Some(SEED), Some("p\u{e4}ss66".as_bytes())];
    for t in ALL {
        for input in &inputs {
            for seed in &seeds {
                for is_v3 in [false, true] {
                    let out = t.apply(input, *seed, is_v3).unwrap();
                    let back = t.invert(&out, *seed, is_v3).unwrap();
                    assert_eq!(&back, input);
                }
            }
        }
    }
}

#[test]
fn the_table_lists_the_transforms_in_their_fixed_order() {
    let crypt = DarkstarCrypt::new();
    for (index, t) in ALL.iter().enumerate() {
        assert_eq!(crypt.transform_at(index), Some(*t));
    }
    assert_eq!(crypt.transform_at(12), None);
    assert_eq!(crypt.transform_at(usize::MAX), None);
}

#[test]
fn the_table_dispatches_to_the_named_functions() {
    let crypt = DarkstarCrypt::new();
    let expected: Vec<Vec<u8>> = vec![
        DarkstarCrypt::obfuscate_by_reversing_v2(INPUT, Some(SEED), false).unwrap(),
        DarkstarCrypt::obfuscate_with_atbash_cipher_v2(INPUT, Some(SEED), false).unwrap(),
        DarkstarCrypt::obfuscate_to_char_codes_v2(INPUT, Some(SEED), false).unwrap(),
        DarkstarCrypt::obfuscate_to_binary_v2(INPUT, Some(SEED), false).unwrap(),
        DarkstarCrypt::obfuscate_with_caesar_cipher_v2(INPUT, Some(SEED), false).unwrap(),
        DarkstarCrypt::obfuscate_by_swapping_adjacent_bytes_v2(INPUT, Some(SEED), false).unwrap(),
        DarkstarCrypt::obfuscate_by_shuffling_v2(INPUT, Some(SEED), false).unwrap(),
        DarkstarCrypt::obfuscate_with_xor_v2(INPUT, Some(SEED), false).unwrap(),
        DarkstarCrypt::obfuscate_by_interleaving_v2(INPUT, Some(SEED), false).unwrap(),
        DarkstarCrypt::obfuscate_with_vigenere_cipher_v2(INPUT, Some(SEED), false).unwrap(),
        DarkstarCrypt::obfuscate_with_seeded_block_reversal_v2(INPUT, Some(SEED), false).unwrap(),
        DarkstarCrypt::obfuscate_with_seeded_substitution_v2(INPUT, Some(SEED), false).unwrap(),
    ];
    for index in 0..12 {
        let t = crypt.transform_at(index).unwrap();
        assert_eq!(t.apply(INPUT, Some(SEED), false).unwrap(), expected[index]);
    }
}

#[test]
fn error_messages() {
    assert_eq!(DarkstarError::InvalidFormat.message(), "invalid format");
    assert_eq!(DarkstarError::InvalidReverseKey.message(), "invalid reverse key");
    assert_eq!(DarkstarError::AuthenticationFailed.message(), "authentication failed");
    assert_eq!(DarkstarError::PaddingError.message(), "invalid padding");
    assert_eq!(DarkstarError::VersionMismatch.message(), "unsupported version");
    assert_eq!(DarkstarError::PipelineError.message(), "malformed transformed word");
}

#[test]
fn error_messages_differ() {
    let all = [
        DarkstarError::InvalidFormat,
        DarkstarError::InvalidReverseKey,
        DarkstarError::AuthenticationFailed,
        DarkstarError::PaddingError,
        DarkstarError::VersionMismatch,
        DarkstarError::PipelineError,
    ];
    for (i, a) in all.iter().enumerate() {
        assert!(!a.message().is_empty());
        for b in &all[i + 1..] {
            assert_ne!(a.message(), b.message());
        }
    }
}
