use darkstar::blob::{frame, unframe};
use darkstar::crypt::DarkstarCrypt;
use darkstar::error::DarkstarError;
use darkstar::planner::plan_steps;

const PASSWORD: &str = "MySecre!Password123";

fn seed_for(word: &str) -> Vec<u8> {
    let mut seed = PASSWORD.as_bytes().to_vec();
    seed.extend_from_slice(word.as_bytes());
    seed
}

#[test]
fn checksum_is_the_sum_modulo_997() {
    assert_eq!(DarkstarCrypt::generate_checksum(&[]), 0);
    assert_eq!(DarkstarCrypt::generate_checksum(&[0, 1, 2, 3, 4, 5, 6, 7, 8, 9, 10, 11]), 66);
    assert_eq!(DarkstarCrypt::generate_checksum(&[996, 1]), 0);
    assert_eq!(DarkstarCrypt::generate_checksum(&[1000, 1000]), 6);
    assert_eq!(
        DarkstarCrypt::generate_checksum(&[usize::MAX, usize::MAX]),
        ((usize::MAX % 997) * 2) % 997
    );
}

#[test]
fn word_seed_is_the_password_and_the_checksum() {
    let steps = plan_steps(&seed_for("cat"), true).unwrap();
    assert_eq!(
        DarkstarCrypt::word_seed(PASSWORD.as_bytes(), &steps),
        b"MySecre!Password12366".to_vec()
    );
    assert_eq!(DarkstarCrypt::word_seed(b"pw", &[5, 6]), b"pw11".to_vec());
    assert_eq!(DarkstarCrypt::word_seed(b"pw", &[]), b"pw0".to_vec());
    // only the first twelve steps count
    assert_eq!(
        DarkstarCrypt::word_seed(b"", &[1, 1, 1, 1, 1, 1, 1, 1, 1, 1, 1, 1, 500]),
        b"12".to_vec()
    );
}

#[test]
fn plan_of_the_second_version() {
    assert_eq!(
        plan_steps(&seed_for("cat"), false).unwrap(),
        vec![5, 4, 7, 3, 11, 2, 6, 0, 1, 8, 9, 10]
    );
    assert_eq!(
        plan_steps(&seed_for("bird"), false).unwrap(),
        vec![3, 1, 7, 10, 0, 4, 8, 9, 2, 5, 6, 11]
    );
    assert_eq!(
        plan_steps(&seed_for(""), false).unwrap(),
        vec![5, 2, 11, 3, 4, 0, 1, 6, 7, 10, 9, 8]
    );
}

#[test]
fn plan_of_the_third_version() {
    assert_eq!(
        plan_steps(&seed_for("fish"), true).unwrap(),
        vec![6, 10, 5, 1, 9, 3, 4, 0, 7, 11, 2, 8, 6, 10, 5, 1, 11, 5, 4, 0, 7, 11, 4]
    );
    assert_eq!(
        plan_steps(&seed_for("caf\u{e9}"), true).unwrap(),
        vec![
            11, 4, 3, 0, 10, 1, 7, 5, 9, 2, 8, 6, 11, 4, 5, 0, 10, 1, 7, 5, 11, 4, 10, 6, 11
        ]
    );
}

#[test]
fn planning_twice_gives_the_same_steps() {
    for word in ["cat", "dog", "fish", "bird", "", "caf\u{e9}"] {
        for is_v3 in [false, true] {
            let first = plan_steps(&seed_for(word), is_v3);
            let second = plan_steps(&seed_for(word), is_v3);
            assert!(first.is_ok());
            assert_eq!(first, second);
        }
    }
}

#[test]
fn plans_have_the_promised_shape() {
    for n in 0..200u32 {
        let word = format!("word{}", n);
        let legacy = plan_steps(&seed_for(&word), false).unwrap();
        assert_eq!(legacy.len(), 12);
        let mut sorted = legacy.clone();
        sorted.sort();
        assert_eq!(sorted, (0..12).collect::<Vec<usize>>());

        let current = plan_steps(&seed_for(&word), true).unwrap();
        assert!(current.len() >= 12 && current.len() <= 64);
        let mut first: Vec<usize> = current[..12].to_vec();
        first.sort();
        assert_eq!(first, (0..12).collect::<Vec<usize>>());
        for (i, step) in current.iter().enumerate() {
            assert!(*step < 12);
            if i >= 12 {
                assert!(![2usize, 3, 8, 9].contains(step));
                let base = current[i % 12];
                let expected = if [2usize, 3, 8, 9].contains(&base) { (base + 2) % 12 } else { base };
                assert_eq!(*step, expected);
            }
        }
    }
}

#[test]
fn planning_refuses_a_seed_that_is_not_utf8() {
    assert_eq!(plan_steps(&[0x80], false), Err(DarkstarError::InvalidFormat));
    assert_eq!(plan_steps(&[0xc3], true), Err(DarkstarError::InvalidFormat));
}

#[test]
fn obfuscated_words_match_the_reference() {
    let crypt = DarkstarCrypt::new();
    let steps = plan_steps(&seed_for("cat"), false).unwrap();
    let out = crypt.obfuscate_word(b"cat", &steps, PASSWORD.as_bytes(), false).unwrap();
    assert_eq!(out.len(), 494);
    assert_eq!(&out[..12], &[56, 52, 49, 44, 57, 49, 50, 44, 57, 51, 49, 44]);

    let steps = plan_steps(&seed_for("bird"), true).unwrap();
    let out = crypt.obfuscate_word(b"bird", &steps, PASSWORD.as_bytes(), true).unwrap();
    assert_eq!(out.len(), 806);
    assert_eq!(&out[..12], &[72, 68, 200, 235, 73, 232, 177, 25, 164, 19, 153, 223]);

    let steps = plan_steps(&seed_for(""), true).unwrap();
    let out = crypt.obfuscate_word(b"", &steps, PASSWORD.as_bytes(), true).unwrap();
    assert!(out.is_empty());
}

#[test]
fn a_word_comes_back_through_its_steps() {
    let crypt = DarkstarCrypt::new();
    for word in ["cat", "dog", "fish", "bird", "hello", "caf\u{e9}", "", "a b"] {
        for is_v3 in [false, true] {
            let steps = plan_steps(&seed_for(word), is_v3).unwrap();
            let out = crypt
                .obfuscate_word(word.as_bytes(), &steps, PASSWORD.as_bytes(), is_v3)
                .unwrap();
            let back = crypt.deobfuscate_word(&out, &steps, PASSWORD.as_bytes(), is_v3).unwrap();
            assert_eq!(back, word.as_bytes());
        }
    }
}

#[test]
fn steps_apply_from_left_to_right() {
    let crypt = DarkstarCrypt::new();
    // decimal codes first, then reversal
    assert_eq!(crypt.obfuscate_word(b"ab", &[2, 0], b"pw", false), Ok(b"89,79".to_vec()));
    // reversal first, then decimal codes
    assert_eq!(crypt.obfuscate_word(b"ab", &[0, 2], b"pw", false), Ok(b"98,97".to_vec()));
    assert_eq!(crypt.deobfuscate_word(b"89,79", &[2, 0], b"pw", false), Ok(b"ab".to_vec()));
    assert_eq!(crypt.obfuscate_word(b"ab", &[], b"pw", false), Ok(b"ab".to_vec()));
}

#[test]
fn seeded_steps_get_the_combined_seed() {
    let crypt = DarkstarCrypt::new();
    // checksum of [7] is 7, so the seed is "pw7"
    let expected = DarkstarCrypt::obfuscate_with_xor_v2(b"abc", Some(b"pw7"), false).unwrap();
    assert_eq!(crypt.obfuscate_word(b"abc", &[7], b"pw", false), Ok(expected));
}

#[test]
fn a_step_that_names_no_transform_is_refused() {
    let crypt = DarkstarCrypt::new();
    assert_eq!(
        crypt.obfuscate_word(b"ab", &[0, 12], b"pw", false),
        Err(DarkstarError::InvalidReverseKey)
    );
    assert_eq!(
        crypt.deobfuscate_word(b"ab", &[99], b"pw", false),
        Err(DarkstarError::InvalidReverseKey)
    );
}

#[test]
fn malformed_bytes_fail_the_backward_run() {
    let crypt = DarkstarCrypt::new();
    assert_eq!(
        crypt.deobfuscate_word(b"not numbers", &[2], b"pw", false),
        Err(DarkstarError::PipelineError)
    );
    assert_eq!(
        crypt.deobfuscate_word(b"1,2", &[6], &[0xff], false),
        Err(DarkstarError::InvalidFormat)
    );
}

#[test]
fn blob_records_carry_big_endian_lengths() {
    let words = vec![b"ab".to_vec(), vec![], vec![7u8; 300]];
    let blob = frame(&words).unwrap();
    assert_eq!(&blob[..4], &[0, 2, b'a', b'b']);
    assert_eq!(&blob[4..6], &[0, 0]);
    assert_eq!(&blob[6..8], &[1, 44]);
    assert_eq!(blob.len(), 2 + 2 + 2 + 2 + 300);
    assert_eq!(unframe(&blob, 3), words);
    assert_eq!(frame(&vec![]), Ok(vec![]));
}

#[test]
fn blob_refuses_a_word_that_is_too_long() {
    assert!(frame(&vec![vec![0u8; 65535]]).is_ok());
    assert_eq!(frame(&vec![vec![1], vec![0u8; 65536]]), Err(DarkstarError::PipelineError));
}

#[test]
fn blob_reading_stops_at_the_limit_and_at_a_truncated_record() {
    let words = vec![b"one".to_vec(), b"two".to_vec(), b"three".to_vec()];
    let blob = frame(&words).unwrap();
    assert_eq!(unframe(&blob, 2), words[..2].to_vec());
    assert_eq!(unframe(&blob, 0), Vec::<Vec<u8>>::new());
    assert_eq!(unframe(&blob, 10), words);
    assert_eq!(unframe(&blob[..blob.len() - 1], 3), words[..2].to_vec());
    assert_eq!(unframe(&blob[..11], 3), words[..2].to_vec());
    assert_eq!(unframe(&[0], 3), Vec::<Vec<u8>>::new());
    assert_eq!(unframe(&[], 3), Vec::<Vec<u8>>::new());
}
