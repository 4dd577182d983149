use base64::Engine;
use darkstar::crypt::DarkstarCrypt;
use darkstar::error::DarkstarError;
use darkstar::reverse_key::unpack_bytes;

fn b64(bytes: &[u8]) -> String {
    base64::engine::general_purpose::STANDARD.encode(bytes)
}

#[test]
fn packing_the_second_version() {
    let key = vec![
        vec![5, 4, 7, 3, 11, 2, 6, 0, 1, 8, 9, 10],
        vec![2, 4, 7, 0, 3, 11, 8, 9, 6, 10, 5, 1],
        vec![10, 4, 2, 8, 11, 7, 0, 3, 6, 5, 9, 1],
        vec![3, 1, 7, 10, 0, 4, 8, 9, 2, 5, 6, 11],
    ];
    let text = DarkstarCrypt::pack_reverse_key(&key, false).unwrap();
    assert_eq!(text, "VHOyYBiaJHA7iWpRpCi3A2WRMXoEiSVr");
    assert_eq!(DarkstarCrypt::unpack_reverse_key(&text, false), Ok(key));
}

#[test]
fn packing_the_third_version() {
    let key = vec![vec![1, 2, 3], vec![], vec![11, 10]];
    let text = DarkstarCrypt::pack_reverse_key(&key, true).unwrap();
    assert_eq!(text, b64(&[3, 0x12, 0x30, 0, 2, 0xba]));
    assert_eq!(DarkstarCrypt::unpack_reverse_key(&text, true), Ok(key));
}

#[test]
fn packing_keeps_the_lowest_four_bits_of_a_step() {
    let text = DarkstarCrypt::pack_reverse_key(&vec![vec![0x1f, 0x25]], true).unwrap();
    assert_eq!(text, b64(&[2, 0xf5]));
}

#[test]
fn packed_keys_of_planned_steps_come_back() {
    for is_v3 in [false, true] {
        let mut key = Vec::new();
        for word in ["cat", "dog", "fish", "bird"] {
            let mut seed = b"MySecre!Password123".to_vec();
            seed.extend_from_slice(word.as_bytes());
            key.push(darkstar::planner::plan_steps(&seed, is_v3).unwrap());
        }
        let text = DarkstarCrypt::pack_reverse_key(&key, is_v3).unwrap();
        assert_eq!(DarkstarCrypt::unpack_reverse_key(&text, is_v3), Ok(key));
    }
}

#[test]
fn odd_lengths_drop_the_padding() {
    for n in 0..=64usize {
        let steps: Vec<usize> = (0..n).map(|i| (i * 5 + 1) % 12).collect();
        let key = vec![steps.clone(), steps];
        let text = DarkstarCrypt::pack_reverse_key(&key, true).unwrap();
        assert_eq!(DarkstarCrypt::unpack_reverse_key(&text, true), Ok(key));
    }
    // whatever the padding holds, it is dropped
    assert_eq!(unpack_bytes(&[1, 0x5b], true), Some(vec![vec![5]]));
}

#[test]
fn the_empty_key() {
    assert_eq!(DarkstarCrypt::pack_reverse_key(&vec![], false), Ok(String::new()));
    assert_eq!(DarkstarCrypt::pack_reverse_key(&vec![], true), Ok(String::new()));
    assert_eq!(DarkstarCrypt::unpack_reverse_key("", false), Ok(vec![]));
    assert_eq!(DarkstarCrypt::unpack_reverse_key("", true), Ok(vec![]));
}

#[test]
fn a_second_version_key_must_hold_whole_words() {
    assert_eq!(unpack_bytes(&[0; 6], false), Some(vec![vec![0; 12]]));
    for n in [1usize, 5, 7, 11] {
        assert_eq!(unpack_bytes(&vec![0; n], false), None);
        assert_eq!(
            DarkstarCrypt::unpack_reverse_key(&b64(&vec![0; n]), false),
            Err(DarkstarError::InvalidReverseKey)
        );
    }
}

#[test]
fn a_third_version_key_must_not_end_within_a_word() {
    assert_eq!(unpack_bytes(&[4, 0x12], true), None);
    assert_eq!(unpack_bytes(&[4, 0x12, 0x34], true), Some(vec![vec![1, 2, 3, 4]]));
    assert_eq!(unpack_bytes(&[0], true), Some(vec![vec![]]));
    assert_eq!(unpack_bytes(&[2, 0x12, 1], true), None);
}

#[test]
fn a_step_above_eleven_is_refused() {
    assert_eq!(unpack_bytes(&[2, 0xc0], true), None);
    assert_eq!(unpack_bytes(&[2, 0x0c], true), None);
    assert_eq!(unpack_bytes(&[0xff, 0, 0, 0, 0, 0], false), None);
    assert_eq!(
        DarkstarCrypt::unpack_reverse_key(&b64(&[2, 0x0f]), true),
        Err(DarkstarError::InvalidReverseKey)
    );
}

#[test]
fn text_that_is_not_base64_is_refused() {
    assert_eq!(DarkstarCrypt::unpack_reverse_key("***", true), Err(DarkstarError::InvalidFormat));
    assert_eq!(
        DarkstarCrypt::read_reverse_key("not base64!", false),
        Err(DarkstarError::InvalidFormat)
    );
}

#[test]
fn reading_tells_the_legacy_form_from_the_packed_form() {
    let legacy = b64(b"[[1,2,3],[4,5]]");
    assert_eq!(
        DarkstarCrypt::read_reverse_key(&legacy, false),
        Ok(vec![vec![1, 2, 3], vec![4, 5]])
    );
    assert_eq!(
        DarkstarCrypt::read_reverse_key(&legacy, true),
        Ok(vec![vec![1, 2, 3], vec![4, 5]])
    );
    let spaced = b64(b" [ [ 1 , 2 ] ] ");
    assert_eq!(DarkstarCrypt::read_reverse_key(&spaced, true), Ok(vec![vec![1, 2]]));
    let packed = DarkstarCrypt::pack_reverse_key(&vec![vec![1, 2, 3]], true).unwrap();
    assert_eq!(DarkstarCrypt::read_reverse_key(&packed, true), Ok(vec![vec![1, 2, 3]]));
    assert_eq!(DarkstarCrypt::read_reverse_key("", true), Ok(vec![]));
}

#[test]
fn a_legacy_key_with_a_step_above_eleven_is_refused() {
    assert_eq!(
        DarkstarCrypt::read_reverse_key(&b64(b"[[1,12]]"), false),
        Err(DarkstarError::InvalidReverseKey)
    );
    assert_eq!(DarkstarCrypt::key_is_valid(&vec![vec![0, 11], vec![]]), true);
    assert_eq!(DarkstarCrypt::key_is_valid(&vec![vec![0, 11], vec![12]]), false);
}

#[test]
fn bytes_that_are_neither_form_are_refused() {
    assert_eq!(
        DarkstarCrypt::read_reverse_key(&b64(b"[[1,2"), false),
        Err(DarkstarError::InvalidReverseKey)
    );
    assert_eq!(
        DarkstarCrypt::read_reverse_key(&b64(b"]"), true),
        Err(DarkstarError::InvalidReverseKey)
    );
}

#[test]
fn the_legacy_text_is_a_json_array_in_base64() {
    let key = vec![vec![0, 5, 11], vec![], vec![10]];
    assert_eq!(DarkstarCrypt::key_text(&key, true, false), Ok(b64(b"[[0,5,11],[],[10]]")));
    assert_eq!(DarkstarCrypt::key_text(&vec![], true, false), Ok(b64(b"[]")));
    assert_eq!(
        DarkstarCrypt::key_text(&key, false, true),
        DarkstarCrypt::pack_reverse_key(&key, true)
    );
}
