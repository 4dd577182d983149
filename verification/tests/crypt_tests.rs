use base64::Engine;
use darkstar::crypt::DarkstarCrypt;
use darkstar::error::DarkstarError;

const MNEMONIC: &str = "cat dog fish bird";
const PASSWORD: &str = "MySecre!Password123";
const SALT: [u8; 16] = [9; 16];
const IV: [u8; 16] = [1, 2, 3, 4, 5, 6, 7, 8, 9, 10, 11, 12, 13, 14, 15, 16];

fn unb64(text: &str) -> Vec<u8> {
    base64::engine::general_purpose::STANDARD.decode(text).unwrap()
}

fn parts(json: &str) -> (String, String) {
    let value: serde_json::Value = serde_json::from_str(json).unwrap();
    assert_eq!(value.as_object().unwrap().len(), 2);
    (
        value["encryptedData"].as_str().unwrap().to_string(),
        value["reverseKey"].as_str().unwrap().to_string(),
    )
}

#[test]
fn third_version_end_to_end() {
    let crypt = DarkstarCrypt::new();
    let json = crypt.encrypt(MNEMONIC, PASSWORD, false, false).unwrap();
    let (data, key) = parts(&json);
    let tagged: serde_json::Value = serde_json::from_str(&data).unwrap();
    assert_eq!(tagged["v"], serde_json::Value::from(3));
    let envelope = tagged["data"].as_str().unwrap();
    assert!(envelope.len() > 56);
    assert!(envelope[..56].bytes().all(|b| b.is_ascii_hexdigit()));
    let read = DarkstarCrypt::read_reverse_key(&key, true).unwrap();
    assert_eq!(read.len(), 4);
    assert_eq!(
        read[2],
        vec![6, 10, 5, 1, 9, 3, 4, 0, 7, 11, 2, 8, 6, 10, 5, 1, 11, 5, 4, 0, 7, 11, 4]
    );
    assert_eq!(crypt.decrypt(&data, &key, PASSWORD), Ok(MNEMONIC.to_string()));
}

#[test]
fn second_version_end_to_end() {
    let crypt = DarkstarCrypt::new();
    let json = crypt.encrypt(MNEMONIC, PASSWORD, true, false).unwrap();
    let (data, key) = parts(&json);
    assert_eq!(key, "VHOyYBiaJHA7iWpRpCi3A2WRMXoEiSVr");
    assert_eq!(unb64(&key).len(), 24);
    let tagged: serde_json::Value = serde_json::from_str(&data).unwrap();
    assert_eq!(tagged["v"], serde_json::Value::from(2));
    assert_eq!(crypt.decrypt(&data, &key, PASSWORD), Ok(MNEMONIC.to_string()));
}

#[test]
fn first_version_end_to_end() {
    let crypt = DarkstarCrypt::new();
    let json = crypt.encrypt(MNEMONIC, PASSWORD, false, true).unwrap();
    let (data, key) = parts(&json);
    assert!(!data.contains('{'));
    assert!(data[..64].bytes().all(|b| b.is_ascii_hexdigit()));
    let lists: Vec<Vec<usize>> = serde_json::from_slice(&unb64(&key)).unwrap();
    assert_eq!(lists.len(), 4);
    assert_eq!(lists[0], vec![5, 4, 7, 3, 11, 2, 6, 0, 1, 8, 9, 10]);
    assert_eq!(crypt.decrypt(&data, &key, PASSWORD), Ok(MNEMONIC.to_string()));
}

#[test]
fn first_version_wins_over_second() {
    let crypt = DarkstarCrypt::new();
    let (data, key) = crypt.encrypt_parts_with(MNEMONIC, PASSWORD, true, true, &SALT, &IV).unwrap();
    assert!(!data.contains('{'));
    assert!(unb64(&key).starts_with(b"[[5,4,7,3,11,2,6,0,1,8,9,10],["));
}

#[test]
fn a_changed_envelope_fails_authentication() {
    let crypt = DarkstarCrypt::new();
    let (data, key) =
        crypt.encrypt_parts_with(MNEMONIC, PASSWORD, false, false, &SALT, &IV).unwrap();
    let (is_v3, envelope) = DarkstarCrypt::detect(&data).unwrap();
    assert!(is_v3);
    let mut body = unb64(&envelope[56..]);
    body[5] ^= 0x40;
    let changed = format!(
        "{}{}",
        &envelope[..56],
        base64::engine::general_purpose::STANDARD.encode(&body)
    );
    let retagged = DarkstarCrypt::data_text(changed, false, true);
    assert_eq!(crypt.decrypt(&retagged, &key, PASSWORD), Err(DarkstarError::AuthenticationFailed));
}

#[test]
fn a_single_word_round_trips() {
    let crypt = DarkstarCrypt::new();
    let json = crypt.encrypt("hello", "any password", false, false).unwrap();
    let (data, key) = DarkstarCrypt::result_parts(&json).unwrap();
    assert_eq!(DarkstarCrypt::read_reverse_key(&key, true).unwrap().len(), 1);
    assert_eq!(crypt.decrypt(&data, &key, "any password"), Ok("hello".to_string()));
}

#[test]
fn non_ascii_words_round_trip() {
    let crypt = DarkstarCrypt::new();
    let phrase = "caf\u{e9} na\u{ef}ve \u{65e5}\u{672c}\u{8a9e}";
    let json = crypt.encrypt(phrase, PASSWORD, false, false).unwrap();
    let (data, key) = DarkstarCrypt::result_parts(&json).unwrap();
    let back = crypt.decrypt(&data, &key, PASSWORD).unwrap();
    assert_eq!(back.as_bytes(), phrase.as_bytes());
}

#[test]
fn non_ascii_words_round_trip_in_the_second_version() {
    let crypt = DarkstarCrypt::new();
    let (data, key) = crypt.encrypt_parts_with("caf\u{e9}", "p\u{e4}ss", true, false, &SALT, &IV).unwrap();
    assert_eq!(crypt.decrypt(&data, &key, "p\u{e4}ss"), Ok("caf\u{e9}".to_string()));
}

#[test]
fn the_wrong_password_fails_in_the_third_version() {
    let crypt = DarkstarCrypt::new();
    let (data, key) =
        crypt.encrypt_parts_with(MNEMONIC, PASSWORD, false, false, &SALT, &IV).unwrap();
    assert_eq!(
        crypt.decrypt(&data, &key, "MySecre!Password124"),
        Err(DarkstarError::AuthenticationFailed)
    );
}

#[test]
fn the_wrong_password_fails_in_the_second_version() {
    let crypt = DarkstarCrypt::new();
    let (data, key) = crypt.encrypt_parts_with(MNEMONIC, PASSWORD, true, false, &SALT, &IV).unwrap();
    assert!(crypt.decrypt(&data, &key, "MySecre!Password124").is_err());
}

#[test]
fn two_encryptions_differ_and_both_open() {
    let crypt = DarkstarCrypt::new();
    let first = crypt.encrypt("cat dog", PASSWORD, false, false).unwrap();
    let second = crypt.encrypt("cat dog", PASSWORD, false, false).unwrap();
    assert_ne!(first, second);
    let (data, key) = parts(&first);
    let (other_data, other_key) = parts(&second);
    assert_eq!(key, other_key);
    assert_ne!(data, other_data);
    assert_eq!(crypt.decrypt(&data, &key, PASSWORD), Ok("cat dog".to_string()));
    assert_eq!(crypt.decrypt(&other_data, &other_key, PASSWORD), Ok("cat dog".to_string()));
}

#[test]
fn encryption_under_a_given_salt_is_repeatable() {
    let crypt = DarkstarCrypt::new();
    let first = crypt.encrypt_with("cat", PASSWORD, false, false, &SALT, &IV).unwrap();
    let second = crypt.encrypt_with("cat", PASSWORD, false, false, &SALT, &IV).unwrap();
    assert_eq!(first, second);
    assert!(first.starts_with("{\"encryptedData\":\"{\\\"data\\\":\\\"09090909090909090909090909090909"));
    let (data, _) = parts(&first);
    // salt, then the first twelve bytes of the vector
    let (_, envelope) = DarkstarCrypt::detect(&data).unwrap();
    assert_eq!(&envelope[..56], "090909090909090909090909090909090102030405060708090a0b0c");
}

#[test]
fn the_parts_and_the_json_agree() {
    let crypt = DarkstarCrypt::new();
    let json = crypt.encrypt_with("cat", PASSWORD, true, false, &SALT, &IV).unwrap();
    let (data, key) = crypt.encrypt_parts_with("cat", PASSWORD, true, false, &SALT, &IV).unwrap();
    assert_eq!(DarkstarCrypt::result_parts(&json), Some((data.clone(), key.clone())));
    assert_eq!(parts(&json), (data, key));
    assert_eq!(DarkstarCrypt::result_parts("not json"), None);
    assert_eq!(DarkstarCrypt::result_parts("{\"encryptedData\":\"x\"}"), None);
}

#[test]
fn phrases_with_empty_words_round_trip() {
    let crypt = DarkstarCrypt::new();
    let (data, key) = crypt.encrypt_parts_with(" a  b ", "pw", true, false, &SALT, &IV).unwrap();
    assert_eq!(DarkstarCrypt::read_reverse_key(&key, false).unwrap().len(), 5);
    assert_eq!(crypt.decrypt(&data, &key, "pw"), Ok(" a  b ".to_string()));
}

#[test]
fn the_empty_phrase_round_trips() {
    let crypt = DarkstarCrypt::new();
    let (data, key) = crypt.encrypt_parts_with("", "pw", false, false, &SALT, &IV).unwrap();
    assert_eq!(DarkstarCrypt::read_reverse_key(&key, true).unwrap().len(), 1);
    assert_eq!(crypt.decrypt(&data, &key, "pw"), Ok(String::new()));
}

#[test]
fn detecting_the_version() {
    assert_eq!(
        DarkstarCrypt::detect("{\"v\":3,\"data\":\"abc\"}"),
        Ok((true, "abc".to_string()))
    );
    assert_eq!(
        DarkstarCrypt::detect(" { \"data\" : \"abc\", \"v\" : 2 } "),
        Ok((false, "abc".to_string()))
    );
    assert_eq!(DarkstarCrypt::detect("0011aabb"), Ok((false, "0011aabb".to_string())));
    assert_eq!(DarkstarCrypt::detect("{not json"), Ok((false, "{not json".to_string())));
    assert_eq!(
        DarkstarCrypt::detect("{\"data\":\"abc\"}"),
        Ok((false, "{\"data\":\"abc\"}".to_string()))
    );
    assert_eq!(
        DarkstarCrypt::detect("{\"v\":\"3\",\"data\":\"abc\"}"),
        Ok((false, "{\"v\":\"3\",\"data\":\"abc\"}".to_string()))
    );
    assert_eq!(
        DarkstarCrypt::detect("{\"v\":4,\"data\":\"abc\"}"),
        Err(DarkstarError::VersionMismatch)
    );
    assert_eq!(
        DarkstarCrypt::detect("{\"v\":1,\"data\":\"abc\"}"),
        Err(DarkstarError::VersionMismatch)
    );
    assert_eq!(DarkstarCrypt::detect("{\"v\":2}"), Err(DarkstarError::InvalidFormat));
    assert_eq!(DarkstarCrypt::detect("{\"v\":3,\"data\":5}"), Err(DarkstarError::InvalidFormat));
}

#[test]
fn tagging_an_envelope() {
    assert_eq!(DarkstarCrypt::data_text("abc".to_string(), true, false), "abc");
    assert_eq!(
        DarkstarCrypt::data_text("abc".to_string(), false, true),
        "{\"data\":\"abc\",\"v\":3}"
    );
    assert_eq!(
        DarkstarCrypt::data_text("abc".to_string(), false, false),
        "{\"data\":\"abc\",\"v\":2}"
    );
}

#[test]
fn decrypt_reports_what_is_wrong() {
    let crypt = DarkstarCrypt::new();
    let key = DarkstarCrypt::pack_reverse_key(&vec![vec![0; 12]], false).unwrap();
    assert_eq!(crypt.decrypt("{\"v\":9,\"data\":\"x\"}", &key, "pw"), Err(DarkstarError::VersionMismatch));
    assert_eq!(crypt.decrypt("too short", &key, "pw"), Err(DarkstarError::InvalidFormat));
    let current = DarkstarCrypt::pack_reverse_key(&vec![vec![0; 12]], true).unwrap();
    assert_eq!(crypt.decrypt("too short", &current, "pw"), Err(DarkstarError::InvalidReverseKey));
    assert_eq!(
        crypt.decrypt("{\"v\":3,\"data\":\"too short\"}", &current, "pw"),
        Err(DarkstarError::InvalidFormat)
    );
    assert_eq!(crypt.decrypt("too short", "%%%", "pw"), Err(DarkstarError::InvalidFormat));
    assert_eq!(
        crypt.decrypt("{\"v\":2,\"data\":\"x\"}", "AAAA", "pw"),
        Err(DarkstarError::InvalidReverseKey)
    );
}

#[test]
fn a_key_for_other_words_fails_or_gives_other_text() {
    let crypt = DarkstarCrypt::new();
    let (data, _) = crypt.encrypt_parts_with("cat", PASSWORD, true, false, &SALT, &IV).unwrap();
    let other = DarkstarCrypt::pack_reverse_key(&vec![vec![2, 4, 7, 0, 3, 11, 8, 9, 6, 10, 5, 1]], false)
        .unwrap();
    let outcome = crypt.decrypt(&data, &other, PASSWORD);
    assert_ne!(outcome, Ok("cat".to_string()));
}

#[test]
fn fewer_lists_than_records_give_fewer_words() {
    let crypt = DarkstarCrypt::new();
    let (data, key) = crypt.encrypt_parts_with("cat dog", PASSWORD, true, false, &SALT, &IV).unwrap();
    let lists = DarkstarCrypt::read_reverse_key(&key, false).unwrap();
    let first_only = DarkstarCrypt::pack_reverse_key(&lists[..1].to_vec(), false).unwrap();
    assert_eq!(crypt.decrypt(&data, &first_only, PASSWORD), Ok("cat".to_string()));
}

#[test]
fn obfuscating_a_phrase_plans_each_word() {
    let crypt = DarkstarCrypt::new();
    let words = vec![b"cat".to_vec(), b"dog".to_vec()];
    let (done, key) = crypt.obfuscate_phrase(&words, PASSWORD.as_bytes(), false).unwrap();
    assert_eq!(key, vec![
        vec![5, 4, 7, 3, 11, 2, 6, 0, 1, 8, 9, 10],
        vec![2, 4, 7, 0, 3, 11, 8, 9, 6, 10, 5, 1],
    ]);
    assert_eq!(done[0].len(), 494);
    assert_eq!(done[1].len(), 657);
    assert_eq!(crypt.recover(&done, &key, PASSWORD.as_bytes(), false), Ok(b"cat dog".to_vec()));
}

#[test]
fn a_word_that_grows_beyond_a_record_is_refused() {
    let crypt = DarkstarCrypt::new();
    let long = "x".repeat(2000);
    assert_eq!(
        crypt.encrypt_parts_with(&long, PASSWORD, true, false, &SALT, &IV),
        Err(DarkstarError::PipelineError)
    );
}

#[test]
fn checking_the_round_trip() {
    let crypt = DarkstarCrypt::new();
    assert_eq!(crypt.check_round_trip(MNEMONIC, PASSWORD, false, false), Ok(true));
}

#[test]
fn checking_the_round_trip_of_the_first_version() {
    let crypt = DarkstarCrypt::new();
    assert_eq!(crypt.check_round_trip("caf\u{e9} au lait", "pw", false, true), Ok(true));
}

#[test]
fn checking_the_round_trip_reports_a_failed_encryption() {
    let crypt = DarkstarCrypt::new();
    let long = "x".repeat(2000);
    assert_eq!(
        crypt.check_round_trip(&long, PASSWORD, true, false),
        Err(DarkstarError::PipelineError)
    );
}
