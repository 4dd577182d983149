use aes_gcm::aead::Aead;
use aes_gcm::KeyInit;
use base64::Engine;
use cbc::cipher::block_padding::Pkcs7;
use cbc::cipher::{BlockDecryptMut, BlockEncryptMut, KeyIvInit};
use darkstar::crypt::DarkstarCrypt;
use darkstar::error::DarkstarError;

const SALT: [u8; 16] = [0, 1, 2, 3, 4, 5, 6, 7, 8, 9, 10, 11, 12, 13, 14, 255];
const IV: [u8; 16] = [16, 17, 18, 19, 20, 21, 22, 23, 24, 25, 26, 27, 28, 29, 30, 31];
const NONCE: [u8; 12] = [160, 161, 162, 163, 164, 165, 166, 167, 168, 169, 170, 171];
const ROUNDS: u32 = 1000;

fn key_of(password: &[u8], salt: &[u8], rounds: u32) -> [u8; 32] {
    let mut key = [0u8; 32];
    pbkdf2::pbkdf2::<hmac::Hmac<sha2::Sha256>>(password, salt, rounds, &mut key).unwrap();
    key
}

fn b64(bytes: &[u8]) -> String {
    base64::engine::general_purpose::STANDARD.encode(bytes)
}

fn cbc_reference(data: &[u8], password: &[u8], rounds: u32) -> String {
    let key = key_of(password, &SALT, rounds);
    let cipher = cbc::Encryptor::<aes::Aes256>::new_from_slices(&key, &IV).unwrap();
    let mut buffer = vec![0u8; data.len() + 16];
    buffer[..data.len()].copy_from_slice(data);
    let sealed = cipher.encrypt_padded_mut::<Pkcs7>(&mut buffer, data.len()).unwrap().to_vec();
    format!("{}{}{}", hex::encode(SALT), hex::encode(IV), b64(&sealed))
}

fn gcm_reference(data: &[u8], password: &[u8], rounds: u32) -> String {
    let key = key_of(password, &SALT, rounds);
    let cipher = aes_gcm::Aes256Gcm::new_from_slice(&key).unwrap();
    let sealed = cipher.encrypt(aes_gcm::Nonce::from_slice(&NONCE), data).unwrap();
    format!("{}{}{}", hex::encode(SALT), hex::encode(NONCE), b64(&sealed))
}

#[test]
fn cbc_envelope_matches_the_reference() {
    for data in ["", "a", "fifteen bytes!!", "sixteen bytes!!!", "seventeen bytes!!", "caf\u{e9}"] {
        let got =
            DarkstarCrypt::encrypt_aes256_with(data.as_bytes(), b"password", ROUNDS, &SALT, &IV)
                .unwrap();
        assert_eq!(got, cbc_reference(data.as_bytes(), b"password", ROUNDS));
        assert!(got.starts_with("000102030405060708090a0b0c0d0eff101112131415161718191a1b1c1d1e1f"));
    }
}

#[test]
fn cbc_envelope_opens() {
    let crypt = DarkstarCrypt::new();
    for data in ["", "a", "fifteen bytes!!", "sixteen bytes!!!", "seventeen bytes!!"] {
        let sealed =
            DarkstarCrypt::encrypt_aes256_with(data.as_bytes(), b"password", ROUNDS, &SALT, &IV)
                .unwrap();
        assert_eq!(crypt.decrypt_aes256(&sealed, "password", ROUNDS), Ok(data.as_bytes().to_vec()));
    }
}

#[test]
fn cbc_opens_what_the_reference_sealed() {
    let crypt = DarkstarCrypt::new();
    let sealed = cbc_reference(b"some text", b"pw", 7);
    assert_eq!(crypt.decrypt_aes256(&sealed, "pw", 7), Ok(b"some text".to_vec()));
    // upper-case hexadecimal is read as well
    let upper = format!("{}{}", sealed[..64].to_uppercase(), &sealed[64..]);
    assert_eq!(crypt.decrypt_aes256(&upper, "pw", 7), Ok(b"some text".to_vec()));
}

#[test]
fn the_reference_opens_what_cbc_sealed() {
    let sealed = DarkstarCrypt::encrypt_aes256_with(b"some text", b"pw", 7, &SALT, &IV).unwrap();
    let body = base64::engine::general_purpose::STANDARD.decode(&sealed[64..]).unwrap();
    assert_eq!(body.len(), 16);
    let key = key_of(b"pw", &SALT, 7);
    let cipher = cbc::Decryptor::<aes::Aes256>::new_from_slices(&key, &IV).unwrap();
    let mut buffer = body.clone();
    let plain = cipher.decrypt_padded_mut::<Pkcs7>(&mut buffer).unwrap();
    assert_eq!(plain, b"some text");
}

#[test]
fn cbc_with_random_salt_differs_and_opens() {
    let crypt = DarkstarCrypt::new();
    let a = crypt.encrypt_aes256("data", "pw", 10).unwrap();
    let b = crypt.encrypt_aes256("data", "pw", 10).unwrap();
    assert_ne!(a, b);
    assert_eq!(a.len(), 64 + 24);
    assert_eq!(crypt.decrypt_aes256(&a, "pw", 10), Ok(b"data".to_vec()));
    assert_eq!(crypt.decrypt_aes256(&b, "pw", 10), Ok(b"data".to_vec()));
}

#[test]
fn cbc_errors() {
    let crypt = DarkstarCrypt::new();
    let sealed = DarkstarCrypt::encrypt_aes256_with(b"some text", b"pw", 7, &SALT, &IV).unwrap();
    assert_eq!(crypt.decrypt_aes256("", "pw", 7), Err(DarkstarError::InvalidFormat));
    assert_eq!(crypt.decrypt_aes256(&sealed[..63], "pw", 7), Err(DarkstarError::InvalidFormat));
    let bad_salt = format!("zz{}", &sealed[2..]);
    assert_eq!(crypt.decrypt_aes256(&bad_salt, "pw", 7), Err(DarkstarError::InvalidFormat));
    let bad_iv = format!("{}g{}", &sealed[..40], &sealed[41..]);
    assert_eq!(crypt.decrypt_aes256(&bad_iv, "pw", 7), Err(DarkstarError::InvalidFormat));
    let bad_body = format!("{}*", &sealed[..sealed.len() - 1]);
    assert_eq!(crypt.decrypt_aes256(&bad_body, "pw", 7), Err(DarkstarError::InvalidFormat));
    let short_body = format!("{}{}", &sealed[..64], b64(&[1, 2, 3]));
    assert_eq!(crypt.decrypt_aes256(&short_body, "pw", 7), Err(DarkstarError::InvalidFormat));
    // an envelope without ciphertext has no padding
    assert_eq!(crypt.decrypt_aes256(&sealed[..64], "pw", 7), Err(DarkstarError::PaddingError));
    let non_ascii = format!("{}\u{e9}{}", &sealed[..31], &sealed[33..]);
    assert_eq!(crypt.decrypt_aes256(&non_ascii, "pw", 7), Err(DarkstarError::InvalidFormat));
}

fn seal_blocks(blocks: &[u8]) -> String {
    let key = key_of(b"pw", &SALT, 7);
    let mut cipher = cbc::Encryptor::<aes::Aes256>::new_from_slices(&key, &IV).unwrap();
    let mut buffer = blocks.to_vec();
    for chunk in buffer.chunks_mut(16) {
        cipher.encrypt_block_mut(cbc::cipher::generic_array::GenericArray::from_mut_slice(chunk));
    }
    format!("{}{}{}", hex::encode(SALT), hex::encode(IV), b64(&buffer))
}

#[test]
fn cbc_padding_is_checked() {
    let crypt = DarkstarCrypt::new();
    let mut good = vec![b'x'; 13];
    good.extend_from_slice(&[3, 3, 3]);
    assert_eq!(crypt.decrypt_aes256(&seal_blocks(&good), "pw", 7), Ok(vec![b'x'; 13]));
    assert_eq!(crypt.decrypt_aes256(&seal_blocks(&[16; 16]), "pw", 7), Ok(vec![]));

    let mut zero = vec![b'x'; 15];
    zero.push(0);
    assert_eq!(crypt.decrypt_aes256(&seal_blocks(&zero), "pw", 7), Err(DarkstarError::PaddingError));
    let mut large = vec![b'x'; 15];
    large.push(17);
    assert_eq!(crypt.decrypt_aes256(&seal_blocks(&large), "pw", 7), Err(DarkstarError::PaddingError));
    let mut uneven = vec![b'x'; 13];
    uneven.extend_from_slice(&[3, 2, 3]);
    assert_eq!(crypt.decrypt_aes256(&seal_blocks(&uneven), "pw", 7), Err(DarkstarError::PaddingError));
}

#[test]
fn gcm_envelope_matches_the_reference() {
    for data in ["", "a", "sixteen bytes!!!", "a longer text of the third version"] {
        let got = DarkstarCrypt::encrypt_aes256_gcm_with(
            data.as_bytes(),
            b"password",
            ROUNDS,
            &SALT,
            &NONCE,
        )
        .unwrap();
        assert_eq!(got, gcm_reference(data.as_bytes(), b"password", ROUNDS));
        assert!(got.starts_with("000102030405060708090a0b0c0d0effa0a1a2a3a4a5a6a7a8a9aaab"));
    }
}

#[test]
fn gcm_envelope_opens() {
    let crypt = DarkstarCrypt::new();
    for data in ["", "a", "sixteen bytes!!!", "a longer text of the third version"] {
        let sealed =
            DarkstarCrypt::encrypt_aes256_gcm_with(data.as_bytes(), b"pw", 3, &SALT, &NONCE)
                .unwrap();
        assert_eq!(sealed.len(), 56 + (data.len() + 16 + 2) / 3 * 4);
        assert_eq!(crypt.decrypt_aes256_gcm(&sealed, "pw", 3), Ok(data.as_bytes().to_vec()));
    }
    let sealed = gcm_reference(b"from elsewhere", b"pw", 3);
    assert_eq!(crypt.decrypt_aes256_gcm(&sealed, "pw", 3), Ok(b"from elsewhere".to_vec()));
}

#[test]
fn gcm_with_random_salt_differs_and_opens() {
    let crypt = DarkstarCrypt::new();
    let a = crypt.encrypt_aes256_gcm("data", "pw", 10).unwrap();
    let b = crypt.encrypt_aes256_gcm("data", "pw", 10).unwrap();
    assert_ne!(a, b);
    assert_eq!(crypt.decrypt_aes256_gcm(&a, "pw", 10), Ok(b"data".to_vec()));
    assert_eq!(crypt.decrypt_aes256_gcm(&b, "pw", 10), Ok(b"data".to_vec()));
}

#[test]
fn gcm_errors() {
    let crypt = DarkstarCrypt::new();
    let sealed =
        DarkstarCrypt::encrypt_aes256_gcm_with(b"some text", b"pw", 7, &SALT, &NONCE).unwrap();
    assert_eq!(crypt.decrypt_aes256_gcm(&sealed[..63], "pw", 7), Err(DarkstarError::InvalidFormat));
    let bad_salt = format!("zz{}", &sealed[2..]);
    assert_eq!(crypt.decrypt_aes256_gcm(&bad_salt, "pw", 7), Err(DarkstarError::InvalidFormat));
    let bad_body = format!("{}*", &sealed[..sealed.len() - 1]);
    assert_eq!(crypt.decrypt_aes256_gcm(&bad_body, "pw", 7), Err(DarkstarError::InvalidFormat));
    assert_eq!(
        crypt.decrypt_aes256_gcm(&sealed, "other", 7),
        Err(DarkstarError::AuthenticationFailed)
    );
    assert_eq!(
        crypt.decrypt_aes256_gcm(&sealed, "pw", 8),
        Err(DarkstarError::AuthenticationFailed)
    );
    // a body shorter than a tag
    let short = format!("{}{}", &sealed[..56], b64(&[1, 2, 3, 4, 5, 6]));
    assert_eq!(crypt.decrypt_aes256_gcm(&short, "pw", 7), Err(DarkstarError::AuthenticationFailed));
}

#[test]
fn gcm_detects_a_changed_byte() {
    let crypt = DarkstarCrypt::new();
    let sealed =
        DarkstarCrypt::encrypt_aes256_gcm_with(b"some text", b"pw", 7, &SALT, &NONCE).unwrap();
    let mut body = base64::engine::general_purpose::STANDARD.decode(&sealed[56..]).unwrap();
    for i in 0..body.len() {
        body[i] ^= 1;
        let changed = format!("{}{}", &sealed[..56], b64(&body));
        assert_eq!(
            crypt.decrypt_aes256_gcm(&changed, "pw", 7),
            Err(DarkstarError::AuthenticationFailed)
        );
        body[i] ^= 1;
    }
}
