//! The sealed envelope: a key derived from the password by PBKDF2, AES-256
//! in CBC mode (first and second version) or in GCM mode (third version),
//! and the text that carries salt, initialisation vector and ciphertext.

use crate::codec::{
    ascii_bytes, base64_bytes, base64_decode, base64_encode, base64_text, hex_bytes, hex_chars,
    hex_decode, hex_encode, is_base64_char, lemma_hex_round_trip, MAX_BYTES,
};
use crate::crypt::DarkstarCrypt;
use crate::error::{bytes_result, DarkstarError};
use aes_gcm::aead::Aead;
use aes_gcm::KeyInit;
use cbc::cipher::block_padding::NoPadding;
use cbc::cipher::{BlockDecryptMut, BlockEncryptMut, KeyIvInit};
use rand::Rng;
use vstd::prelude::*;
use vstd::slice::slice_subrange;
use vstd::string::*;
use vstd::utf8::{encode_utf8, is_ascii_chars, is_ascii_chars_encode_utf8};
use zeroize::Zeroize;

verus! {

/// The number of PBKDF2 iterations that the library derives keys with.
pub const ITERATIONS_V2: u32 = 600_000;

/// The size of a derived key.
pub const KEY_SIZE: usize = 32;

/// The size of a salt.
pub const SALT_SIZE_BYTES: usize = 16;

/// The size of an initialisation vector in CBC mode.
pub const IV_SIZE_BYTES: usize = 16;

/// The size of an initialisation vector in GCM mode.
pub const GCM_IV_SIZE_BYTES: usize = 12;

/// The size of the authentication tag in GCM mode.
pub const GCM_TAG_SIZE_BYTES: usize = 16;

/// The 32-byte key that PBKDF2 with HMAC-SHA256 derives.
pub uninterp spec fn pbkdf2_hmac_sha256(password: Seq<u8>, salt: Seq<u8>, iterations: u32) -> Seq<u8>;

/// Whole blocks encrypted by AES-256 in CBC mode.
pub uninterp spec fn aes256_cbc_encrypted(key: Seq<u8>, iv: Seq<u8>, blocks: Seq<u8>) -> Seq<u8>;

/// Whole blocks decrypted by AES-256 in CBC mode.
pub uninterp spec fn aes256_cbc_decrypted(key: Seq<u8>, iv: Seq<u8>, blocks: Seq<u8>) -> Seq<u8>;

/// The ciphertext of AES-256 in GCM mode, with the tag at its end; none for
/// a plaintext that the mode does not take.
pub uninterp spec fn aes256_gcm_sealed(key: Seq<u8>, nonce: Seq<u8>, plaintext: Seq<u8>) -> Option<
    Seq<u8>,
>;

/// The plaintext of a GCM ciphertext, if its tag is authentic.
pub uninterp spec fn aes256_gcm_opened(key: Seq<u8>, nonce: Seq<u8>, sealed: Seq<u8>) -> Option<
    Seq<u8>,
>;

/// The outcome of an operation that yields text, with the text as a
/// sequence of characters.
pub open spec fn text_result(r: Result<String, DarkstarError>) -> Result<Seq<char>, DarkstarError> {
    match r {
        Ok(text) => Ok(text@),
        Err(e) => Err(e),
    }
}

/// The data extended to whole blocks of sixteen bytes: between one and
/// sixteen bytes are added, each holding their number.
pub open spec fn padded(data: Seq<u8>) -> Seq<u8> {
    let count = 16 - data.len() % 16;
    data + Seq::new(count as nat, |i: int| count as u8)
}

/// The data without its padding: none if the last byte is not between one
/// and sixteen, or if the bytes that it counts do not all hold it.
pub open spec fn unpadded(blocks: Seq<u8>) -> Option<Seq<u8>> {
    if blocks.len() == 0 {
        None
    } else {
        let count = blocks.last() as int;
        if 1 <= count <= 16 && count <= blocks.len() && (forall|i: int|
            blocks.len() - count <= i < blocks.len() ==> #[trigger] blocks[i] == count) {
            Some(blocks.take(blocks.len() - count))
        } else {
            None
        }
    }
}

/// The text of an envelope: the salt and the initialisation vector in
/// hexadecimal, then the ciphertext in base64.
pub open spec fn envelope_text(salt: Seq<u8>, iv: Seq<u8>, ciphertext: Seq<u8>) -> Seq<char> {
    hex_chars(salt) + hex_chars(iv) + base64_text(ciphertext)
}

/// The envelope that seals `data` in CBC mode under the given salt and
/// initialisation vector. `InvalidFormat` for data of more than
/// 2^30 - 16 bytes.
pub open spec fn cbc_sealed(
    data: Seq<u8>,
    password: Seq<u8>,
    iterations: u32,
    salt: Seq<u8>,
    iv: Seq<u8>,
) -> Result<Seq<char>, DarkstarError> {
    if data.len() + 16 > MAX_BYTES {
        Err(DarkstarError::InvalidFormat)
    } else {
        Ok(
            envelope_text(
                salt,
                iv,
                aes256_cbc_encrypted(
                    pbkdf2_hmac_sha256(password, salt, iterations),
                    iv,
                    padded(data),
                ),
            ),
        )
    }
}

/// The envelope that seals `data` in GCM mode under the given salt and
/// initialisation vector. `InvalidFormat` for data of more than
/// 2^30 - 16 bytes.
pub open spec fn gcm_sealed(
    data: Seq<u8>,
    password: Seq<u8>,
    iterations: u32,
    salt: Seq<u8>,
    iv: Seq<u8>,
) -> Result<Seq<char>, DarkstarError> {
    if data.len() + 16 > MAX_BYTES {
        Err(DarkstarError::InvalidFormat)
    } else {
        match aes256_gcm_sealed(pbkdf2_hmac_sha256(password, salt, iterations), iv, data) {
            Some(ciphertext) => Ok(envelope_text(salt, iv, ciphertext)),
            None => Err(DarkstarError::InvalidFormat),
        }
    }
}

/// The three parts of an envelope whose initialisation vector has
/// `iv_digits` hexadecimal digits: salt, initialisation vector, ciphertext.
/// None if the envelope has fewer than 64 bytes or a part is malformed.
pub open spec fn envelope_parts(envelope: Seq<u8>, iv_digits: int) -> Option<
    (Seq<u8>, Seq<u8>, Seq<u8>),
> {
    if envelope.len() < 64 {
        None
    } else {
        match (
            hex_bytes(envelope.subrange(0, 32)),
            hex_bytes(envelope.subrange(32, 32 + iv_digits)),
            base64_bytes(envelope.subrange(32 + iv_digits, envelope.len() as int)),
        ) {
            (Some(salt), Some(iv), Some(ciphertext)) => Some((salt, iv, ciphertext)),
            _ => None,
        }
    }
}

/// What a CBC envelope holds. `InvalidFormat` if the envelope cannot be
/// taken apart or its ciphertext is not made of whole blocks, `PaddingError`
/// if the decrypted blocks are not padded.
pub open spec fn cbc_opened(envelope: Seq<u8>, password: Seq<u8>, iterations: u32) -> Result<
    Seq<u8>,
    DarkstarError,
> {
    match envelope_parts(envelope, 32) {
        Some((salt, iv, ciphertext)) => {
            if ciphertext.len() % 16 != 0 {
                Err(DarkstarError::InvalidFormat)
            } else {
                match unpadded(
                    aes256_cbc_decrypted(
                        pbkdf2_hmac_sha256(password, salt, iterations),
                        iv,
                        ciphertext,
                    ),
                ) {
                    Some(data) => Ok(data),
                    None => Err(DarkstarError::PaddingError),
                }
            }
        },
        None => Err(DarkstarError::InvalidFormat),
    }
}

/// What a GCM envelope holds. `InvalidFormat` if the envelope cannot be
/// taken apart, `AuthenticationFailed` if the tag is not authentic.
pub open spec fn gcm_opened(envelope: Seq<u8>, password: Seq<u8>, iterations: u32) -> Result<
    Seq<u8>,
    DarkstarError,
> {
    match envelope_parts(envelope, 24) {
        Some((salt, iv, ciphertext)) => {
            match aes256_gcm_opened(
                pbkdf2_hmac_sha256(password, salt, iterations),
                iv,
                ciphertext,
            ) {
                Some(data) => Ok(data),
                None => Err(DarkstarError::AuthenticationFailed),
            }
        },
        None => Err(DarkstarError::InvalidFormat),
    }
}

/// Removing the padding undoes adding it.
pub proof fn lemma_unpadded_padded(data: Seq<u8>)
    ensures
        padded(data).len() % 16 == 0,
        padded(data).len() <= data.len() + 16,
        unpadded(padded(data)) == Some(data),
{
    let blocks = padded(data);
    let count = 16 - data.len() % 16;
    assert(blocks.len() == data.len() + count);
    assert(blocks.last() == count as u8);
    assert(blocks.take(blocks.len() - count) =~= data);
}

/// An envelope text is taken apart into the parts that it was made of:
/// for a salt of 16 bytes, an initialisation vector of half as many bytes as
/// it has digits, and a base64 text that stands for the ciphertext. No
/// character of it is an opening brace.
pub proof fn lemma_envelope_parts(
    salt: Seq<u8>,
    iv: Seq<u8>,
    body: Seq<char>,
    ciphertext: Seq<u8>,
    iv_digits: int,
)
    requires
        salt.len() == 16,
        iv_digits == 2 * iv.len(),
        iv_digits == 32 || (iv_digits == 24 && body.len() >= 8),
        forall|i: int| 0 <= i < body.len() ==> is_base64_char(#[trigger] body[i]),
        base64_bytes(encode_utf8(body)) == Some(ciphertext),
    ensures
        is_ascii_chars(hex_chars(salt) + hex_chars(iv) + body),
        forall|i: int|
            0 <= i < (hex_chars(salt) + hex_chars(iv) + body).len() ==> #[trigger] (hex_chars(salt)
                + hex_chars(iv) + body)[i] != '{',
        envelope_parts(encode_utf8(hex_chars(salt) + hex_chars(iv) + body), iv_digits) == Some(
            (salt, iv, ciphertext),
        ),
{
    let text = hex_chars(salt) + hex_chars(iv) + body;
    lemma_hex_round_trip(salt);
    lemma_hex_round_trip(iv);
    assert(is_ascii_chars(body));
    assert(is_ascii_chars(text));
    assert forall|i: int| 0 <= i < text.len() implies #[trigger] text[i] != '{' by {
        if i < 32 {
            assert(text[i] == hex_chars(salt)[i]);
        } else if i < 32 + iv_digits {
            assert(text[i] == hex_chars(iv)[i - 32]);
        } else {
            assert(text[i] == body[i - 32 - iv_digits]);
            assert(is_base64_char(body[i - 32 - iv_digits]));
        }
    }
    let raw = encode_utf8(text);
    is_ascii_chars_encode_utf8(text);
    is_ascii_chars_encode_utf8(body);
    assert(raw.subrange(0, 32) =~= ascii_bytes(hex_chars(salt)));
    assert(raw.subrange(32, 32 + iv_digits) =~= ascii_bytes(hex_chars(iv)));
    assert(raw.subrange(32 + iv_digits, raw.len() as int) =~= encode_utf8(body));
}

/// Calls `pbkdf2::pbkdf2` with HMAC-SHA256 for a key of 32 bytes. The
/// contract names the key.
#[verifier::external_body]
pub(crate) fn derive_key(password: &[u8], salt: &[u8], iterations: u32) -> (key: [u8; 32])
    ensures
        key@ == pbkdf2_hmac_sha256(password@, salt@, iterations),
{
    let mut key = [0u8; 32];
    let _ = pbkdf2::pbkdf2::<hmac::Hmac<sha2::Sha256>>(password, salt, iterations, &mut key);
    key
}

/// Calls `zeroize` on a key: every byte is overwritten with zero.
#[verifier::external_body]
pub(crate) fn wipe(key: &mut [u8; 32])
    ensures
        forall|i: int| 0 <= i < 32 ==> final(key)@[i] == 0,
{
    key.zeroize();
}

/// Calls `fill` on `rand::thread_rng()`: fresh random bytes, of which
/// nothing is known. The generator stops the program if the system gives it
/// no randomness.
#[verifier::external_body]
pub(crate) fn random_bytes<const N: usize>() -> (bytes: [u8; N]) {
    let mut bytes = [0u8;N];
    rand::thread_rng().fill(&mut bytes[..]);
    bytes
}

/// Calls `encrypt_padded_mut` of `cbc::Encryptor<aes::Aes256>` without
/// padding, on whole blocks. The contract names the ciphertext, and states
/// that it is as long as the input and that CBC decryption under the same
/// key and vector gives the input back.
#[verifier::external_body]
pub(crate) fn cbc_encrypt(key: &[u8; 32], iv: &[u8], blocks: &[u8]) -> (ciphertext: Vec<u8>)
    requires
        iv@.len() == 16,
        blocks@.len() % 16 == 0,
    ensures
        ciphertext@ == aes256_cbc_encrypted(key@, iv@, blocks@),
        ciphertext@.len() == blocks@.len(),
        aes256_cbc_decrypted(key@, iv@, ciphertext@) == blocks@,
{
    let cipher = cbc::Encryptor::<aes::Aes256>::new_from_slices(key, iv).unwrap();
    let mut buffer = blocks.to_vec();
    let len = buffer.len();
    let _ = cipher.encrypt_padded_mut::<NoPadding>(&mut buffer, len);
    buffer
}

/// Calls `decrypt_padded_mut` of `cbc::Decryptor<aes::Aes256>` without
/// padding, on whole blocks. The contract names the result and states that
/// it is as long as the input.
#[verifier::external_body]
pub(crate) fn cbc_decrypt(key: &[u8; 32], iv: &[u8], blocks: &[u8]) -> (plaintext: Vec<u8>)
    requires
        iv@.len() == 16,
        blocks@.len() % 16 == 0,
    ensures
        plaintext@ == aes256_cbc_decrypted(key@, iv@, blocks@),
        plaintext@.len() == blocks@.len(),
{
    let cipher = cbc::Decryptor::<aes::Aes256>::new_from_slices(key, iv).unwrap();
    let mut buffer = blocks.to_vec();
    let _ = cipher.decrypt_padded_mut::<NoPadding>(&mut buffer);
    buffer
}

/// Calls `encrypt` of `aes_gcm::Aes256Gcm` with no associated data. The
/// contract names the ciphertext, and states that one is returned for every
/// plaintext of at most 2^36 bytes, that it is 16 bytes longer than the
/// plaintext, and that `decrypt` under the same key and nonce gives the
/// plaintext back.
#[verifier::external_body]
pub(crate) fn gcm_encrypt(key: &[u8; 32], nonce: &[u8], plaintext: &[u8]) -> (sealed: Option<
    Vec<u8>,
>)
    requires
        nonce@.len() == 12,
        plaintext@.len() + 16 <= usize::MAX,
    ensures
        sealed is Some <==> aes256_gcm_sealed(key@, nonce@, plaintext@) is Some,
        plaintext@.len() <= 0x10_0000_0000 ==> sealed is Some,
        sealed matches Some(c) ==> {
            &&& aes256_gcm_sealed(key@, nonce@, plaintext@) == Some(c@)
            &&& c@.len() == plaintext@.len() + 16
            &&& aes256_gcm_opened(key@, nonce@, c@) == Some(plaintext@)
        },
{
    let cipher = aes_gcm::Aes256Gcm::new(key.into());
    cipher.encrypt(aes_gcm::Nonce::from_slice(nonce), plaintext).ok()
}

/// Calls `decrypt` of `aes_gcm::Aes256Gcm` with no associated data: the
/// plaintext, or nothing if the crate refuses the ciphertext.
#[verifier::external_body]
pub(crate) fn gcm_decrypt(key: &[u8; 32], nonce: &[u8], sealed: &[u8]) -> (plaintext: Option<
    Vec<u8>,
>)
    requires
        nonce@.len() == 12,
    ensures
        plaintext is Some <==> aes256_gcm_opened(key@, nonce@, sealed@) is Some,
        plaintext matches Some(p) ==> aes256_gcm_opened(key@, nonce@, sealed@) == Some(p@),
{
    let cipher = aes_gcm::Aes256Gcm::new(key.into());
    cipher.decrypt(aes_gcm::Nonce::from_slice(nonce), sealed).ok()
}

/// Extends `data` to whole blocks.
fn pad(data: &[u8]) -> (blocks: Vec<u8>)
    requires
        data@.len() + 16 <= usize::MAX,
    ensures
        blocks@ == padded(data@),
{
    let count = 16 - data.len() % 16;
    let mut blocks: Vec<u8> = Vec::new();
    blocks.extend_from_slice(data);
    let ghost filling = Seq::new(count as nat, |i: int| count as u8);
    let mut i: usize = 0;
    while i < count
        invariant
            i <= count <= 16,
            filling == Seq::new(count as nat, |i: int| count as u8),
            blocks@ == data@ + filling.take(i as int),
        decreases count - i,
    {
        blocks.push(count as u8);
        proof {
            assert(data@ + filling.take(i + 1) =~= (data@ + filling.take(i as int)).push(
                count as u8,
            ));
        }
        i = i + 1;
    }
    proof {
        assert(filling.take(count as int) =~= filling);
    }
    blocks
}

/// Removes the padding from decrypted blocks.
fn unpad(blocks: Vec<u8>) -> (data: Option<Vec<u8>>)
    ensures
        data is Some <==> unpadded(blocks@) is Some,
        data matches Some(d) ==> unpadded(blocks@) == Some(d@),
{
    let n = blocks.len();
    if n == 0 {
        return None;
    }
    let count = blocks[n - 1] as usize;
    if count == 0 || count > 16 || count > n {
        return None;
    }
    let mut i: usize = n - count;
    while i < n
        invariant
            n == blocks@.len(),
            count == blocks@.last(),
            1 <= count <= 16,
            count <= n,
            n - count <= i <= n,
            forall|k: int| n - count <= k < i ==> #[trigger] blocks@[k] == count,
        decreases n - i,
    {
        if blocks[i] as usize != count {
            return None;
        }
        i = i + 1;
    }
    let mut data = blocks;
    data.truncate(n - count);
    Some(data)
}

/// The text of an envelope.
fn envelope(salt: &[u8], iv: &[u8], ciphertext: &[u8]) -> (text: String)
    requires
        ciphertext@.len() <= MAX_BYTES,
    ensures
        text@ == envelope_text(salt@, iv@, ciphertext@),
        text@ == hex_chars(salt@) + hex_chars(iv@) + base64_text(ciphertext@),
        base64_text(ciphertext@).len() == (ciphertext@.len() + 2) / 3 * 4,
        forall|i: int|
            0 <= i < base64_text(ciphertext@).len() ==> is_base64_char(
                #[trigger] base64_text(ciphertext@)[i],
            ),
        base64_bytes(encode_utf8(base64_text(ciphertext@))) == Some(ciphertext@),
{
    let mut text = hex_encode(salt);
    let iv_text = hex_encode(iv);
    text.append(iv_text.as_str());
    let body = base64_encode(ciphertext);
    text.append(body.as_str());
    text
}

/// The three parts of an envelope.
fn take_apart(envelope: &[u8], iv_digits: usize) -> (parts: Option<(Vec<u8>, Vec<u8>, Vec<u8>)>)
    requires
        iv_digits == 32 || iv_digits == 24,
    ensures
        parts is Some <==> envelope_parts(envelope@, iv_digits as int) is Some,
        parts matches Some((salt, iv, ciphertext)) ==> envelope_parts(
            envelope@,
            iv_digits as int,
        ) == Some((salt@, iv@, ciphertext@)) && iv@.len() * 2 == iv_digits,
{
    if envelope.len() < 64 {
        return None;
    }
    let salt = hex_decode(slice_subrange(envelope, 0, 32));
    let iv = hex_decode(slice_subrange(envelope, 32, 32 + iv_digits));
    let ciphertext = base64_decode(slice_subrange(envelope, 32 + iv_digits, envelope.len()));
    match (salt, iv, ciphertext) {
        (Some(salt), Some(iv), Some(ciphertext)) => Some((salt, iv, ciphertext)),
        _ => None,
    }
}

impl DarkstarCrypt {
    /// Seals `data` in CBC mode under the given salt and initialisation
    /// vector. The envelope that is returned opens to `data` under the same
    /// password and iteration count.
    pub fn encrypt_aes256_with(
        data: &[u8],
        password: &[u8],
        iterations: u32,
        salt: &[u8; 16],
        iv: &[u8; 16],
    ) -> (r: Result<String, DarkstarError>)
        ensures
            text_result(r) == cbc_sealed(data@, password@, iterations, salt@, iv@),
            r matches Ok(text) ==> {
                &&& cbc_opened(encode_utf8(text@), password@, iterations) == Ok::<
                    Seq<u8>,
                    DarkstarError,
                >(data@)
                &&& forall|i: int| 0 <= i < text@.len() ==> #[trigger] text@[i] != '{'
            },
    {
        if data.len() > MAX_BYTES - 16 {
            return Err(DarkstarError::InvalidFormat);
        }
        let mut key = derive_key(password, salt.as_slice(), iterations);
        let blocks = pad(data);
        proof {
            lemma_unpadded_padded(data@);
        }
        let ciphertext = cbc_encrypt(&key, iv.as_slice(), blocks.as_slice());
        wipe(&mut key);
        let text = envelope(salt.as_slice(), iv.as_slice(), ciphertext.as_slice());
        proof {
            lemma_envelope_parts(salt@, iv@, base64_text(ciphertext@), ciphertext@, 32);
        }
        Ok(text)
    }

    /// Seals `data` in CBC mode under a fresh random salt and initialisation
    /// vector. `InvalidFormat` for data of more than 2^30 - 16 bytes.
    pub fn encrypt_aes256(&self, data: &str, password: &str, iterations: u32) -> (r: Result<
        String,
        DarkstarError,
    >)
        ensures
            exists|salt: Seq<u8>, iv: Seq<u8>|
                salt.len() == 16 && iv.len() == 16 && text_result(r) == #[trigger] cbc_sealed(
                    data.spec_bytes(),
                    password.spec_bytes(),
                    iterations,
                    salt,
                    iv,
                ),
            r matches Ok(text) ==> cbc_opened(
                encode_utf8(text@),
                password.spec_bytes(),
                iterations,
            ) == Ok::<Seq<u8>, DarkstarError>(data.spec_bytes()),
    {
        let salt = random_bytes::<16>();
        let iv = random_bytes::<16>();
        Self::encrypt_aes256_with(data.as_bytes(), password.as_bytes(), iterations, &salt, &iv)
    }

    /// Seals `data` in GCM mode under the given salt and initialisation
    /// vector. The envelope that is returned opens to `data` under the same
    /// password and iteration count.
    pub fn encrypt_aes256_gcm_with(
        data: &[u8],
        password: &[u8],
        iterations: u32,
        salt: &[u8; 16],
        iv: &[u8; 12],
    ) -> (r: Result<String, DarkstarError>)
        ensures
            text_result(r) == gcm_sealed(data@, password@, iterations, salt@, iv@),
            data@.len() + 16 <= MAX_BYTES ==> r is Ok,
            r matches Ok(text) ==> {
                &&& gcm_opened(encode_utf8(text@), password@, iterations) == Ok::<
                    Seq<u8>,
                    DarkstarError,
                >(data@)
                &&& forall|i: int| 0 <= i < text@.len() ==> #[trigger] text@[i] != '{'
            },
    {
        if data.len() > MAX_BYTES - 16 {
            return Err(DarkstarError::InvalidFormat);
        }
        let mut key = derive_key(password, salt.as_slice(), iterations);
        let sealed = gcm_encrypt(&key, iv.as_slice(), data);
        wipe(&mut key);
        match sealed {
            Some(ciphertext) => {
                let text = envelope(salt.as_slice(), iv.as_slice(), ciphertext.as_slice());
                proof {
                    lemma_envelope_parts(salt@, iv@, base64_text(ciphertext@), ciphertext@, 24);
                }
                Ok(text)
            },
            None => Err(DarkstarError::InvalidFormat),
        }
    }

    /// Seals `data` in GCM mode under a fresh random salt and initialisation
    /// vector. `InvalidFormat` for data of more than 2^30 - 16 bytes.
    pub fn encrypt_aes256_gcm(&self, data: &str, password: &str, iterations: u32) -> (r: Result<
        String,
        DarkstarError,
    >)
        ensures
            exists|salt: Seq<u8>, iv: Seq<u8>|
                salt.len() == 16 && iv.len() == 12 && text_result(r) == #[trigger] gcm_sealed(
                    data.spec_bytes(),
                    password.spec_bytes(),
                    iterations,
                    salt,
                    iv,
                ),
            data.spec_bytes().len() + 16 <= MAX_BYTES ==> r is Ok,
            r matches Ok(text) ==> gcm_opened(
                encode_utf8(text@),
                password.spec_bytes(),
                iterations,
            ) == Ok::<Seq<u8>, DarkstarError>(data.spec_bytes()),
    {
        let salt = random_bytes::<16>();
        let iv = random_bytes::<12>();
        Self::encrypt_aes256_gcm_with(data.as_bytes(), password.as_bytes(), iterations, &salt, &iv)
    }

    /// Opens a CBC envelope. `InvalidFormat` if the envelope has fewer than
    /// 64 bytes, if its salt or vector is not hexadecimal or its body not
    /// base64, or if the ciphertext is not made of whole blocks;
    /// `PaddingError` if the decrypted blocks are not padded.
    pub fn decrypt_aes256(&self, transit_message: &str, password: &str, iterations: u32) -> (r:
        Result<Vec<u8>, DarkstarError>)
        ensures
            bytes_result(r) == cbc_opened(
                transit_message.spec_bytes(),
                password.spec_bytes(),
                iterations,
            ),
    {
        let (salt, iv, ciphertext) = match take_apart(transit_message.as_bytes(), 32) {
            Some(parts) => parts,
            None => {
                return Err(DarkstarError::InvalidFormat);
            },
        };
        if ciphertext.len() % 16 != 0 {
            return Err(DarkstarError::InvalidFormat);
        }
        let mut key = derive_key(password.as_bytes(), salt.as_slice(), iterations);
        let blocks = cbc_decrypt(&key, iv.as_slice(), ciphertext.as_slice());
        wipe(&mut key);
        match unpad(blocks) {
            Some(data) => Ok(data),
            None => Err(DarkstarError::PaddingError),
        }
    }

    /// Opens a GCM envelope. `InvalidFormat` if the envelope has fewer than
    /// 64 bytes, or if its salt or vector is not hexadecimal or its body not
    /// base64; `AuthenticationFailed` if the tag is not authentic.
    pub fn decrypt_aes256_gcm(&self, transit_message: &str, password: &str, iterations: u32) -> (r:
        Result<Vec<u8>, DarkstarError>)
        ensures
            bytes_result(r) == gcm_opened(
                transit_message.spec_bytes(),
                password.spec_bytes(),
                iterations,
            ),
    {
        let (salt, iv, ciphertext) = match take_apart(transit_message.as_bytes(), 24) {
            Some(parts) => parts,
            None => {
                return Err(DarkstarError::InvalidFormat);
            },
        };
        let mut key = derive_key(password.as_bytes(), salt.as_slice(), iterations);
        let opened = gcm_decrypt(&key, iv.as_slice(), ciphertext.as_slice());
        wipe(&mut key);
        match opened {
            Some(data) => Ok(data),
            None => Err(DarkstarError::AuthenticationFailed),
        }
    }
}

} // verus!
