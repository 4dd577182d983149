//! Password-based encryption of mnemonic phrases.
//!
//! Every word of a phrase is passed through a password-dependent sequence of
//! reversible byte transforms, the transformed words are framed into one blob,
//! and the blob is sealed with AES-256 under a key derived from the password.
//! The sequence applied to each word is recorded in a reverse key, which is
//! needed, together with the password, to recover the phrase.

pub mod blob;
pub mod codec;
pub mod crypt;
pub mod envelope;
pub mod error;
pub mod hash;
pub mod json;
pub mod numeric;
pub mod pipeline;
pub mod plain;
pub mod planner;
pub mod prng;
pub mod reverse_key;
pub mod seeded;
pub mod shuffle;
pub mod text;
pub mod transform;
