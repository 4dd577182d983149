[package]
name = "darkstar"
version = "0.1.0"
edition = "2021"
publish = false

[dependencies]
aes = "0.8"
aes-gcm = "0.10"
base64 = "0.22"
cbc = "0.1"
hex = "0.4"
hmac = "0.12"
pbkdf2 = "0.12"
rand = "0.8"
serde_json = "1"
sha2 = "0.10"
zeroize = "1"
