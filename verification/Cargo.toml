[package]
name = "backboard"
version = "0.1.0"
edition = "2021"
publish = false

[dependencies]
base64 = "0.22"
pbkdf2 = "0.12"
sha2 = "0.10"
libaes = "0.7"
rand = "0.8"
safe_pqc_kyber = "*"
crypto-hash = "0.3"
csv = "1"
serde = { version = "1", features = ["derive"] }
serde_json = "1"
