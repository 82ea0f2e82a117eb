[package]
name = "treesync"
version = "0.1.0"
edition = "2021"
publish = false

[dependencies]
base64 = "=0.13.1"
hkdf = "=0.13.0"
hpke-rs = { version = "=0.8.0", features = ["hazmat"] }
hpke-rs-crypto = "=0.8.0"
hpke-rs-rust-crypto = "=0.8.0"
serde = { version = "*", features = ["derive"] }
serde_json = "*"
sha2 = "=0.11.0"
tempfile = "*"
thiserror = "*"
