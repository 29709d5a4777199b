[package]
name = "rustmacaroon"
version = "0.1.0"
edition = "2021"
publish = false

[dependencies]
base64 = "*"
hmac = "*"
sha2 = "*"
serde = { version = "*", features = ["derive"] }
serde_json = "*"
canonical_json = "*"

[dev-dependencies]
rand = "0.8"
crypto-common = { version = "*", features = ["rand_core"] }
generic-array = "*"
