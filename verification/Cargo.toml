[package]
name = "ecash_ng_crypto"
version = "0.1.0"
edition = "2021"
publish = false

[dependencies]
bls12_381 = { version = "=0.8.0", features = ["experimental"] }
ff = "=0.13.1"
group = "=0.13.0"
rand = "=0.8.8"
bitcoin_hashes = "=0.14.101"
sha2 = "=0.9.9"
rayon = "1"
