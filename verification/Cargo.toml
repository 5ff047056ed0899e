[package]
name = "mempool"
version = "0.1.0"
edition = "2021"
publish = false

[dependencies]
ed25519-dalek = "1"
rust-crypto = "0.2"
merkle_light = "*"
serde = { version = "1", features = ["derive"] }
sha2 = "*"
sha3 = "*"
