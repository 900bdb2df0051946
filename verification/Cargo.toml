[package]
name = "s3p"
version = "0.1.0"
edition = "2021"
publish = false

[dependencies]
chacha20poly1305 = "0.10"
zeroize = "1"
rand = "0.8"
sha2 = "0.10"
blake3 = "1"
hex = "0.4"
reed-solomon-erasure = "6"
ed25519-dalek = { version = "2", features = ["rand_core"] }
serde = { version = "1", features = ["derive"] }
serde_json = "1"
base64 = "0.22"
