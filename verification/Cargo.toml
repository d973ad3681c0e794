[package]
name = "dupfind"
version = "0.1.0"
edition = "2021"
publish = false

[dependencies]
blake3 = "*"
xxhash-rust = { version = "*", features = ["xxh3"] }
rayon = "*"
indicatif = "*"
opener = "*"
serde = { version = "*", features = ["derive"] }
serde_json = "*"
