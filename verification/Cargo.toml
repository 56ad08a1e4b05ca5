[package]
name = "freechess"
version = "0.1.0"
edition = "2021"
publish = false

[dependencies]
blake3 = { version = "1", default-features = false }
bs58 = "0.5"
chrono = { version = "0.4", default-features = false, features = ["alloc"] }
ciborium = "0.2"
ed25519-dalek = { version = "2", features = ["serde", "rand_core"] }
freenet-scaffold = "*"
freenet-stdlib = "*"
rand = "0.8"
serde = { version = "1", features = ["derive"] }
