[package]
name = "crypto_primitives"
version = "0.1.0"
edition = "2021"
publish = false

[dependencies]
sha2 = "0.10"
ark-serialize = { version = "0.5", features = ["derive"] }
hashbrown = "0.15"
ahash = "0.8"
ark-ff = "0.5"
ark-relations = "0.5"
ark-r1cs-std = "0.5"
