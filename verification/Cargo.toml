[package]
name = "libradicl"
version = "0.1.0"
edition = "2021"
publish = false

[dependencies]
ahash = "*"
bio-types = "*"
dashmap = "*"
needletail = { version = "*", default-features = false }
num = "0.4"
rust-htslib = { version = "*", default-features = false }
scroll = "*"
serde = { version = "1", features = ["derive"] }
snap = "1"
