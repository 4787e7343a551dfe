[package]
name = "bsync"
version = "0.1.0"
edition = "2021"
publish = false

[dependencies]
base16ct = "*"
sha3 = "*"
xxhash-rust = { version = "*", features = ["xxh3"] }
