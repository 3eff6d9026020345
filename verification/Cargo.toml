[package]
name = "tsunami"
version = "0.1.0"
edition = "2021"
publish = false

[dependencies]
bitvec = "1"
dirs = "5"
rand = { version = "0.8", features = ["small_rng"] }
reqwest = { version = "0.12", default-features = false }
sha1 = "0.10"
time = "0.3"
tokio = { version = "1", features = ["io-util", "macros", "net", "rt"] }
