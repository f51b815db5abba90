[package]
name = "smt_combine"
version = "0.1.0"
edition = "2021"
publish = false

[dependencies]
hashbrown = { version = "*", default-features = false }
rustc-hash = "*"
