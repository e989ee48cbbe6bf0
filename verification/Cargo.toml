[package]
name = "intmap"
version = "0.1.0"
edition = "2021"
publish = false

[dependencies]
proptest = { version = "=1.12.0", default-features = false, features = ["std"] }
