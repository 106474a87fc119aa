[package]
name = "translator_sv2"
version = "0.1.0"
edition = "2021"
publish = false

[dependencies]
bitcoin = { version = "0.29", default-features = false, features = ["std"] }
