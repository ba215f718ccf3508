[package]
name = "chaintable"
version = "0.1.0"
edition = "2021"
publish = false

[dependencies]
rand = "0.8"
sha256 = { version = "1", default-features = false }
