[package]
name = "lrc"
version = "0.1.0"
edition = "2021"
publish = false

[dependencies]
unicase = "2"

[dev-dependencies]
regex = "1"
