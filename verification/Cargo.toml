[package]
name = "hyposoapie"
version = "0.1.0"
edition = "2021"
publish = false

[dependencies]
feed-rs = "*"
toml = "*"
markdown-gen = "*"
reqwest = { version = "*", default-features = false, features = ["blocking"] }
