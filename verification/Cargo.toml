[package]
name = "mpass"
version = "0.3.0"
edition = "2021"
publish = false

[dependencies]
rust-crypto = "0.2.36"
rand = "0.3"
bincode = "0.6"
rustc-serialize = "0.3"
clap = "2.34"
mdo = "*"
serde = { version = "1", features = ["derive"] }
serde_json = "1"
yaml-rust = "0.4"
