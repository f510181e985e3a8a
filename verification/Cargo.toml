[package]
name = "simplified-btc"
version = "0.1.0"
edition = "2021"
publish = false

[dependencies]
bincode = "1.3"
bitcoincash-addr = "0.5"
clap = "4"
rust-crypto = "0.2"
env_logger = "0.10"
failure = "0.1"
log = "0.4"
rand = "0.8"
serde = { version = "1.0", features = ["derive"] }
serde_json = "1.0"
sled = "0.34"
