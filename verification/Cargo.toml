[package]
name = "blockchain"
version = "0.1.0"
edition = "2021"
publish = false

[dependencies]
bincode = "1"
rust-crypto = "0.2"
bitcoincash-addr = "0.5"
rand = "0.8"
serde = { version = "1", features = ["derive"] }
sled = "0.34"
clap = "4"
