[package]
name = "forge"
version = "0.1.0"
edition = "2021"
publish = false

[dependencies]
rand = "0.8"
async-std = { version = "1", features = ["attributes"] }
futures = "0.3"
libp2p = { version = "0.53", features = ["gossipsub", "tcp", "noise", "yamux", "async-std", "ed25519"] }
