[package]
name = "hermes_store"
version = "0.1.0"
edition = "2021"
publish = false

[dependencies]
anyhow = "1"
byteorder = "1"
libsecp256k1 = "0.7"
log = "0.4"
pyth-sdk = "*"
pythnet-sdk = "*"
serde_wormhole = "*"
tokio = { version = "1", default-features = false, features = ["sync"] }
wormhole-vaas-serde = "*"
