[package]
name = "ciruela"
version = "0.1.0"
edition = "2021"
publish = false

[dependencies]
rust-crypto = "0.2"
base64 = "0.13"
serde = "1"
serde_cbor = "0.11"
ssh-keys = "0.1"
