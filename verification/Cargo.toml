[package]
name = "serde_cbor"
version = "0.1.0"
edition = "2021"
publish = false

[dependencies]
half = "1"
serde = "1"
