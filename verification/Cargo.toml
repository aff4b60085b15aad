[package]
name = "merkle_partial"
version = "0.1.0"
edition = "2021"
publish = false

[dependencies]
ethereum-types = "0.14"
sha2 = "0.10"
