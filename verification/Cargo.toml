[package]
name = "cash_addr"
version = "0.1.0"
edition = "2021"
publish = false

[dependencies]
bech32 = "0.9"
failure = "0.1"
