[package]
name = "key_vault"
version = "0.1.0"
edition = "2021"
publish = false

[dependencies]
ckb-mock-tx-types = "*"
serde_json = "*"
