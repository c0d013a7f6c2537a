[package]
name = "cosmwasm-vm"
version = "0.1.0"
edition = "2021"
publish = false

[dependencies]
wasmer-runtime-core = "0.13"
cosmwasm-std = { version = "0.8", features = ["iterator"] }
