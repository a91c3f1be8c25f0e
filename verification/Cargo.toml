[package]
name = "wallet"
version = "0.1.0"
edition = "2021"
publish = false

[dependencies]
cosmwasm-std = "*"
schemars = "0.8"
serde = { version = "*", features = ["derive"] }
