[package]
name = "yield_generator"
version = "0.1.0"
edition = "2021"
publish = false

[dependencies]
cosmwasm-std = { version = "=1.5.11", features = ["staking"] }
cw-storage-plus = "=1.2.0"
cw-utils = "=1.0.3"
schemars = "=0.8.22"
serde = { version = "=1.0.229", features = ["derive"] }
thiserror = "=1.0.69"
