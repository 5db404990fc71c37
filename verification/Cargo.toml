[package]
name = "withdraw-rewards-grant"
version = "0.1.0"
edition = "2021"
publish = false

[dependencies]
cosmwasm-std = { version = "1.5", features = ["staking", "stargate"] }
cosmwasm-schema = "1.5"
cosmos-sdk-proto = { version = "0.20", default-features = false }
cw2 = "1.1"
cw-storage-plus = "1.2"
schemars = "0.8"
serde = { version = "1", default-features = false, features = ["derive"] }
thiserror = "1"
