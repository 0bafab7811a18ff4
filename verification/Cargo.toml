[package]
name = "accounts_data"
version = "0.1.0"
edition = "2021"
publish = false

[dependencies]
near-crypto = "=0.15.0"
near-network-primitives = "=0.15.0"
near-primitives = "=0.15.0"
parking_lot = "=0.12.5"
thiserror = "=1.0.69"
tokio = { version = "=1.54.1", features = ["rt-multi-thread"] }
