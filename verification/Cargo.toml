[package]
name = "foundry"
version = "0.1.0"
edition = "2021"
publish = false

[dependencies]
ethers = { version = "=0.15.0", default-features = false, features = ["ethers-solc"] }
eyre = "=0.6.14"
futures = "=0.3.34"
serde_json = "=1.0.154"
tokio = { version = "=1.54.1", features = ["rt-multi-thread"] }
