[package]
name = "anvil"
version = "0.1.0"
edition = "2021"
publish = false

[dependencies]
blake3 = "1"
hex = "0.4"
serde = { version = "1", features = ["derive"] }
serde_json = "1"
ciborium = "0.2"
sqlparser = "0.52"
thiserror = "1"
