[package]
name = "terminus"
version = "0.1.0"
edition = "2021"
publish = false

[dependencies]
sled = "0.34"
blake3 = "1"
base64 = "0.13"
tokio = { version = "1", features = ["rt-multi-thread", "net", "io-util", "macros", "time", "sync"] }
crossbeam-channel = "0.5"
rand = "0.8"
serde = { version = "1", features = ["derive"] }
toml = "*"
dirs = "*"
anyhow = "1"
