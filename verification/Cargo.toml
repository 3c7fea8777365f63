[package]
name = "raft"
version = "0.1.0"
edition = "2021"
publish = false

[dependencies]
bitvec = "1"
crc32fast = "1"
parking_lot = "0.12"
prometheus = { version = "0.13", default-features = false }
rand = "0.8"
serde = { version = "1", features = ["derive"] }
serde_json = "1"
thiserror = "1"
tokio = { version = "1", features = ["full"] }
tokio-stream = "0.1"
tonic = { version = "0.12", default-features = false }
tracing = "0.1"
tracing-subscriber = { version = "0.3", features = ["env-filter"] }
