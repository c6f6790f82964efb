[package]
name = "fbv"
version = "0.1.0"
edition = "2021"
publish = false

[dependencies]
flate2 = "1"
des = "0.8"
sha2 = "0.10"
serde = { version = "1", features = ["derive"] }
serde_json = "1"
bincode = "1"
rusqlite = { version = "0.32", features = ["bundled"] }
crossbeam-channel = "0.5"
walkdir = "2"
dirs = "5"
anyhow = "1"
env_logger = { version = "0.11", default-features = false }

[dev-dependencies]
tempfile = "3"
