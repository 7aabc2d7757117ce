[package]
name = "bplus_tree"
version = "0.1.0"
edition = "2021"
publish = false

[dependencies]
bincode = "=1.3.3"
chunkfs = { version = "=0.1.3", features = ["chunkers", "hashers"] }
serde = { version = "=1.0.229", features = ["derive"] }
tokio = { version = "=1.54.1", features = ["rt-multi-thread", "sync"] }
