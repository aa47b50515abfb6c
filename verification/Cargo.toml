[package]
name = "lsm_core"
version = "0.1.0"
edition = "2021"
publish = false

[dependencies]
crossbeam-skiplist = "0.1"
lz4_flex = "0.11"
chrono = "0.4"
rand = "0.8"
dashmap = "5"
ahash = "0.8"
serde = { version = "1", features = ["derive"] }
serde_json = "1"
