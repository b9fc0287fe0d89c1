[package]
name = "seekstorm_core"
version = "0.1.0"
edition = "2021"
publish = false

[dependencies]
ahash = "0.8"
anyhow = "1"
async-trait = "0.1"
bytemuck = "1"
chrono = "0.4"
crc32fast = "1"
crossbeam-skiplist = "0.1"
indexmap = "2"
rand = "0.9"
serde = { version = "1", features = ["derive"] }
serde_json = "1"
tantivy = { version = "*", default-features = false }
tokio = { version = "1", features = ["fs", "io-util", "rt", "rt-multi-thread", "sync", "macros", "time"] }
