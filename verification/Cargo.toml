[package]
name = "greptime"
version = "0.1.0"
edition = "2021"
publish = false

[dependencies]
async-stream = "0.3"
async-trait = "0.1"
bytes = "1"
crc32fast = "1"
datafusion = { version = "50", default-features = false }
datafusion-common = { version = "50", default-features = false }
futures = "0.3"
humantime-serde = "1"
lazy_static = "1"
prometheus = { version = "0.13", default-features = false }
serde = { version = "1", features = ["derive"] }
serde_json = "1"
tokio = { version = "1", features = ["macros", "rt", "rt-multi-thread", "sync", "time"] }
uuid = { version = "1", features = ["v4"] }
