[package]
name = "vivian_memory"
version = "0.1.0"
edition = "2021"
publish = false

[dependencies]
async-trait = "=0.1.92"
chrono = { version = "=0.4.45", features = ["serde"] }
jieba-rs = "=0.7.4"
once_cell = "=1.21.4"
parking_lot = "=0.12.5"
rand = "=0.8.8"
regex = "=1.13.1"
reqwest = { version = "=0.12.28", default-features = false, features = ["json"] }
schemars = "=0.8.22"
serde = { version = "=1.0.229", features = ["derive"] }
serde_json = { version = "=1.0.154", features = ["raw_value"] }
tiktoken-rs = "=0.12.1"
tokio = { version = "=1.54.1", features = ["rt-multi-thread", "sync", "process", "time", "net", "macros"] }
tracing = "=0.1.44"
uuid = { version = "=1.29.0", features = ["v4"] }
