[package]
name = "varve_engine"
version = "0.1.0"
edition = "2021"
publish = false

[dependencies]
async-trait = "0.1"
bytes = "1"
futures = "0.3"
serde = { version = "1", features = ["derive"] }
serde_json = "1"
thiserror = "*"
tokio = { version = "1", features = ["sync", "time", "rt", "macros"] }
tracing = "0.1"
xxhash-rust = { version = "0.8", features = ["xxh3"] }
