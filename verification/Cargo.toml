[package]
name = "raptorpath"
version = "0.1.0"
edition = "2021"
publish = false

[dependencies]
anyhow = "*"
bytes = "*"
dashmap = "*"
parking_lot = "*"
tokio = { version = "1", features = ["sync", "rt", "time", "macros"] }
tracing = "*"
