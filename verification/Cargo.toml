[package]
name = "rmemqueue"
version = "0.1.0"
edition = "2021"
publish = false

[dependencies]
futures-core = "0.3"
futures-sink = "0.3"
log = "0.4"
once_cell = "1"
parking_lot = "0.12"
serde = { version = "1", features = ["derive"] }
serde_json = "1"
thiserror = "1"
tokio = { version = "1", features = ["sync", "time", "rt", "rt-multi-thread", "macros"] }
