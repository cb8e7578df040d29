[package]
name = "baselard"
version = "0.1.0"
edition = "2021"
publish = false

[dependencies]
chrono = { version = "=0.4.45", features = ["serde"] }
indexmap = { version = "=2.14.2", features = ["serde"] }
moka = { version = "=0.12.16", features = ["sync"] }
serde = { version = "=1.0.229", features = ["derive"] }
serde_json = { version = "=1.0.154", features = ["preserve_order"] }
tokio = { version = "=1.54.1", features = ["fs", "io-util", "rt", "sync", "time"] }
