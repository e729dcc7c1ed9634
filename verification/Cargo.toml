[package]
name = "shell-node"
version = "0.1.0"
edition = "2021"
publish = false

[dependencies]
hex = "0.4"
parking_lot = "0.12"
serde = { version = "1", features = ["derive"] }
serde_json = "1"
tokio = { version = "1", features = ["macros", "rt", "sync", "time"] }
tracing = "0.1"
