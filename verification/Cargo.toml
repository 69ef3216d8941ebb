[package]
name = "engula"
version = "0.2.0"
edition = "2021"
publish = false

[dependencies]
tokio = { version = "1", features = ["sync", "rt-multi-thread", "macros", "time"] }
tokio-stream = { version = "0.1", features = ["sync"] }
futures = "0.3"
