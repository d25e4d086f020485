[package]
name = "file_processor"
version = "0.1.0"
edition = "2021"
publish = false

[dependencies]
tokio = { version = "*", features = ["fs", "io-util", "macros", "rt-multi-thread"] }
tokio-stream = { version = "*", features = ["io-util"] }
futures-util = "*"
log = "*"
env_logger = "*"
serde_json = "*"
