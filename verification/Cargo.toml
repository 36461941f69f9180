[package]
name = "resp_kv"
version = "0.1.0"
edition = "2021"
publish = false

[dependencies]
bytes = "*"
env_logger = "*"
futures = "*"
log = "*"
tokio = { version = "*", features = ["rt-multi-thread", "net", "io-util", "macros", "time"] }
tokio-util = { version = "*", features = ["codec"] }
