[package]
name = "langwords"
version = "0.1.0"
edition = "2021"
publish = false

[dependencies]
rand = "0.8"
hyper = { version = "0.14", features = ["client", "server", "http1", "http2", "tcp", "runtime"] }
hyper-tls = "0.5"
tokio = { version = "1", features = ["rt", "rt-multi-thread", "macros", "time"] }
serde = { version = "1", features = ["derive"] }
serde_json = "1"
serde_qs = "0.12"
log = "0.4"
env_logger = "0.10"
