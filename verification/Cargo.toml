[package]
name = "cache_gather"
version = "0.1.0"
edition = "2021"
publish = false

[dependencies]
serde_json = "1"
serde = { version = "1", features = ["derive"] }
tokio = { version = "1", features = ["rt"] }
tonic = { version = "0.12", features = ["gzip"] }
log = "0.4"
tracing = "0.1"
