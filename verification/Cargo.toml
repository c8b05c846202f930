[package]
name = "blockstore"
version = "0.1.0"
edition = "2021"
publish = false

[dependencies]
anyhow = "*"
async-trait = "*"
tokio = { version = "*", features = ["full"] }
tokio-uring = "*"
tonic = "*"
tracing = "*"
tracing-subscriber = "*"
