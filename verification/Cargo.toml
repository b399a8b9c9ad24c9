[package]
name = "brush"
version = "0.1.0"
edition = "2021"
publish = false

[dependencies]
alphanumeric-sort = "*"
anyhow = "*"
async-fn-stream = "*"
clap = { version = "4", features = ["derive"] }
glam = "*"
image = { version = "*", default-features = false }
log = "*"
serde = { version = "1", features = ["derive"] }
serde_json = "1"
serde-ply = "*"
tokio = { version = "1", features = ["io-util", "rt", "sync", "macros"] }
tokio-stream = "*"
tracing = "*"
web-time = "*"
