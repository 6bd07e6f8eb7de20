[package]
name = "zeroclaw"
version = "0.1.0"
edition = "2021"
publish = false

[dependencies]
anyhow = "1"
async-trait = "0.1"
base64 = "0.22"
image = { version = "0.25", default-features = false, features = ["png", "webp"] }
log = "0.4"
serde_json = "1"
tokio = { version = "1", features = ["fs", "rt"] }
toml = "*"
tracing = "0.1"
tracing-log = "0.2"
