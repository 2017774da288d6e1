[package]
name = "sine_cache"
version = "0.1.0"
edition = "2021"
publish = false

[dependencies]
serde = "*"
serde_json = "*"
tokio = { version = "*", features = ["full"] }
async-recursion = "*"
