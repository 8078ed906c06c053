[package]
name = "openv2b"
version = "0.2.0"
edition = "2021"
publish = false

[dependencies]
csv = "1"
highs = "1"
serde = { version = "1", features = ["derive"] }
serde_json = "1"
