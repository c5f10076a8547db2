[package]
name = "json5-to-json"
version = "0.1.0"
edition = "2021"
publish = false

[dependencies]
anyhow = "1"
clap = { version = "4", features = ["derive"] }
json5 = "0.4"
serde = "1"
serde_json = { version = "1", features = ["preserve_order"] }
