[package]
name = "edgemap"
version = "0.1.0"
edition = "2021"
publish = false

[dependencies]
bytes = "1"
axum = "0.8"
reqwest = { version = "0.12", default-features = false }
tokio = { version = "1", features = ["full"] }
tower = { version = "0.5", features = ["limit", "timeout"] }
http-body-util = "0.1"
serde = { version = "1", features = ["derive"] }
serde_json = "1"
