[package]
name = "syncd"
version = "0.1.0"
edition = "2021"
publish = false

[dependencies]
axum = "0.7"
csv = "1"
reqwest = { version = "0.12", default-features = false, features = ["json"] }
serde = { version = "1", features = ["derive"] }
serde_json = "1"
socket2 = { version = "0.5", features = ["all"] }
tokio = { version = "1", features = ["full"] }
