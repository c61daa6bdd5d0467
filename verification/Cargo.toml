[package]
name = "stannum"
version = "0.2.0"
edition = "2021"
publish = false

[dependencies]
rustc-hash = "=2.1.3"
siphasher = "=1.0.4"
thiserror = "=2.0.21"
serde = { version = "=1.0.229", features = ["derive"] }
serde_json = "=1.0.154"
