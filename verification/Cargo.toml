[package]
name = "gitlog"
version = "0.1.0"
edition = "2021"
publish = false

[dependencies]
serde = { version = "=1.0.229", features = ["derive"] }
tauri = { version = "2", default-features = false, features = ["wry"] }
