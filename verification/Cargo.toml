[package]
name = "scribe"
version = "0.1.0"
edition = "2021"
publish = false

[dependencies]
log = "0.4"
serde = { version = "1", features = ["derive"] }
tauri = { version = "2", default-features = false }
