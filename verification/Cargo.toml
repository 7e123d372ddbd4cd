[package]
name = "kvstore"
version = "0.1.0"
edition = "2021"
publish = false

[dependencies]
serde = { version = "1", features = ["derive"] }
serde_json = "1"
sha256 = { version = "1", default-features = false }
