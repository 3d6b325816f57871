[package]
name = "profile_import"
version = "0.1.0"
edition = "2021"
publish = false

[dependencies]
base64 = "0.22"
serde = { version = "1", features = ["derive"] }
serde_json = "1"
reqwest = { version = "0.12", default-features = false }
tempfile = "3"
uuid = "1"
anyhow = "1"
