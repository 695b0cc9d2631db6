[package]
name = "serde_llsd"
version = "0.1.0"
edition = "2021"
publish = false

[dependencies]
anyhow = "1"
base64 = "0.22"
chrono = { version = "0.4", default-features = false, features = ["std"] }
quick-xml = "0.22"
uuid = "1"
