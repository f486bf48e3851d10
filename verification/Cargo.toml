[package]
name = "clubcard"
version = "0.1.0"
edition = "2021"
publish = false

[dependencies]
base64 = "0.21"
bincode = "1.3"
serde = { version = "1", features = ["derive"] }
serde_json = "1"
sha2 = "0.10"
