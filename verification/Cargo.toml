[package]
name = "ove"
version = "0.1.0"
edition = "2021"
publish = false

[dependencies]
serde = { version = "=1.0.229", features = ["derive"] }
serde_json = "=1.0.154"
blake3 = "=1.8.7"
ffmpeg-sys-next = "7"
