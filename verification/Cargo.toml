[package]
name = "rtmp_chunk"
version = "0.1.0"
edition = "2021"
publish = false

[dependencies]
bytes = "1"
tokio = { version = "1", default-features = false, features = ["signal"] }
