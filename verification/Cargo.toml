[package]
name = "gobx"
version = "0.1.0"
edition = "2021"

[dependencies]
byteorder = "1"
serde = { version = "1", features = ["derive"] }
serde_bytes = "0.11"
