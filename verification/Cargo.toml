[package]
name = "neighborhood"
version = "0.1.0"
edition = "2021"
publish = false

[dependencies]
base64 = "*"
sha1 = "*"
serde = { version = "*", features = ["derive"] }
serde_cbor = "*"
