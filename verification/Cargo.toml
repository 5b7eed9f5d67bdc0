[package]
name = "vpin"
version = "0.1.0"
edition = "2021"
publish = false

[dependencies]
weezl = "=0.1.12"
serde = { version = "=1.0.229", features = ["derive"] }
serde_json = "=1.0.154"
cfb = "=0.10.0"
encoding_rs = "0.8"
