[package]
name = "compress_json_rs"
version = "0.1.0"
edition = "2021"

[dependencies]
serde_json = "1"
