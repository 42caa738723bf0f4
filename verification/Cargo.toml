[package]
name = "pdf2json"
version = "0.1.0"
edition = "2021"
publish = false

[dependencies]
lopdf = "*"

[dev-dependencies]
serde_json = "*"
