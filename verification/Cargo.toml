[package]
name = "docparse"
version = "0.1.0"
edition = "2021"
publish = false

[dependencies]
anyhow = "1"
lopdf = { version = "*", default-features = false }
serde_json = "1"
tract-onnx = "0.23"
