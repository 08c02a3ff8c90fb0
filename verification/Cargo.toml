[package]
name = "nude_detection"
version = "0.1.0"
edition = "2021"
publish = false

[dependencies]
anyhow = "1"
image = { version = "*", default-features = false, features = ["jpeg", "png"] }
ndarray-stats = "*"
opencv = "*"
tract-onnx = "*"
