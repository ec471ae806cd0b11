[package]
name = "pero_core"
version = "0.1.0"
edition = "2021"
publish = false

[dependencies]
ahash = "=0.8.12"
smallvec = "=1.16.4"
regex = "=1.13.1"
shlex = "=1.3.0"
anyhow = "1"
serde = { version = "1", features = ["derive"] }
serde_json = "1"
image = { version = "0.25", default-features = false, features = ["png", "jpeg"] }
tract-onnx = "0.21"
kstring = "=2.0.2"
