[package]
name = "gpt2_tokenizer"
version = "0.1.0"
edition = "2021"
publish = false

[dependencies]
regex = "=1.13.1"
serde = { version = "=1.0.229", features = ["derive"] }
serde_json = "=1.0.154"
bytes = "=1.12.1"
candid = "=0.10.39"
ic-cdk = "=0.20.3"
tract-core = "=0.23.9"
tract-data = "=0.23.9"
tract-hir = "=0.23.9"
tract-onnx = "=0.23.9"
