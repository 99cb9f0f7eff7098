[package]
name = "eyebrowse"
version = "0.1.0"
edition = "2021"
publish = false

[dependencies]
bytemuck = "1"
console_error_panic_hook = "0.1"
flume = "=0.12.0"
half = "=2.7.1"
pollster = "=1.0.1"
safetensors = "=0.8.0"
serde = { version = "1", features = ["derive"] }
serde_json = "=1.0.154"
thiserror = "2"
tokenizers = { version = "=0.23.2", default-features = false, features = ["fancy-regex"] }
wasm-bindgen = "0.2"
wasm-bindgen-futures = "0.4"
wgpu = "=30.0.1"
