[package]
name = "storage_example"
version = "0.1.0"
edition = "2021"
publish = false

[dependencies]
cryptoxide = { version = "=0.6.5", features = ["digest"] }
gloo-storage = "=0.4.0"
wasm-bindgen = "=0.2.129"
serde = { version = "=1.0.229", features = ["derive"] }
