[package]
name = "hokusai"
version = "0.1.0"
edition = "2021"
publish = false

[dependencies]
image = { version = "0.25", default-features = false, features = ["png"] }
serde = { version = "1", features = ["derive"] }
serde_json = "1"
thiserror = "1"
tiny-skia = { version = "0.11", default-features = false, features = ["std"] }
wasm-bindgen = "0.2"
