[package]
name = "img2svg_core"
version = "0.1.0"
edition = "2021"
publish = false

[dependencies]
vtracer = "0.6"
serde = { version = "1", features = ["derive"] }
serde_json = "1"
thiserror = "1"
wasm-bindgen = "0.2"
console_error_panic_hook = "0.1"
