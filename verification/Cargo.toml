[package]
name = "parson"
version = "0.1.0"
edition = "2021"
publish = false

[dependencies]
rand = "=0.8.8"
serde_json = "=1.0.154"
wasm-bindgen = "=0.2.130"
