[package]
name = "pidc"
version = "0.2.0"
edition = "2021"
publish = false

[dependencies]
indexmap = "2"
clap = { version = "4", features = ["derive"] }
tiny_http = "0.12"
serde = { version = "1", features = ["derive"] }
serde_json = "1"
wasm-bindgen = "0.2"
