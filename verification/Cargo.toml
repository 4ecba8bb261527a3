[package]
name = "lz4rip"
version = "0.7.0"
edition = "2021"
publish = false

[dependencies]
wasm-bindgen = "0.2"

[dev-dependencies]
lzzzz = "*"
snap = "1"
