[package]
name = "rough-wasm"
version = "0.1.0"
edition = "2021"
publish = false

[dependencies]
wasm-bindgen = "0.2"
js-sys = "0.3"
