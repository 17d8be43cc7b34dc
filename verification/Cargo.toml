[package]
name = "demoscope"
version = "0.1.0"
edition = "2021"
publish = false

[dependencies]
base64 = "0.22"
console_error_panic_hook = "0.1"
lzma-rs = "0.3"
wasm-bindgen = "0.2"
