[package]
name = "melonds_rollback"
version = "0.1.0"
edition = "2021"
publish = false

[dependencies]
js-sys = "0.3"
log = "0.4"
wasm_thread = "*"
