[package]
name = "pvm_decompiler"
version = "0.1.0"
edition = "2021"
publish = false

[dependencies]
wasm-pvm = { version = "*", default-features = false }
atty = "0.2"
serde = { version = "1", features = ["derive"] }
