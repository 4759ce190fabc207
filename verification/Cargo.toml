[package]
name = "box_core"
version = "0.1.0"
edition = "2021"
publish = false

[dependencies]
malachite = "*"
rapidhash = "*"
colored = "*"
serde = { version = "*", features = ["derive"] }
wasm-bindgen = "*"
serde-wasm-bindgen = "*"
