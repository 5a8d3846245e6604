[package]
name = "rvm_parser"
version = "0.1.0"
edition = "2021"
publish = false

[dependencies]
nom = "7"
slab_tree = "0.3"
slab = "0.4"
serde = { version = "1", features = ["derive"] }
serde_json = "1"
wasm-bindgen = "0.2"
