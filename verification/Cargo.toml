[package]
name = "sudachi"
version = "0.6.10"
edition = "2021"
publish = false

[dependencies]
anyhow = "1"
clap = { version = "4", features = ["derive", "env"] }
memmap2 = "0.9"
serde = { version = "1", features = ["derive"] }
serde-wasm-bindgen = "0.6"
tempfile = "3"
wasm-bindgen = "0.2"
zstd = "0.13"
