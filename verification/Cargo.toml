[package]
name = "json-sort"
version = "0.1.0"
edition = "2021"
publish = false

[dependencies]
serde_json = "1"
anyhow = "1"
clap = { version = "4", features = ["derive"] }
glob = "0.3"
rayon = "1"
walkdir = "2"
wasm-bindgen = "0.2"
