[package]
name = "turbovec"
version = "0.9.0"
edition = "2021"
publish = false

[dependencies]
half = "2"
rayon = "1"
wasm-bindgen = "0.2"
