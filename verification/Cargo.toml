[package]
name = "boids"
version = "0.1.0"
edition = "2021"
publish = false

[dependencies]
ordex = "*"
rand = "0.8"
wasm-bindgen = "0.2"
web-sys = { version = "0.3", features = ["CanvasRenderingContext2d"] }
