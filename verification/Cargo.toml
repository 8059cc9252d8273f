[package]
name = "collatz_graph"
version = "0.1.0"
edition = "2021"
publish = false

[dependencies]
plotters = "*"
plotters-canvas = "*"
wasm-bindgen = "*"
lol_alloc = "*"
